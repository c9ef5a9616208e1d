use rsy::cli::{
    effective_dst, output_mode, parse_mode, split_daemon, split_remote, ssh_options, sync_opts,
    worker_threads, Cli, Mode, OutputMode,
};
use rsy::filter::SizeError;
use rsy::transport::daemon::DEFAULT_PORT;

fn cli(args: &[&str]) -> Cli {
    let mut names: Vec<String> = Vec::new();
    let mut server = false;
    let mut sender = false;
    for arg in &args[1..] {
        match *arg {
            "--server" => server = true,
            "--sender" => sender = true,
            name => names.push(name.to_string()),
        }
    }
    let mut names = names.into_iter();
    let mut cli = Cli::new(names.next().unwrap(), names.next());
    cli.server = server;
    cli.sender = sender;
    cli
}

#[test]
fn parse_mode_detects_local_copy() {
    let cli = cli(&["rsy", "src", "dst"]);
    assert!(matches!(
        parse_mode(&cli),
        Mode::Local { src, dst } if src == "src" && dst == "dst"
    ));
}

#[test]
fn parse_mode_detects_ssh_push() {
    let cli = cli(&["rsy", "src", "example.com:/srv/data"]);
    assert!(matches!(
        parse_mode(&cli),
        Mode::SshPush { host, src, remote_dst }
            if host == "example.com" && src == "src" && remote_dst == "/srv/data"
    ));
}

#[test]
fn parse_mode_detects_ssh_pull() {
    let cli = cli(&["rsy", "user@example.com:/srv/data", "dst"]);
    assert!(matches!(
        parse_mode(&cli),
        Mode::SshPull { host, remote_src, dst }
            if host == "user@example.com" && remote_src == "/srv/data" && dst == "dst"
    ));
}

#[test]
fn parse_mode_detects_server_sender() {
    let cli = cli(&["rsy", "--server", "--sender", "/tmp/src"]);
    assert!(matches!(
        parse_mode(&cli),
        Mode::Server { sender_side: true, path } if path == "/tmp/src"
    ));
}

#[test]
fn parse_mode_detects_rsync_url_daemon() {
    let cli = cli(&["rsy", "src", "rsync://example.com:10873/module/path"]);
    assert!(matches!(
        parse_mode(&cli),
        Mode::Daemon { host, port, src, dst }
            if host == "example.com" && port == 10873 && src == "src" && dst == "/module/path"
    ));
}

#[test]
fn parse_mode_detects_module_daemon() {
    let cli = cli(&["rsy", "src", "example.com::module/path"]);
    assert!(matches!(
        parse_mode(&cli),
        Mode::Daemon { host, port, src, dst }
            if host == "example.com" && port == DEFAULT_PORT && src == "src" && dst == "module/path"
    ));
}

#[test]
fn split_remote_rejects_empty_host() {
    assert!(split_remote(":/tmp").is_none());
}

#[test]
fn split_daemon_rejects_bad_port() {
    assert!(split_daemon("rsync://example.com:notaport/module").is_none());
}

#[test]
fn parse_mode_takes_a_bad_daemon_address_for_a_host() {
    // The port is no number, so the address is read as that of an SSH host.
    let cli = cli(&["rsy", "src", "rsync://h:x/p"]);
    assert_eq!(
        parse_mode(&cli),
        Mode::SshPush {
            host: "h:x".to_string(),
            src: "src".to_string(),
            remote_dst: "/p".to_string(),
        }
    );
}

#[test]
fn parse_mode_without_destination_is_local() {
    let cli = Cli::new("src".to_string(), None);
    assert_eq!(
        parse_mode(&cli),
        Mode::Local { src: "src".to_string(), dst: "".to_string() }
    );
}

#[test]
fn split_remote_takes_the_first_colon() {
    assert_eq!(split_remote("h:a:b"), Some(("h".to_string(), "a:b".to_string())));
    assert_eq!(split_remote("rsync://h/p/q"), Some(("h".to_string(), "/p/q".to_string())));
    assert_eq!(split_remote("rsync://h"), None);
    assert_eq!(split_remote("plain"), None);
    assert_eq!(split_remote("h:"), Some(("h".to_string(), "".to_string())));
}

#[test]
fn split_daemon_takes_the_last_colon_of_the_host() {
    assert_eq!(
        split_daemon("rsync://::1:99/m"),
        Some(("::1".to_string(), 99, "/m".to_string()))
    );
    assert_eq!(split_daemon("rsync://h:65536/m"), None);
    assert_eq!(
        split_daemon("rsync://h:65535/"),
        Some(("h".to_string(), 65535, "/".to_string()))
    );
    assert_eq!(
        split_daemon("rsync://h/m"),
        Some(("h".to_string(), DEFAULT_PORT, "/m".to_string()))
    );
    assert_eq!(split_daemon("rsync:///m"), None);
    assert_eq!(split_daemon("rsync://h"), None);
    assert_eq!(split_daemon("::m"), None);
    assert_eq!(split_daemon("h:m"), None);
    assert_eq!(split_daemon("h::a::b"), Some(("h".to_string(), 873, "a::b".to_string())));
}

#[test]
fn trailing_slash_decides_where_the_source_goes() {
    assert_eq!(effective_dst("src/", "dst"), "dst");
    assert_eq!(effective_dst("src", "dst"), "dst/src");
    assert_eq!(effective_dst("a/src", "dst/"), "dst/src");
    assert_eq!(effective_dst("a/./src", ""), "src");
    assert_eq!(effective_dst(".", "dst"), "dst");
    assert_eq!(effective_dst("a/..", "dst"), "dst");
    assert_eq!(effective_dst("/", "dst"), "dst");
    assert_eq!(effective_dst("/src", "dst"), "dst/src");
    assert_eq!(effective_dst("", "dst"), "dst");
}

#[test]
fn options_follow_the_arguments() {
    let mut cli = Cli::new("a".to_string(), Some("b".to_string()));
    cli.archive = true;
    cli.log = true;
    cli.delete = true;
    cli.max_size = Some("10K".to_string());
    cli.block_size = Some(77);
    cli.includes.push("keep.log".to_string());
    cli.excludes.push("*.log".to_string());
    let opts = sync_opts(&cli, Some("*.tmp\n# no\n".to_string())).unwrap();
    assert!(opts.preserve_times && opts.preserve_perms);
    assert!(opts.preserve_owner && opts.preserve_group);
    assert!(opts.verbose && opts.delete && !opts.update);
    assert_eq!(opts.max_size, Some(10 * 1024));
    assert_eq!(opts.min_size, None);
    assert_eq!(opts.block_size, Some(77));
    assert_eq!(opts.filter.0.len(), 3);
    assert!(opts.filter.allow("keep.log", false));
    assert!(!opts.filter.allow("other.log", false));
    assert!(!opts.filter.allow("x.tmp", false));
}

#[test]
fn options_report_bad_sizes() {
    let mut cli = Cli::new("a".to_string(), Some("b".to_string()));
    cli.min_size = Some("9Q".to_string());
    assert_eq!(sync_opts(&cli, None).err(), Some(SizeError::UnknownSuffix('Q')));
    cli.max_size = Some("x".to_string());
    assert_eq!(sync_opts(&cli, None).err(), Some(SizeError::Invalid));
}

#[test]
fn ssh_options_follow_the_arguments() {
    let mut cli = Cli::new("a".to_string(), Some("b".to_string()));
    cli.port = Some(22);
    cli.identity = Some("/id".to_string());
    cli.ssh_opts.push("X=1".to_string());
    cli.timeout = Some(9);
    cli.quiet = true;
    let opts = ssh_options(&cli);
    assert_eq!(opts.port, Some(22));
    assert_eq!(opts.identity.as_deref(), Some("/id"));
    assert_eq!(opts.ssh_opts, vec!["X=1".to_string()]);
    assert_eq!(opts.keepalive, Some(9));
    assert_eq!(opts.connect_timeout, None);
    assert!(opts.quiet && opts.rsh.is_none());
}

#[test]
fn output_mode_prefers_the_log() {
    let mut cli = Cli::new("a".to_string(), None);
    assert_eq!(output_mode(&cli, true), OutputMode::Tui);
    assert_eq!(output_mode(&cli, false), OutputMode::Plain);
    cli.dry_run = true;
    assert_eq!(output_mode(&cli, true), OutputMode::Plain);
    cli.log = true;
    assert_eq!(output_mode(&cli, true), OutputMode::Log);
}

#[test]
fn worker_threads_default_to_twice_the_processors() {
    assert_eq!(worker_threads(Some(3), Some(16)), 3);
    assert_eq!(worker_threads(None, Some(16)), 32);
    assert_eq!(worker_threads(None, Some(1)), 4);
    assert_eq!(worker_threads(None, None), 8);
}
