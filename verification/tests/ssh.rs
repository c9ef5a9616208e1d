use rsy::transport::ssh::{
    build_ssh_argv, plan_connection, shell_quote, validate_host, validate_remote_bin,
    validate_remote_path, SshError, SshOpts,
};

fn argv(host: &str, sender: bool, opts: &SshOpts) -> (String, Vec<String>) {
    build_ssh_argv(host, "/remote/path", sender, "rsy", opts).unwrap()
}

#[test]
fn ssh_argv_defaults_to_ssh_with_no_pty() {
    let opts = SshOpts::default();
    let (prog, args) = argv("host", false, &opts);
    assert_eq!(prog, "ssh");
    assert_eq!(&args[..2], &["-e", "none"]);
    let tail = &args[args.len() - 5..];
    assert_eq!(tail, &["host", "rsy", "--server", "--", "/remote/path"]);
}

#[test]
fn ssh_argv_includes_port_and_identity() {
    let opts = SshOpts {
        port: Some(2222),
        identity: Some("/keys/id".into()),
        ..Default::default()
    };
    let (_, args) = argv("h", false, &opts);
    let s = args.join(" ");
    assert!(s.contains("-p 2222"), "argv missing port: {s}");
    assert!(s.contains("-i /keys/id"), "argv missing identity: {s}");
}

#[test]
fn ssh_argv_includes_jump_config_compress_opts() {
    let opts = SshOpts {
        jump: Some("bastion".into()),
        ssh_config: Some("/etc/ssh_conf".into()),
        ssh_compress: true,
        ssh_opts: vec!["StrictHostKeyChecking=no".into()],
        ..Default::default()
    };
    let (_, args) = argv("h", false, &opts);
    let s = args.join(" ");
    assert!(s.contains("-J bastion"), "missing -J: {s}");
    assert!(s.contains("-F /etc/ssh_conf"), "missing -F: {s}");
    assert!(s.contains("-C"), "missing -C: {s}");
    assert!(
        s.contains("-o StrictHostKeyChecking=no"),
        "missing ssh_opt: {s}"
    );
}

#[test]
fn ssh_argv_includes_timeouts() {
    let opts = SshOpts {
        connect_timeout: Some(10),
        keepalive: Some(30),
        ..Default::default()
    };
    let (_, args) = argv("h", false, &opts);
    let s = args.join(" ");
    assert!(
        s.contains("-o ConnectTimeout=10"),
        "missing contimeout: {s}"
    );
    assert!(
        s.contains("-o ServerAliveInterval=30"),
        "missing keepalive: {s}"
    );
    assert!(
        s.contains("-o ServerAliveCountMax=3"),
        "missing keepalive count: {s}"
    );
}

#[test]
fn ssh_argv_sender_flag_appended_after_server() {
    let opts = SshOpts::default();
    let (_, args) = argv("h", true, &opts);
    let i = args.iter().position(|a| a == "--server").unwrap();
    assert_eq!(args[i + 1], "--sender");
}

#[test]
fn ssh_argv_uses_rsh_program_and_ignores_ssh_only_flags() {
    let opts = SshOpts {
        rsh: Some("mysh -X".into()),
        port: Some(22),
        identity: Some("/k".into()),
        ..Default::default()
    };
    let (prog, args) = argv("h", false, &opts);
    assert_eq!(prog, "mysh");
    let s = args.join(" ");
    assert!(s.contains("-X"), "rsh extra arg missing: {s}");
    assert!(
        !s.contains("-p 22"),
        "ssh -p must not appear with --rsh: {s}"
    );
    assert!(
        !s.contains("-i /k"),
        "ssh -i must not appear with --rsh: {s}"
    );
}

#[test]
fn ssh_argv_rejects_unsafe_host() {
    assert!(validate_host("-oProxyCommand=foo").is_err());
    assert!(validate_host("ok-host").is_ok());
    assert!(validate_host("u@host;rm").is_err());
}

#[test]
fn ssh_argv_rejects_unsafe_remote_bin() {
    assert!(validate_remote_bin("rsy").is_ok());
    assert!(validate_remote_bin("/usr/local/bin/rsy").is_ok());
    assert!(validate_remote_bin("rsy; rm -rf /").is_err());
}

#[test]
fn validate_remote_path_rejects_leading_dash() {
    assert!(validate_remote_path("-rf").is_err());
    assert!(validate_remote_path("--rsync-path=evil").is_err());
    assert!(validate_remote_path("/tmp/data").is_ok());
}

#[test]
fn validate_remote_path_rejects_nul_and_empty() {
    assert!(validate_remote_path("").is_err());
    assert!(validate_remote_path("foo\0bar").is_err());
}

#[test]
fn validate_host_rejects_whitespace_and_glob() {
    assert!(validate_host("good-host").is_ok());
    assert!(validate_host("bad host").is_err());
    assert!(validate_host("bad\thost").is_err());
    assert!(validate_host("host*").is_err());
    assert!(validate_host("host?").is_err());
    assert!(validate_host("").is_err());
}

#[test]
fn shell_quote_passes_through_safe_paths() {
    assert_eq!(shell_quote("/foo/bar.txt"), "/foo/bar.txt");
    assert_eq!(shell_quote("a_b-c.d/e:f=g"), "a_b-c.d/e:f=g");
}

#[test]
fn shell_quote_wraps_unsafe_chars() {
    assert_eq!(shell_quote("a b"), "'a b'");
    assert_eq!(shell_quote("/tmp; rm -rf /"), "'/tmp; rm -rf /'");
    assert_eq!(shell_quote("$(evil)"), "'$(evil)'");
    // single quotes inside get escaped via `'\''`
    assert_eq!(shell_quote("it's"), "'it'\\''s'");
}

#[test]
fn ssh_argv_quotes_path_with_metacharacters() {
    let opts = SshOpts::default();
    let (_, args) = build_ssh_argv("host", "/tmp; rm -rf ~", false, "rsy", &opts).unwrap();
    let last = args.last().unwrap();
    assert_eq!(last, "'/tmp; rm -rf ~'");
    // `--` separator must sit immediately before the path
    let dash_idx = args.iter().rposition(|a| a == "--").unwrap();
    assert_eq!(dash_idx, args.len() - 2);
}

#[test]
fn ssh_argv_separator_present_before_path() {
    let opts = SshOpts::default();
    let (_, args) = argv("h", false, &opts);
    // Last two args must be "--" then the (quoted) path.
    assert_eq!(args[args.len() - 2], "--");
}

#[test]
fn ssh_argv_empty_rsh_errors() {
    let opts = SshOpts {
        rsh: Some("   ".into()),
        ..Default::default()
    };
    assert!(build_ssh_argv("h", "/p", false, "rsy", &opts).is_err());
}

#[test]
fn ssh_argv_in_full() {
    let opts = SshOpts {
        port: Some(0),
        identity: Some("id".into()),
        jump: Some("j".into()),
        ssh_config: Some("cfg".into()),
        ssh_compress: true,
        quiet: true,
        connect_timeout: Some(1),
        keepalive: Some(2),
        ssh_opts: vec!["A=b".into(), "C=d".into()],
        ..Default::default()
    };
    let (prog, args) = build_ssh_argv("u@h", "a b", true, "bin", &opts).unwrap();
    assert_eq!(prog, "ssh");
    assert_eq!(
        args,
        [
            "-e", "none", "-p", "0", "-i", "id", "-J", "j", "-F", "cfg", "-C", "-q", "-o",
            "ConnectTimeout=1", "-o", "ServerAliveInterval=2", "-o", "ServerAliveCountMax=3",
            "-o", "A=b", "-o", "C=d", "--", "u@h", "bin", "--server", "--sender", "--", "'a b'",
        ]
    );
}

#[test]
fn shell_quote_of_nothing_is_a_word() {
    assert_eq!(shell_quote(""), "''");
    assert_eq!(shell_quote("'"), "''\\'''");
    assert_eq!(shell_quote("é"), "'é'");
}

#[test]
fn ssh_errors_are_told_apart() {
    assert_eq!(validate_remote_bin("a b"), Err(SshError::UnsafeBin));
    assert_eq!(validate_remote_bin(""), Ok(()));
    assert_eq!(validate_host(""), Err(SshError::EmptyHost));
    assert_eq!(validate_host("-h"), Err(SshError::HostIsFlag));
    assert_eq!(validate_host("a|b"), Err(SshError::UnsafeHost));
    assert_eq!(validate_host("a\u{3000}b"), Err(SshError::UnsafeHost));
    assert_eq!(validate_remote_path(""), Err(SshError::EmptyPath));
    assert_eq!(validate_remote_path("-p"), Err(SshError::PathIsFlag));
    assert_eq!(validate_remote_path("p\0"), Err(SshError::NulInPath));
    let opts = SshOpts { rsh: Some(" \t".into()), ..Default::default() };
    assert_eq!(build_ssh_argv("h", "/p", false, "rsy", &opts), Err(SshError::EmptyRsh));
}

#[test]
fn connections_are_checked_first() {
    let opts = SshOpts::default();
    let (prog, args) = plan_connection("h", "/p", false, &opts, None).unwrap();
    assert_eq!(prog, "ssh");
    assert_eq!(args, ["-e", "none", "--", "h", "rsy", "--server", "--", "/p"]);
    let (_, args) = plan_connection("h", "/p", true, &opts, Some("/opt/rsy".into())).unwrap();
    assert_eq!(args[4], "/opt/rsy");
    let asked = SshOpts { rsync_path: Some("mine".into()), ..Default::default() };
    let (_, args) = plan_connection("h", "/p", true, &asked, Some("/opt/rsy".into())).unwrap();
    assert_eq!(args[4], "mine");
    assert_eq!(
        plan_connection("-h", "-p", true, &opts, Some("a;b".into())),
        Err(SshError::UnsafeBin)
    );
    assert_eq!(plan_connection("-h", "-p", true, &opts, None), Err(SshError::HostIsFlag));
    assert_eq!(plan_connection("h", "-p", true, &opts, None), Err(SshError::PathIsFlag));
}
