//! The command line: what its arguments ask for.

use crate::filter::{
    allowed, law_first_match_wins, law_later_rules_do_not_matter, parse_size, rule_matches,
    rule_of, rules_in, size_of_text, FilterList, RuleKind, RuleView, SizeError,
};
use crate::paths::{
    component_spans, components, is_piece, law_components_are_in_order,
    law_components_are_the_pieces, span_text, span_views, PathUnit,
};
use crate::pipeline::SyncOpts;
use crate::text::{
    begins_with, chars_of, decimal, is_digit, law_decimal_round_trip, law_numbers_are_read,
    lemma_position_from, parse_number, parsed, position_from, position_of, segments, starts_with,
    string_of, strings,
};
use crate::transport::daemon::DEFAULT_PORT;
use crate::transport::ssh::{
    has_pair, law_options_are_handed_to_ssh, remote_bin, ssh_args, SshOpts,
};
use vstd::prelude::*;
use vstd::slice::slice_subrange;

verus! {

/// The arguments of the command line.
#[derive(Debug, Clone)]
pub struct Cli {
    pub src: String,
    pub dst: Option<String>,
    pub archive: bool,
    pub delete: bool,
    pub update: bool,
    pub ignore_existing: bool,
    pub whole_file: bool,
    pub inplace: bool,
    pub one_file_system: bool,
    pub excludes: Vec<String>,
    pub includes: Vec<String>,
    pub exclude_from: Option<String>,
    pub max_size: Option<String>,
    pub min_size: Option<String>,
    pub times: bool,
    pub perms: bool,
    pub owner: bool,
    pub group: bool,
    pub checksum: bool,
    pub block_size: Option<usize>,
    pub compress: bool,
    pub verbose: bool,
    pub quiet: bool,
    pub human_readable: bool,
    pub progress: bool,
    pub stats: bool,
    pub no_tui: bool,
    pub log: bool,
    pub dry_run: bool,
    pub jobs: Option<usize>,
    pub port: Option<u16>,
    pub identity: Option<String>,
    pub rsh: Option<String>,
    pub jump: Option<String>,
    pub ssh_config: Option<String>,
    pub ssh_compress: bool,
    pub ssh_opts: Vec<String>,
    pub contimeout: Option<u32>,
    pub timeout: Option<u32>,
    pub rsync_path: Option<String>,
    pub server: bool,
    pub sender: bool,
}

impl Cli {
    /// A source and a destination, and no options.
    pub fn new(src: String, dst: Option<String>) -> (cli: Cli)
        ensures
            cli.src == src,
            cli.dst == dst,
            !cli.archive && !cli.delete && !cli.update && !cli.ignore_existing && !cli.whole_file
                && !cli.inplace && !cli.one_file_system,
            cli.excludes@.len() == 0 && cli.includes@.len() == 0 && cli.exclude_from is None,
            cli.max_size is None && cli.min_size is None,
            !cli.times && !cli.perms && !cli.owner && !cli.group && !cli.checksum,
            cli.block_size is None && !cli.compress,
            !cli.verbose && !cli.quiet && !cli.human_readable && !cli.progress && !cli.stats
                && !cli.no_tui && !cli.log && !cli.dry_run,
            cli.jobs is None && cli.port is None && cli.identity is None && cli.rsh is None
                && cli.jump is None && cli.ssh_config is None && !cli.ssh_compress,
            cli.ssh_opts@.len() == 0,
            cli.contimeout is None && cli.timeout is None && cli.rsync_path is None,
            !cli.server && !cli.sender,
    {
        Cli {
            src,
            dst,
            archive: false,
            delete: false,
            update: false,
            ignore_existing: false,
            whole_file: false,
            inplace: false,
            one_file_system: false,
            excludes: Vec::new(),
            includes: Vec::new(),
            exclude_from: None,
            max_size: None,
            min_size: None,
            times: false,
            perms: false,
            owner: false,
            group: false,
            checksum: false,
            block_size: None,
            compress: false,
            verbose: false,
            quiet: false,
            human_readable: false,
            progress: false,
            stats: false,
            no_tui: false,
            log: false,
            dry_run: false,
            jobs: None,
            port: None,
            identity: None,
            rsh: None,
            jump: None,
            ssh_config: None,
            ssh_compress: false,
            ssh_opts: Vec::new(),
            contimeout: None,
            timeout: None,
            rsync_path: None,
            server: false,
            sender: false,
        }
    }
}

// ---------------------------------------------------------------------------
// Mode
// ---------------------------------------------------------------------------

/// What kind of run is asked for.
#[derive(Debug, Clone, PartialEq, Eq)]
pub enum Mode {
    Local { src: String, dst: String },
    SshPush { host: String, src: String, remote_dst: String },
    SshPull { host: String, remote_src: String, dst: String },
    Server { sender_side: bool, path: String },
    Daemon { host: String, port: u16, src: String, dst: String },
}

/// What kind of run is asked for, as a value.
pub enum ModeView {
    Local { src: Seq<char>, dst: Seq<char> },
    SshPush { host: Seq<char>, src: Seq<char>, remote_dst: Seq<char> },
    SshPull { host: Seq<char>, remote_src: Seq<char>, dst: Seq<char> },
    Server { sender_side: bool, path: Seq<char> },
    Daemon { host: Seq<char>, port: u16, src: Seq<char>, dst: Seq<char> },
}

impl View for Mode {
    type V = ModeView;

    open spec fn view(&self) -> ModeView {
        match self {
            Mode::Local { src, dst } => ModeView::Local { src: src@, dst: dst@ },
            Mode::SshPush { host, src, remote_dst } => ModeView::SshPush {
                host: host@,
                src: src@,
                remote_dst: remote_dst@,
            },
            Mode::SshPull { host, remote_src, dst } => ModeView::SshPull {
                host: host@,
                remote_src: remote_src@,
                dst: dst@,
            },
            Mode::Server { sender_side, path } => ModeView::Server {
                sender_side: *sender_side,
                path: path@,
            },
            Mode::Daemon { host, port, src, dst } => ModeView::Daemon {
                host: host@,
                port: *port,
                src: src@,
                dst: dst@,
            },
        }
    }
}

/// The start of a daemon's address.
pub open spec fn rsync_scheme() -> Seq<char> {
    seq!['r', 's', 'y', 'n', 'c', ':', '/', '/']
}

/// The host and the path of a remote address: `rsync://host/path`, the path with
/// its separator, or `host:path`.
pub open spec fn remote_parts(s: Seq<char>) -> Option<(Seq<char>, Seq<char>)> {
    if begins_with(s, rsync_scheme()) {
        let rest = s.skip(8);
        let slash = position_from(rest, '/', 0);
        if slash < rest.len() {
            Some((rest.take(slash), rest.skip(slash)))
        } else {
            None
        }
    } else {
        let colon = position_from(s, ':', 0);
        if 0 < colon < s.len() {
            Some((s.take(colon), s.skip(colon + 1)))
        } else {
            None
        }
    }
}

/// The last position of `c` before `n`; nothing where there is none.
pub open spec fn last_position(s: Seq<char>, c: char, n: int) -> Option<int>
    decreases n,
{
    if n <= 0 {
        None
    } else if s[n - 1] == c {
        Some(n - 1)
    } else {
        last_position(s, c, n - 1)
    }
}

/// The first position from `i` on of two colons; nothing where there is none.
pub open spec fn two_colons(s: Seq<char>, i: int) -> Option<int>
    decreases s.len() - i,
{
    if i < 0 || i + 1 >= s.len() {
        None
    } else if s[i] == ':' && s[i + 1] == ':' {
        Some(i)
    } else {
        two_colons(s, i + 1)
    }
}

/// The host and the port in `host` or `host:port`.
pub open spec fn host_and_port(s: Seq<char>) -> Option<(Seq<char>, u16)> {
    match last_position(s, ':', s.len() as int) {
        None => Some((s, DEFAULT_PORT)),
        Some(colon) => match parsed(s.skip(colon + 1), 65535) {
            Some(port) => Some((s.take(colon), port as u16)),
            None => None,
        },
    }
}

/// The host, the port and the path of a daemon's address:
/// `rsync://host[:port]/path` or `host::module/path`. The host is not empty.
pub open spec fn daemon_parts(s: Seq<char>) -> Option<(Seq<char>, u16, Seq<char>)> {
    if begins_with(s, rsync_scheme()) {
        let rest = s.skip(8);
        let slash = position_from(rest, '/', 0);
        if slash < rest.len() {
            match host_and_port(rest.take(slash)) {
                Some((host, port)) => if host.len() > 0 {
                    Some((host, port, rest.skip(slash)))
                } else {
                    None
                },
                None => None,
            }
        } else {
            None
        }
    } else {
        match two_colons(s, 0) {
            Some(at) => if at > 0 {
                Some((s.take(at), DEFAULT_PORT, s.skip(at + 2)))
            } else {
                None
            },
            None => None,
        }
    }
}

/// The kind of run that the arguments ask for.
pub open spec fn mode_of(server: bool, sender: bool, src: Seq<char>, dst: Seq<char>) -> ModeView {
    if server {
        ModeView::Server { sender_side: sender, path: src }
    } else {
        match daemon_parts(dst) {
            Some((host, port, path)) => ModeView::Daemon { host, port, src, dst: path },
            None => match remote_parts(dst) {
                Some((host, path)) => ModeView::SshPush { host, src, remote_dst: path },
                None => match remote_parts(src) {
                    Some((host, path)) => ModeView::SshPull { host, remote_src: path, dst },
                    None => ModeView::Local { src, dst },
                },
            },
        }
    }
}

/// Tests for the start of a daemon's address.
fn has_scheme(s: &[char]) -> (b: bool)
    ensures
        b == begins_with(s@, rsync_scheme()),
{
    let scheme: Vec<char> = vec!['r', 's', 'y', 'n', 'c', ':', '/', '/'];
    assert(scheme@ =~= rsync_scheme());
    starts_with(s, scheme.as_slice())
}

/// The host and the path of a remote address.
pub fn split_remote(s: &str) -> (parts: Option<(String, String)>)
    ensures
        match parts {
            Some((host, path)) => remote_parts(s@) == Some((host@, path@)),
            None => remote_parts(s@) is None,
        },
{
    let chars: Vec<char> = chars_of(s);
    let all = chars.as_slice();
    if has_scheme(all) {
        let rest = slice_subrange(all, 8, all.len());
        assert(rest@ =~= s@.skip(8));
        let slash: usize = position_of(rest, '/');
        if slash == rest.len() {
            return None;
        }
        let host = slice_subrange(rest, 0, slash);
        let path = slice_subrange(rest, slash, rest.len());
        assert(host@ =~= rest@.take(slash as int));
        assert(path@ =~= rest@.skip(slash as int));
        return Some((string_of(host), string_of(path)));
    }
    let colon: usize = position_of(all, ':');
    if colon == 0 || colon == all.len() {
        return None;
    }
    let host = slice_subrange(all, 0, colon);
    let path = slice_subrange(all, colon + 1, all.len());
    assert(host@ =~= s@.take(colon as int));
    assert(path@ =~= s@.skip(colon + 1));
    Some((string_of(host), string_of(path)))
}

/// The host and the port in `host` or `host:port`.
fn split_port(s: &[char]) -> (parts: Option<(String, u16)>)
    ensures
        match parts {
            Some((host, port)) => host_and_port(s@) == Some((host@, port)),
            None => host_and_port(s@) is None,
        },
{
    let mut n: usize = s.len();
    while n > 0 && s[n - 1] != ':'
        invariant
            n <= s@.len(),
            last_position(s@, ':', s@.len() as int) == last_position(s@, ':', n as int),
        decreases n,
    {
        n = n - 1;
    }
    if n == 0 {
        return Some((string_of(s), DEFAULT_PORT));
    }
    let host = slice_subrange(s, 0, n - 1);
    let port = slice_subrange(s, n, s.len());
    assert(host@ =~= s@.take(n - 1));
    assert(port@ =~= s@.skip(n as int));
    match parse_number(port, 65535) {
        Some(p) => Some((string_of(host), p as u16)),
        None => None,
    }
}

/// The host, the port and the path of a daemon's address.
pub fn split_daemon(s: &str) -> (parts: Option<(String, u16, String)>)
    ensures
        match parts {
            Some((host, port, path)) => daemon_parts(s@) == Some((host@, port, path@)),
            None => daemon_parts(s@) is None,
        },
{
    let chars: Vec<char> = chars_of(s);
    let all = chars.as_slice();
    if has_scheme(all) {
        let rest = slice_subrange(all, 8, all.len());
        assert(rest@ =~= s@.skip(8));
        let slash: usize = position_of(rest, '/');
        if slash == rest.len() {
            return None;
        }
        let host_port = slice_subrange(rest, 0, slash);
        let path = slice_subrange(rest, slash, rest.len());
        assert(host_port@ =~= rest@.take(slash as int));
        assert(path@ =~= rest@.skip(slash as int));
        return match split_port(host_port) {
            Some((host, port)) => {
                let host_chars: Vec<char> = chars_of(host.as_str());
                if host_chars.len() == 0 {
                    None
                } else {
                    Some((host, port, string_of(path)))
                }
            },
            None => None,
        };
    }
    let mut at: usize = 0;
    while all.len() - at > 1 && !(all[at] == ':' && all[at + 1] == ':')
        invariant
            at <= all@.len(),
            two_colons(all@, 0) == two_colons(all@, at as int),
        decreases all@.len() - at,
    {
        at = at + 1;
    }
    if all.len() - at <= 1 || at == 0 {
        return None;
    }
    let host = slice_subrange(all, 0, at);
    let path = slice_subrange(all, at + 2, all.len());
    assert(host@ =~= s@.take(at as int));
    assert(path@ =~= s@.skip(at + 2));
    Some((string_of(host), DEFAULT_PORT, string_of(path)))
}

/// The destination argument; empty where there is none.
pub open spec fn dst_text(dst: Option<String>) -> Seq<char> {
    match dst {
        Some(d) => d@,
        None => Seq::empty(),
    }
}

/// The kind of run that the arguments ask for.
pub fn parse_mode(cli: &Cli) -> (mode: Mode)
    ensures
        mode@ == mode_of(cli.server, cli.sender, cli.src@, dst_text(cli.dst)),
{
    if cli.server {
        return Mode::Server { sender_side: cli.sender, path: cli.src.clone() };
    }
    let dst: String = match &cli.dst {
        Some(d) => d.clone(),
        None => String::new(),
    };
    assert(dst@ =~= dst_text(cli.dst));
    match split_daemon(dst.as_str()) {
        Some((host, port, path)) => {
            return Mode::Daemon { host, port, src: cli.src.clone(), dst: path };
        },
        None => {},
    }
    match split_remote(dst.as_str()) {
        Some((host, path)) => {
            return Mode::SshPush { host, src: cli.src.clone(), remote_dst: path };
        },
        None => {},
    }
    match split_remote(cli.src.as_str()) {
        Some((host, path)) => {
            return Mode::SshPull { host, remote_src: path, dst };
        },
        None => {},
    }
    Mode::Local { src: cli.src.clone(), dst }
}

// ---------------------------------------------------------------------------
// Trailing slash
// ---------------------------------------------------------------------------

/// The directory that a source path names, where it has no separator at its end.
pub open spec fn copied_name(src: Seq<char>) -> Option<Seq<char>> {
    let spans = component_spans(src);
    let n = spans.len();
    if n == 0 || src.last() == '/' {
        None
    } else {
        let name = span_text(src, spans[n - 1]);
        if name == seq!['.'] || name == seq!['.', '.'] {
            None
        } else {
            Some(name)
        }
    }
}

/// Where the contents of the source go: into the destination, or, where the
/// source has no separator at its end, into a directory there with the name of
/// the source.
pub open spec fn target_dir(src: Seq<char>, dst: Seq<char>) -> Seq<char> {
    match copied_name(src) {
        None => dst,
        Some(name) => if dst.len() == 0 || dst.last() == '/' {
            dst + name
        } else {
            dst.push('/') + name
        },
    }
}

/// Where the contents of the source go.
pub fn effective_dst(src: &str, dst: &str) -> (target: String)
    ensures
        target@ == target_dir(src@, dst@),
{
    let chars: Vec<char> = chars_of(src);
    let all = chars.as_slice();
    let mut target: Vec<char> = chars_of(dst);
    let spans = components(all);
    assert(component_spans(src@).len() == spans@.len());
    let n: usize = spans.len();
    if n == 0 || all.len() == 0 || all[all.len() - 1] == '/' {
        proof {
            if n > 0 {
                assert(spans@[0].0 < spans@[0].1 <= src@.len());
            }
        }
        return string_of(target.as_slice());
    }
    assert(span_views(spans@)[n - 1] == component_spans(src@)[n - 1]);
    let name = slice_subrange(all, spans[n - 1].0, spans[n - 1].1);
    let dot: Vec<char> = vec!['.'];
    let dots: Vec<char> = vec!['.', '.'];
    assert(dot@ =~= seq!['.'] && dots@ =~= seq!['.', '.']);
    if crate::text::same_text(name, dot.as_slice()) || crate::text::same_text(
        name,
        dots.as_slice(),
    ) {
        return string_of(target.as_slice());
    }
    if target.len() > 0 && target[target.len() - 1] != '/' {
        target.push('/');
    }
    target.extend_from_slice(name);
    assert(target@ =~= target_dir(src@, dst@));
    string_of(target.as_slice())
}

// ---------------------------------------------------------------------------
// Options
// ---------------------------------------------------------------------------

/// One rule for each pattern.
pub open spec fn pattern_rules(kind: RuleKind, patterns: Seq<String>) -> Seq<RuleView> {
    Seq::new(patterns.len(), |i: int| rule_of(kind, patterns[i]@))
}

/// The filter rules that the arguments ask for: what is taken in, what is left
/// out, then what a file of patterns leaves out.
pub open spec fn cli_rules(
    includes: Seq<String>,
    excludes: Seq<String>,
    exclude_text: Option<String>,
) -> Seq<RuleView> {
    pattern_rules(RuleKind::Include, includes) + pattern_rules(RuleKind::Exclude, excludes) + (
    match exclude_text {
        Some(text) => rules_in(RuleKind::Exclude, segments(text@, '\n')),
        None => Seq::empty(),
    })
}

/// A size argument, parsed.
pub open spec fn size_arg(size: Option<String>) -> Result<Option<int>, SizeError> {
    match size {
        None => Ok(None),
        Some(s) => match size_of_text(s@) {
            Ok(n) => Ok(Some(n)),
            Err(e) => Err(e),
        },
    }
}

/// A limit as a number.
pub open spec fn limit_view(limit: Option<u64>) -> Option<int> {
    match limit {
        Some(n) => Some(n as int),
        None => None,
    }
}

/// Adds a rule for each pattern.
fn add_patterns(filter: &mut FilterList, kind: RuleKind, patterns: &Vec<String>)
    ensures
        final(filter)@ == old(filter)@ + pattern_rules(kind, patterns@),
{
    let mut i: usize = 0;
    let ghost all = pattern_rules(kind, patterns@);
    assert(filter@ =~= old(filter)@ + all.take(0));
    while i < patterns.len()
        invariant
            i <= patterns@.len(),
            all == pattern_rules(kind, patterns@),
            filter@ == old(filter)@ + all.take(i as int),
        decreases patterns@.len() - i,
    {
        match kind {
            RuleKind::Include => {
                filter.add_include(patterns[i].as_str());
            },
            RuleKind::Exclude => {
                filter.add_exclude(patterns[i].as_str());
            },
        }
        assert(filter@ =~= old(filter)@ + all.take(i + 1));
        i = i + 1;
    }
    assert(all.take(i as int) =~= all);
}

/// Parses a size argument.
fn parse_size_arg(size: &Option<String>) -> (r: Result<Option<u64>, SizeError>)
    ensures
        match r {
            Ok(limit) => size_arg(*size) == Ok::<Option<int>, SizeError>(limit_view(limit)),
            Err(e) => size_arg(*size) == Err::<Option<int>, SizeError>(e),
        },
{
    match size {
        None => Ok(None),
        Some(s) => match parse_size(s.as_str()) {
            Ok(n) => Ok(Some(n)),
            Err(e) => Err(e),
        },
    }
}

/// The options that the arguments ask for, sizes and filter rules apart.
pub open spec fn flags_taken(opts: SyncOpts, cli: Cli) -> bool {
    &&& opts.delete == cli.delete
    &&& opts.update == cli.update
    &&& opts.ignore_existing == cli.ignore_existing
    &&& opts.whole_file == cli.whole_file
    &&& opts.checksum == cli.checksum
    &&& opts.inplace == cli.inplace
    &&& opts.one_file_system == cli.one_file_system
    &&& opts.preserve_times == (cli.times || cli.archive)
    &&& opts.preserve_perms == (cli.perms || cli.archive)
    &&& opts.preserve_owner == (cli.owner || cli.archive)
    &&& opts.preserve_group == (cli.group || cli.archive)
    &&& opts.block_size == cli.block_size
    &&& opts.compress == cli.compress
    &&& opts.verbose == (cli.verbose || cli.log)
    &&& opts.progress == cli.progress
    &&& opts.stats == cli.stats
    &&& opts.dry_run == cli.dry_run
}

/// The options that the arguments ask for. `exclude_text` is what the file of
/// patterns holds, where one is named.
pub fn sync_opts(cli: &Cli, exclude_text: Option<String>) -> (r: Result<SyncOpts, SizeError>)
    ensures
        match r {
            Ok(opts) => {
                &&& flags_taken(opts, *cli)
                &&& opts.filter@ == cli_rules(cli.includes@, cli.excludes@, exclude_text)
                &&& size_arg(cli.max_size) == Ok::<Option<int>, SizeError>(
                    limit_view(opts.max_size),
                )
                &&& size_arg(cli.min_size) == Ok::<Option<int>, SizeError>(
                    limit_view(opts.min_size),
                )
            },
            Err(e) => match size_arg(cli.max_size) {
                Err(f) => e == f,
                Ok(_) => size_arg(cli.min_size) == Err::<Option<int>, SizeError>(e),
            },
        },
{
    let mut filter = FilterList::default();
    add_patterns(&mut filter, RuleKind::Include, &cli.includes);
    assert(filter@ =~= pattern_rules(RuleKind::Include, cli.includes@));
    add_patterns(&mut filter, RuleKind::Exclude, &cli.excludes);
    match &exclude_text {
        Some(text) => {
            filter.load_from_text(RuleKind::Exclude, text.as_str());
        },
        None => {},
    }
    assert(filter@ =~= cli_rules(cli.includes@, cli.excludes@, exclude_text));
    let max_size: Option<u64> = match parse_size_arg(&cli.max_size) {
        Ok(limit) => limit,
        Err(e) => {
            return Err(e);
        },
    };
    let min_size: Option<u64> = match parse_size_arg(&cli.min_size) {
        Ok(limit) => limit,
        Err(e) => {
            return Err(e);
        },
    };
    Ok(
        SyncOpts {
            delete: cli.delete,
            update: cli.update,
            ignore_existing: cli.ignore_existing,
            whole_file: cli.whole_file,
            checksum: cli.checksum,
            inplace: cli.inplace,
            one_file_system: cli.one_file_system,
            preserve_times: cli.times || cli.archive,
            preserve_perms: cli.perms || cli.archive,
            preserve_owner: cli.owner || cli.archive,
            preserve_group: cli.group || cli.archive,
            filter,
            max_size,
            min_size,
            block_size: cli.block_size,
            compress: cli.compress,
            verbose: cli.verbose || cli.log,
            progress: cli.progress,
            stats: cli.stats,
            dry_run: cli.dry_run,
        },
    )
}

/// Two texts, or none, are the same.
pub open spec fn same_option(a: Option<String>, b: Option<String>) -> bool {
    match (a, b) {
        (Some(x), Some(y)) => x@ == y@,
        (None, None) => true,
        _ => false,
    }
}

/// A copy of a text, where there is one.
fn copy_option(s: &Option<String>) -> (copy: Option<String>)
    ensures
        same_option(copy, *s),
{
    match s {
        Some(text) => Some(text.clone()),
        None => None,
    }
}

/// The options for SSH are those that the arguments ask for.
pub open spec fn are_ssh_options(opts: SshOpts, cli: Cli) -> bool {
    &&& opts.port == cli.port
    &&& same_option(opts.identity, cli.identity)
    &&& same_option(opts.rsh, cli.rsh)
    &&& same_option(opts.jump, cli.jump)
    &&& same_option(opts.ssh_config, cli.ssh_config)
    &&& opts.ssh_compress == cli.ssh_compress
    &&& strings(opts.ssh_opts@) == strings(cli.ssh_opts@)
    &&& opts.connect_timeout == cli.contimeout
    &&& opts.keepalive == cli.timeout
    &&& same_option(opts.rsync_path, cli.rsync_path)
    &&& opts.quiet == cli.quiet
}

/// The options for SSH that the arguments ask for.
pub fn ssh_options(cli: &Cli) -> (opts: SshOpts)
    ensures
        are_ssh_options(opts, *cli),
{
    let mut list: Vec<String> = Vec::new();
    let mut i: usize = 0;
    while i < cli.ssh_opts.len()
        invariant
            i <= cli.ssh_opts@.len(),
            list@.len() == i,
            forall|k: int| 0 <= k < i ==> (#[trigger] list@[k])@ == cli.ssh_opts@[k]@,
        decreases cli.ssh_opts@.len() - i,
    {
        list.push(cli.ssh_opts[i].clone());
        i = i + 1;
    }
    assert(strings(list@) =~= strings(cli.ssh_opts@));
    SshOpts {
        port: cli.port,
        identity: copy_option(&cli.identity),
        rsh: copy_option(&cli.rsh),
        jump: copy_option(&cli.jump),
        ssh_config: copy_option(&cli.ssh_config),
        ssh_compress: cli.ssh_compress,
        ssh_opts: list,
        connect_timeout: cli.contimeout,
        keepalive: cli.timeout,
        rsync_path: copy_option(&cli.rsync_path),
        quiet: cli.quiet,
    }
}

/// How a run shows what it does.
#[derive(Debug, Clone, Copy, PartialEq, Eq, Structural)]
pub enum OutputMode {
    Tui,
    Plain,
    Log,
}

/// How the run shows what it does, on a terminal or not.
pub open spec fn shown_as(cli: Cli, terminal: bool) -> OutputMode {
    if cli.log {
        OutputMode::Log
    } else if cli.no_tui || cli.dry_run || !terminal {
        OutputMode::Plain
    } else {
        OutputMode::Tui
    }
}

/// How the run shows what it does.
pub fn output_mode(cli: &Cli, terminal: bool) -> (mode: OutputMode)
    ensures
        mode == shown_as(*cli, terminal),
{
    if cli.log {
        OutputMode::Log
    } else if cli.no_tui || cli.dry_run || !terminal {
        OutputMode::Plain
    } else {
        OutputMode::Tui
    }
}

/// How many threads work, where so many are asked for and there are so many
/// processors.
pub open spec fn thread_count(jobs: Option<usize>, cpus: Option<usize>) -> int {
    match jobs {
        Some(j) => j as int,
        None => match cpus {
            Some(c) => if 2 * c < 4 {
                4int
            } else {
                2 * c
            },
            None => 8int,
        },
    }
}

/// How many threads work: as many as asked for, or two for each processor and
/// at least four. Where the number of processors is not known, it is taken to
/// be four.
pub fn worker_threads(jobs: Option<usize>, cpus: Option<usize>) -> (n: usize)
    requires
        cpus matches Some(c) ==> c <= usize::MAX / 2,
    ensures
        n == thread_count(jobs, cpus),
{
    match jobs {
        Some(j) => j,
        None => match cpus {
            Some(c) => if c * 2 < 4 {
                4
            } else {
                c * 2
            },
            None => 8,
        },
    }
}

// ---------------------------------------------------------------------------
// Laws
// ---------------------------------------------------------------------------

/// A source with a separator at its end is copied into the destination itself.
pub proof fn law_trailing_slash_copies_contents(src: Seq<char>, dst: Seq<char>)
    requires
        src.len() > 0,
        src.last() == '/',
    ensures
        target_dir(src, dst) == dst,
{
}

/// A source without a separator at its end is copied under its own name: into a
/// directory below the destination.
pub proof fn law_source_is_copied_under_its_name(src: Seq<char>, dst: Seq<char>)
    requires
        copied_name(src) is Some,
        dst.len() > 0,
    ensures
        target_dir(src, dst) == if dst.last() == '/' {
            dst + copied_name(src)->0
        } else {
            dst + seq!['/'] + copied_name(src)->0
        },
{
    assert(dst.push('/') =~= dst + seq!['/']);
}

/// Paths without a colon are local.
pub proof fn law_plain_paths_are_local(sender: bool, src: Seq<char>, dst: Seq<char>)
    requires
        !src.contains(':'),
        !dst.contains(':'),
    ensures
        mode_of(false, sender, src, dst) == (ModeView::Local { src, dst }),
{
    lemma_no_colon(src);
    lemma_no_colon(dst);
    lemma_no_two_colons(dst, 0);
}

proof fn lemma_no_colon(s: Seq<char>)
    requires
        !s.contains(':'),
    ensures
        remote_parts(s) is None,
        !begins_with(s, rsync_scheme()),
{
    lemma_position_from(s, ':', 0);
    if begins_with(s, rsync_scheme()) {
        assert(s.take(8)[5] == ':');
        assert(s[5] == ':');
    }
}

proof fn lemma_no_two_colons(s: Seq<char>, i: int)
    requires
        !s.contains(':'),
    ensures
        two_colons(s, i) is None,
    decreases s.len() - i,
{
    if 0 <= i && i + 1 < s.len() {
        lemma_no_two_colons(s, i + 1);
        if s[i] == ':' {
            assert(s.contains(s[i]));
        }
    }
}

/// A destination `host:path` is pushed to over SSH, whatever the source is and
/// however the path looks: the host is what stands before the first colon, the
/// path all that stands behind it.
pub proof fn law_host_and_path_is_a_push(
    sender: bool,
    src: Seq<char>,
    host: Seq<char>,
    path: Seq<char>,
)
    requires
        host.len() > 0,
        !host.contains(':'),
        !(host == seq!['r', 's', 'y', 'n', 'c'] && path.len() >= 2 && path[0] == '/' && path[1]
            == '/'),
        path.len() > 0 ==> path[0] != ':',
        forall|i: int|
            0 <= i < path.len() - 1 ==> !(#[trigger] path[i] == ':' && path[i + 1] == ':'),
    ensures
        mode_of(false, sender, src, host + seq![':'] + path) == (ModeView::SshPush {
            host,
            src,
            remote_dst: path,
        }),
{
    let dst = host + seq![':'] + path;
    lemma_remote(host, path);
    assert forall|i: int| 0 <= i < dst.len() - 1 implies !(#[trigger] dst[i] == ':' && dst[i + 1]
        == ':') by {
        if i < host.len() {
            assert(dst[i] == host[i]);
            assert(host.contains(host[i]));
        } else if i == host.len() {
            assert(dst[i + 1] == path[0]);
        } else {
            assert(dst[i] == path[i - host.len() - 1]);
            assert(dst[i + 1] == path[i - host.len()]);
        }
    }
    lemma_never_two_colons(dst, 0);
}

/// A source `host:path` with a destination that has no colon is pulled over SSH,
/// whatever the path is.
pub proof fn law_host_and_path_is_a_pull(
    sender: bool,
    host: Seq<char>,
    path: Seq<char>,
    dst: Seq<char>,
)
    requires
        host.len() > 0,
        !host.contains(':'),
        !(host == seq!['r', 's', 'y', 'n', 'c'] && path.len() >= 2 && path[0] == '/' && path[1]
            == '/'),
        !dst.contains(':'),
    ensures
        mode_of(false, sender, host + seq![':'] + path, dst) == (ModeView::SshPull {
            host,
            remote_src: path,
            dst,
        }),
{
    lemma_remote(host, path);
    lemma_no_colon(dst);
    lemma_no_two_colons(dst, 0);
}

proof fn lemma_remote(host: Seq<char>, path: Seq<char>)
    requires
        host.len() > 0,
        !host.contains(':'),
        !(host == seq!['r', 's', 'y', 'n', 'c'] && path.len() >= 2 && path[0] == '/' && path[1]
            == '/'),
    ensures
        !begins_with(host + seq![':'] + path, rsync_scheme()),
        remote_parts(host + seq![':'] + path) == Some((host, path)),
{
    let s = host + seq![':'] + path;
    let n = host.len() as int;
    assert forall|i: int| 0 <= i < n implies s[i] != ':' by {
        assert(s[i] == host[i]);
        assert(host.contains(host[i]));
    }
    assert(s[n] == ':');
    if begins_with(s, rsync_scheme()) {
        let start = s.take(8);
        assert(start[0] == s[0] && start[1] == s[1] && start[2] == s[2] && start[3] == s[3]
            && start[4] == s[4] && start[5] == s[5] && start[6] == s[6] && start[7] == s[7]);
        assert(s[5] == ':');
        assert(n >= 5) by {
            if n < 5 {
                assert(s[n] != ':');
            }
        }
        assert(n == 5);
        assert(host =~= seq!['r', 's', 'y', 'n', 'c']);
        assert(s[6] == path[0] && s[7] == path[1]);
    }
    lemma_position_from(s, ':', 0);
    let colon = position_from(s, ':', 0);
    assert(colon == n);
    assert(s.take(n) =~= host);
    assert(s.skip(n + 1) =~= path);
}

proof fn lemma_never_two_colons(s: Seq<char>, i: int)
    requires
        forall|k: int| 0 <= k < s.len() - 1 ==> !(#[trigger] s[k] == ':' && s[k + 1] == ':'),
    ensures
        two_colons(s, i) is None,
    decreases s.len() - i,
{
    if 0 <= i && i + 1 < s.len() {
        lemma_never_two_colons(s, i + 1);
    }
}

/// A destination `host::module` is a daemon's, at the usual port, whatever the
/// source is.
pub proof fn law_two_colons_are_a_daemon(
    sender: bool,
    src: Seq<char>,
    host: Seq<char>,
    module: Seq<char>,
)
    requires
        host.len() > 0,
        !host.contains(':'),
    ensures
        mode_of(false, sender, src, host + seq![':', ':'] + module) == (ModeView::Daemon {
            host,
            port: 873,
            src,
            dst: module,
        }),
{
    let s = host + seq![':', ':'] + module;
    let n = host.len() as int;
    assert forall|i: int| 0 <= i < n implies s[i] != ':' by {
        assert(s[i] == host[i]);
        assert(host.contains(host[i]));
    }
    assert(s[n] == ':' && s[n + 1] == ':');
    if begins_with(s, rsync_scheme()) {
        let start = s.take(8);
        assert(start[5] == s[5] && start[6] == s[6]);
        assert(n == 5) by {
            if n < 5 {
                assert(start[n] == s[n]);
            }
        }
    }
    lemma_two_colons_at(s, 0, n);
    assert(s.take(n) =~= host);
    assert(s.skip(n + 2) =~= module);
}

proof fn lemma_two_colons_at(s: Seq<char>, i: int, n: int)
    requires
        0 <= i <= n,
        n + 1 < s.len(),
        forall|k: int| 0 <= k < n ==> s[k] != ':',
        s[n] == ':' && s[n + 1] == ':',
    ensures
        two_colons(s, i) == Some(n),
    decreases n - i,
{
    if i < n {
        lemma_two_colons_at(s, i + 1, n);
    }
}

/// A destination `rsync://host/path` is a daemon's, at the usual port, and
/// `rsync://host:port/path` at that port; the path keeps its separator. A port that
/// is no number of 16 bits makes it none.
pub proof fn law_rsync_address_is_a_daemon(
    sender: bool,
    src: Seq<char>,
    host: Seq<char>,
    port: nat,
    path: Seq<char>,
)
    requires
        host.len() > 0,
        !host.contains(':'),
        !host.contains('/'),
    ensures
        mode_of(
            false,
            sender,
            src,
            seq!['r', 's', 'y', 'n', 'c', ':', '/', '/'] + host + seq!['/'] + path,
        ) == (ModeView::Daemon { host, port: 873, src, dst: seq!['/'] + path }),
        port <= 65535 ==> mode_of(
            false,
            sender,
            src,
            seq!['r', 's', 'y', 'n', 'c', ':', '/', '/'] + (host + seq![':'] + decimal(port))
                + seq!['/'] + path,
        ) == (ModeView::Daemon { host, port: port as u16, src, dst: seq!['/'] + path }),
        port > 65535 ==> daemon_parts(
            seq!['r', 's', 'y', 'n', 'c', ':', '/', '/'] + (host + seq![':'] + decimal(port))
                + seq!['/'] + path,
        ) is None,
{
    lemma_address(host, path);
    lemma_no_last_position(host, host.len() as int);
    let digits = decimal(port);
    let full = host + seq![':'] + digits;
    law_decimal_round_trip(port);
    law_numbers_are_read(port, 65535, digits, 0);
    assert forall|i: int| 0 <= i < digits.len() implies digits[i] != '/' && digits[i] != ':' by {
        assert(is_digit(digits[i]));
    }
    if full.contains('/') {
        let i = full.index_of('/');
        if i < host.len() {
            assert(host[i] == '/');
        } else if i > host.len() {
            assert(digits[i - host.len() - 1] == '/');
        }
    }
    lemma_address(full, path);
    lemma_last_position_at(full, full.len() as int, host.len() as int);
    assert(full.skip(host.len() as int + 1) =~= digits);
    assert(full.take(host.len() as int) =~= host);
}

/// A source `rsync://host/path` is pulled from the host, with its separator in front
/// of the path; one without a separator behind the host is local.
pub proof fn law_rsync_source_is_a_pull(
    sender: bool,
    host: Seq<char>,
    path: Seq<char>,
    dst: Seq<char>,
)
    requires
        !host.contains('/'),
        !dst.contains(':'),
    ensures
        mode_of(
            false,
            sender,
            seq!['r', 's', 'y', 'n', 'c', ':', '/', '/'] + host + seq!['/'] + path,
            dst,
        ) == (ModeView::SshPull { host, remote_src: seq!['/'] + path, dst }),
        mode_of(false, sender, seq!['r', 's', 'y', 'n', 'c', ':', '/', '/'] + host, dst) == (
        ModeView::Local { src: seq!['r', 's', 'y', 'n', 'c', ':', '/', '/'] + host, dst }),
{
    lemma_address(host, path);
    lemma_no_colon(dst);
    lemma_no_two_colons(dst, 0);
    let bare = rsync_scheme() + host;
    assert(bare.take(8) =~= rsync_scheme());
    assert(bare.skip(8) =~= host);
    lemma_position_from(host, '/', 0);
    if position_from(host, '/', 0) < host.len() {
        assert(host.contains(host[position_from(host, '/', 0)]));
    }
}

proof fn lemma_address(host: Seq<char>, path: Seq<char>)
    requires
        !host.contains('/'),
    ensures
        ({
            let s = rsync_scheme() + host + seq!['/'] + path;
            &&& begins_with(s, rsync_scheme())
            &&& position_from(s.skip(8), '/', 0) == host.len()
            &&& host.len() < s.skip(8).len()
            &&& s.skip(8).take(host.len() as int) == host
            &&& s.skip(8).skip(host.len() as int) == seq!['/'] + path
        }),
{
    let s = rsync_scheme() + host + seq!['/'] + path;
    let rest = s.skip(8);
    assert(s.take(8) =~= rsync_scheme());
    assert(rest =~= host + seq!['/'] + path);
    lemma_position_from(rest, '/', 0);
    assert forall|i: int| 0 <= i < host.len() implies rest[i] != '/' by {
        assert(rest[i] == host[i]);
        assert(host.contains(host[i]));
    }
    assert(rest[host.len() as int] == '/');
    assert(rest.take(host.len() as int) =~= host);
    assert(rest.skip(host.len() as int) =~= seq!['/'] + path);
}

proof fn lemma_no_last_position(s: Seq<char>, n: int)
    requires
        !s.contains(':'),
        n <= s.len(),
    ensures
        last_position(s, ':', n) is None,
    decreases n,
{
    if n > 0 {
        assert(s.contains(s[n - 1]));
        lemma_no_last_position(s, n - 1);
    }
}

proof fn lemma_last_position_at(s: Seq<char>, n: int, at: int)
    requires
        0 <= at < n <= s.len(),
        s[at] == ':',
        forall|i: int| at < i < n ==> s[i] != ':',
    ensures
        last_position(s, ':', n) == Some(at),
    decreases n,
{
    if n - 1 > at {
        lemma_last_position_at(s, n - 1, at);
    }
}

/// With the server flag, the arguments are those of a server, on the side that is
/// asked for, whatever they look like.
pub proof fn law_server_flag_decides(sender: bool, src: Seq<char>, dst: Seq<char>)
    ensures
        mode_of(true, sender, src, dst) == (ModeView::Server { sender_side: sender, path: src }),
{
}

/// A colon at the very start names no host: with nothing before it an argument is
/// a local path.
pub proof fn law_colon_in_front_is_local(sender: bool, src: Seq<char>, dst: Seq<char>)
    requires
        src.len() > 0 && src[0] == ':',
        !dst.contains(':'),
    ensures
        mode_of(false, sender, src, dst) == (ModeView::Local { src, dst }),
{
    lemma_no_colon(dst);
    lemma_no_two_colons(dst, 0);
    if begins_with(src, rsync_scheme()) {
        assert(src.take(8)[0] == src[0]);
    }
}

/// The destination is the argument as it was given.
pub proof fn law_destination_is_the_argument(d: String)
    ensures
        dst_text(Some(d)) == d@,
        dst_text(None) == Seq::<char>::empty(),
{
}

/// A source that is a way, or none, and a name is copied into a directory of that
/// name below the destination, however long the way is.
pub proof fn law_source_name_is_appended(way: Seq<char>, name: Seq<char>, dst: Seq<char>)
    requires
        way.len() == 0 || way.last() == '/',
        name.len() > 0,
        !name.contains('/'),
        name != seq!['.'],
        name != seq!['.', '.'],
    ensures
        dst.len() > 0 && dst.last() != '/' ==> target_dir(way + name, dst) == dst + seq!['/'] + name,
        dst.len() == 0 || dst.last() == '/' ==> target_dir(way + name, dst) == dst + name,
{
    let src = way + name;
    let k = way.len() as int;
    let e = src.len() as int;
    assert forall|q: int| k <= q < e implies !(#[trigger] src[q]).slash() by {
        assert(src[q] == name[q - k]);
        assert(name.contains(name[q - k]));
    }
    if k > 0 {
        assert(src[k - 1] == way[k - 1]);
    }
    assert(src[k] == name[0]);
    if name.len() == 1 && name[0] == '.' {
        assert(name =~= seq!['.']);
    }
    assert(is_piece(src, k, e));
    law_components_are_the_pieces(src, k, e);
    let spans = component_spans(src);
    let m = spans.index_of((k, e));
    let n = spans.len() as int;
    assert(m == n - 1) by {
        if m < n - 1 {
            law_components_are_in_order(src, m, n - 1);
            let (x, y) = spans[n - 1];
            assert(spans.contains((x, y)));
            law_components_are_the_pieces(src, x, y);
        }
    }
    assert(span_text(src, (k, e)) =~= name);
    assert(src.last() == name.last());
    assert(name.contains(name.last()));
    assert(dst.push('/') + name =~= dst + seq!['/'] + name);
}

/// A source that ends in `.` or `..` names no directory of its own: its contents go
/// into the destination itself.
pub proof fn law_dots_are_no_name(way: Seq<char>, dst: Seq<char>)
    requires
        way.len() == 0 || way.last() == '/',
    ensures
        target_dir(way + seq!['.', '.'], dst) == dst,
        target_dir(seq!['.'], dst) == dst,
{
    let src = way + seq!['.', '.'];
    let k = way.len() as int;
    let e = src.len() as int;
    if k > 0 {
        assert(src[k - 1] == way[k - 1]);
    }
    assert(src[k] == '.' && src[k + 1] == '.');
    assert(is_piece(src, k, e));
    law_components_are_the_pieces(src, k, e);
    let spans = component_spans(src);
    let m = spans.index_of((k, e));
    let n = spans.len() as int;
    assert(m == n - 1) by {
        if m < n - 1 {
            law_components_are_in_order(src, m, n - 1);
            let (x, y) = spans[n - 1];
            assert(spans.contains((x, y)));
            law_components_are_the_pieces(src, x, y);
        }
    }
    assert(span_text(src, (k, e)) =~= seq!['.', '.']);
    let dot = seq!['.'];
    assert(is_piece(dot, 0, 1));
    law_components_are_the_pieces(dot, 0, 1);
    let all = component_spans(dot);
    let i = all.index_of((0, 1));
    assert(all.len() - 1 == i) by {
        if i < all.len() - 1 {
            law_components_are_in_order(dot, i, all.len() - 1);
            let (x, y) = all[all.len() - 1];
            assert(all.contains((x, y)));
            law_components_are_the_pieces(dot, x, y);
        }
    }
    assert(span_text(dot, (0int, 1int)) =~= dot);
}

/// Each option is set exactly where its own flag is given; archive mode sets the
/// four that preserve metadata as well, and the log makes a run verbose. No flag
/// does anything else.
pub proof fn law_flags_set_their_options(opts: SyncOpts, cli: Cli)
    requires
        flags_taken(opts, cli),
    ensures
        opts.delete <==> cli.delete,
        opts.update <==> cli.update,
        opts.ignore_existing <==> cli.ignore_existing,
        opts.whole_file <==> cli.whole_file,
        opts.checksum <==> cli.checksum,
        opts.inplace <==> cli.inplace,
        opts.one_file_system <==> cli.one_file_system,
        opts.dry_run <==> cli.dry_run,
        opts.compress <==> cli.compress,
        opts.progress <==> cli.progress,
        opts.stats <==> cli.stats,
        opts.verbose <==> cli.verbose || cli.log,
        opts.block_size == cli.block_size,
        cli.archive ==> opts.preserve_times && opts.preserve_perms && opts.preserve_owner
            && opts.preserve_group,
        !cli.archive ==> opts.preserve_times == cli.times && opts.preserve_perms == cli.perms
            && opts.preserve_owner == cli.owner && opts.preserve_group == cli.group,
{
}

/// All the patterns that are taken in come before all that are left out, each in
/// the order of the arguments, and those of a file last: so what one pattern takes
/// in no other leaves out.
pub proof fn law_included_paths_take_part(
    includes: Seq<String>,
    excludes: Seq<String>,
    exclude_text: Option<String>,
    i: int,
    rel: Seq<char>,
    is_dir: bool,
)
    requires
        0 <= i < includes.len(),
        rule_matches(rule_of(RuleKind::Include, includes[i]@), rel, is_dir),
    ensures
        allowed(cli_rules(includes, excludes, exclude_text), rel, is_dir),
{
    let front = pattern_rules(RuleKind::Include, includes);
    let rules = cli_rules(includes, excludes, exclude_text);
    assert(front[i] == rule_of(RuleKind::Include, includes[i]@));
    let all = pattern_rules(RuleKind::Exclude, excludes) + (match exclude_text {
        Some(text) => rules_in(RuleKind::Exclude, segments(text@, '\n')),
        None => Seq::empty(),
    });
    assert(rules =~= front + all);
    law_later_rules_do_not_matter(front, all, rel, is_dir);
    let first = choose|k: int|
        0 <= k < front.len() && rule_matches(#[trigger] front[k], rel, is_dir) && forall|j: int|
            0 <= j < k ==> !rule_matches(#[trigger] front[j], rel, is_dir);
    lemma_first_match(front, i, rel, is_dir);
    law_first_match_wins(front, first, rel, is_dir);
}

/// Some rule is the first that matches.
proof fn lemma_first_match(rules: Seq<RuleView>, i: int, rel: Seq<char>, is_dir: bool)
    requires
        0 <= i < rules.len(),
        rule_matches(rules[i], rel, is_dir),
    ensures
        exists|k: int|
            0 <= k < rules.len() && rule_matches(#[trigger] rules[k], rel, is_dir) && forall|j: int|
                0 <= j < k ==> !rule_matches(#[trigger] rules[j], rel, is_dir),
    decreases i,
{
    if exists|j: int| 0 <= j < i && rule_matches(#[trigger] rules[j], rel, is_dir) {
        let j = choose|j: int| 0 <= j < i && rule_matches(#[trigger] rules[j], rel, is_dir);
        lemma_first_match(rules, j, rel, is_dir);
    }
}

/// What a pattern leaves out, as an argument or as a line of a file, is left out
/// where no pattern takes it in.
pub proof fn law_excluded_paths_are_left_out(
    includes: Seq<String>,
    excludes: Seq<String>,
    exclude_text: Option<String>,
    i: int,
    rel: Seq<char>,
    is_dir: bool,
)
    requires
        forall|k: int|
            0 <= k < includes.len() ==> !rule_matches(
                rule_of(RuleKind::Include, (#[trigger] includes[k])@),
                rel,
                is_dir,
            ),
        (0 <= i < excludes.len() && rule_matches(
            rule_of(RuleKind::Exclude, excludes[i]@),
            rel,
            is_dir,
        )) || (exclude_text matches Some(text) && 0 <= i < rules_in(
            RuleKind::Exclude,
            segments(text@, '\n'),
        ).len() && rule_matches(
            rules_in(RuleKind::Exclude, segments(text@, '\n'))[i],
            rel,
            is_dir,
        )),
    ensures
        !allowed(cli_rules(includes, excludes, exclude_text), rel, is_dir),
{
    let a = pattern_rules(RuleKind::Include, includes);
    let b = pattern_rules(RuleKind::Exclude, excludes);
    let c: Seq<RuleView> = match exclude_text {
        Some(text) => rules_in(RuleKind::Exclude, segments(text@, '\n')),
        None => Seq::empty(),
    };
    let rules = a + b + c;
    assert(cli_rules(includes, excludes, exclude_text) =~= rules);
    assert forall|j: int| 0 <= j < a.len() implies !rule_matches(
        #[trigger] rules[j],
        rel,
        is_dir,
    ) by {
        assert(rules[j] == a[j]);
        assert(!rule_matches(rule_of(RuleKind::Include, includes[j]@), rel, is_dir));
    }
    assert forall|j: int| a.len() <= j < rules.len() implies (#[trigger] rules[j]).kind
        == RuleKind::Exclude by {
        if j < a.len() + b.len() {
            assert(rules[j] == b[j - a.len()]);
        } else {
            assert(rules[j] == c[j - a.len() - b.len()]);
            lemma_rules_of_kind(
                RuleKind::Exclude,
                segments(exclude_text->0@, '\n'),
                j - a.len() - b.len(),
            );
        }
    }
    if 0 <= i < excludes.len() && rule_matches(
        rule_of(RuleKind::Exclude, excludes[i]@),
        rel,
        is_dir,
    ) {
        assert(rules[a.len() + i] == b[i]);
        lemma_left_out(rules, a.len() as int, a.len() + i, rel, is_dir);
    } else {
        let at = a.len() + b.len() + i;
        assert(rules[at] == c[i]);
        lemma_left_out(rules, a.len() as int, at, rel, is_dir);
    }
}

/// Where the first rules do not match, one of the others does, and those all leave
/// out, the path is left out.
proof fn lemma_left_out(rules: Seq<RuleView>, from: int, at: int, rel: Seq<char>, is_dir: bool)
    requires
        0 <= from <= at < rules.len(),
        forall|j: int| 0 <= j < from ==> !rule_matches(#[trigger] rules[j], rel, is_dir),
        forall|j: int| from <= j < rules.len() ==> (#[trigger] rules[j]).kind == RuleKind::Exclude,
        rule_matches(rules[at], rel, is_dir),
    ensures
        !allowed(rules, rel, is_dir),
{
    lemma_first_match(rules, at, rel, is_dir);
    let first = choose|k: int|
        0 <= k < rules.len() && rule_matches(#[trigger] rules[k], rel, is_dir) && forall|j: int|
            0 <= j < k ==> !rule_matches(#[trigger] rules[j], rel, is_dir);
    law_first_match_wins(rules, first, rel, is_dir);
}

proof fn lemma_rules_of_kind(kind: RuleKind, lines: Seq<Seq<char>>, i: int)
    requires
        0 <= i < rules_in(kind, lines).len(),
    ensures
        rules_in(kind, lines)[i].kind == kind,
    decreases lines.len(),
{
    if i < rules_in(kind, lines.drop_last()).len() {
        lemma_rules_of_kind(kind, lines.drop_last(), i);
    }
}

/// A size limit is the size of its text, and none where no text is given.
pub proof fn law_limits_are_as_asked(size: Option<String>, n: int)
    ensures
        size is None ==> size_arg(size) == Ok::<Option<int>, SizeError>(None),
        size matches Some(s) ==> (size_of_text(s@) == Ok::<int, SizeError>(n) ==> size_arg(size)
            == Ok::<Option<int>, SizeError>(Some(n))),
        size matches Some(s) ==> (size_of_text(s@) is Err <==> size_arg(size) is Err),
{
}

/// The screen is used exactly on a terminal, where neither a log, nor plain output,
/// nor a dry run is asked for; a log is written exactly where it is asked for.
pub proof fn law_screen_is_for_terminals(cli: Cli, terminal: bool)
    ensures
        shown_as(cli, terminal) == OutputMode::Tui <==> terminal && !cli.log && !cli.no_tui
            && !cli.dry_run,
        shown_as(cli, terminal) == OutputMode::Log <==> cli.log,
{
}

/// As many threads work as are asked for. Where none are, there are at least four,
/// two for each processor from two on, and no fewer where there are more
/// processors.
pub proof fn law_threads_go_by_processors(n: usize, c: usize, d: usize)
    ensures
        thread_count(Some(n), Some(c)) == n && thread_count(Some(n), None) == n,
        thread_count(None, Some(c)) >= 4,
        c >= 2 ==> thread_count(None, Some(c)) == c + c,
        c <= d ==> thread_count(None, Some(c)) <= thread_count(None, Some(d)),
        thread_count(None, None) == thread_count(None, Some(4)),
{
}

/// What the arguments ask of `ssh` is handed to it.
pub proof fn law_arguments_reach_ssh(cli: Cli, opts: SshOpts, k: int)
    requires
        are_ssh_options(opts, cli),
    ensures
        cli.port matches Some(p) ==> has_pair(ssh_args(opts), "-p"@, decimal(p as nat)),
        cli.identity matches Some(v) ==> has_pair(ssh_args(opts), "-i"@, v@),
        cli.jump matches Some(v) ==> has_pair(ssh_args(opts), "-J"@, v@),
        cli.ssh_config matches Some(v) ==> has_pair(ssh_args(opts), "-F"@, v@),
        cli.ssh_compress ==> ssh_args(opts).contains("-C"@),
        cli.quiet ==> ssh_args(opts).contains("-q"@),
        cli.contimeout matches Some(t) ==> has_pair(
            ssh_args(opts),
            "-o"@,
            "ConnectTimeout="@ + decimal(t as nat),
        ),
        cli.timeout matches Some(t) ==> has_pair(
            ssh_args(opts),
            "-o"@,
            "ServerAliveInterval="@ + decimal(t as nat),
        ),
        0 <= k < cli.ssh_opts@.len() ==> has_pair(ssh_args(opts), "-o"@, cli.ssh_opts@[k]@),
        cli.rsh is None <==> opts.rsh is None,
        cli.rsh matches Some(v) ==> opts.rsh->0@ == v@,
        cli.rsync_path matches Some(v) ==> remote_bin(opts.rsync_path, None) == v@,
{
    law_options_are_handed_to_ssh(opts, k);
    if 0 <= k < cli.ssh_opts@.len() {
        assert(strings(cli.ssh_opts@)[k] == cli.ssh_opts@[k]@);
        assert(strings(opts.ssh_opts@).len() == opts.ssh_opts@.len());
        assert(strings(opts.ssh_opts@)[k] == opts.ssh_opts@[k]@);
    }
}

} // verus!
