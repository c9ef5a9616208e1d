//! The command that reaches the remote side over SSH.

use crate::text::{
    chars_of, decimal, format_number, is_space, is_whitespace, split_whitespace, string_of,
    strings, texts, words,
};
use vstd::prelude::*;

verus! {

/// Options governing the SSH process used to reach the remote `rsy --server`.
#[derive(Debug, Clone)]
pub struct SshOpts {
    pub port: Option<u16>,
    pub identity: Option<String>,
    pub rsh: Option<String>,
    pub jump: Option<String>,
    pub ssh_config: Option<String>,
    pub ssh_compress: bool,
    pub ssh_opts: Vec<String>,
    pub connect_timeout: Option<u32>,
    pub keepalive: Option<u32>,
    pub rsync_path: Option<String>,
    pub quiet: bool,
}

impl Default for SshOpts {
    /// Nothing set.
    fn default() -> (opts: SshOpts)
        ensures
            opts.port is None && opts.identity is None && opts.rsh is None && opts.jump is None
                && opts.ssh_config is None && !opts.ssh_compress,
            opts.ssh_opts@.len() == 0,
            opts.connect_timeout is None && opts.keepalive is None && opts.rsync_path is None
                && !opts.quiet,
    {
        SshOpts {
            port: None,
            identity: None,
            rsh: None,
            jump: None,
            ssh_config: None,
            ssh_compress: false,
            ssh_opts: Vec::new(),
            connect_timeout: None,
            keepalive: None,
            rsync_path: None,
            quiet: false,
        }
    }
}

/// Why the remote side cannot be reached as asked for.
#[derive(Debug, Clone, Copy, PartialEq, Eq, Structural)]
pub enum SshError {
    /// The program to run remotely has characters that a shell could act on.
    UnsafeBin,
    /// No host is given.
    EmptyHost,
    /// The host would be taken for a flag.
    HostIsFlag,
    /// The host has characters that a shell could act on.
    UnsafeHost,
    /// No remote path is given.
    EmptyPath,
    /// The remote path would be taken for a flag.
    PathIsFlag,
    /// The remote path holds a zero character.
    NulInPath,
    /// The remote shell is given, but empty.
    EmptyRsh,
}

// ---------------------------------------------------------------------------
// Validation
// ---------------------------------------------------------------------------

/// An ASCII letter or digit.
pub open spec fn is_alphanumeric(c: char) -> bool {
    'a' <= c <= 'z' || 'A' <= c <= 'Z' || '0' <= c <= '9'
}

/// Tests for an ASCII letter or digit.
fn alphanumeric(c: char) -> (b: bool)
    ensures
        b == is_alphanumeric(c),
{
    ('a' <= c && c <= 'z') || ('A' <= c && c <= 'Z') || ('0' <= c && c <= '9')
}

/// A character that the name of a remote program may have.
pub open spec fn is_bin_char(c: char) -> bool {
    is_alphanumeric(c) || c == '/' || c == '_' || c == '-' || c == '.'
}

/// A character that the name of a host may not have.
pub open spec fn is_unsafe_in_host(c: char) -> bool {
    ||| is_space(c)
    ||| c == '`'
    ||| c == '$'
    ||| c == '\\'
    ||| c == '\''
    ||| c == '"'
    ||| c == ';'
    ||| c == '&'
    ||| c == '|'
    ||| c == '('
    ||| c == ')'
    ||| c == '<'
    ||| c == '>'
    ||| c == '*'
    ||| c == '?'
    ||| c == '\0'
}

/// The verdict on the name of a remote program.
pub open spec fn bin_verdict(bin: Seq<char>) -> Result<(), SshError> {
    if forall|i: int| 0 <= i < bin.len() ==> is_bin_char(#[trigger] bin[i]) {
        Ok(())
    } else {
        Err(SshError::UnsafeBin)
    }
}

/// The verdict on the name of a host.
pub open spec fn host_verdict(host: Seq<char>) -> Result<(), SshError> {
    if host.len() == 0 {
        Err(SshError::EmptyHost)
    } else if host[0] == '-' {
        Err(SshError::HostIsFlag)
    } else if exists|i: int| 0 <= i < host.len() && is_unsafe_in_host(#[trigger] host[i]) {
        Err(SshError::UnsafeHost)
    } else {
        Ok(())
    }
}

/// The verdict on a remote path.
pub open spec fn path_verdict(path: Seq<char>) -> Result<(), SshError> {
    if path.len() == 0 {
        Err(SshError::EmptyPath)
    } else if path[0] == '-' {
        Err(SshError::PathIsFlag)
    } else if path.contains('\0') {
        Err(SshError::NulInPath)
    } else {
        Ok(())
    }
}

/// Checks the name of a remote program.
pub fn validate_remote_bin(bin: &str) -> (r: Result<(), SshError>)
    ensures
        r == bin_verdict(bin@),
{
    let chars: Vec<char> = chars_of(bin);
    let mut i: usize = 0;
    while i < chars.len()
        invariant
            i <= chars@.len(),
            chars@ == bin@,
            forall|k: int| 0 <= k < i ==> is_bin_char(#[trigger] chars@[k]),
        decreases chars@.len() - i,
    {
        let c: char = chars[i];
        if !(alphanumeric(c) || c == '/' || c == '_' || c == '-' || c == '.') {
            assert(!is_bin_char(bin@[i as int]));
            return Err(SshError::UnsafeBin);
        }
        i = i + 1;
    }
    Ok(())
}

/// Tests for a character that the name of a host may not have.
fn unsafe_in_host(c: char) -> (b: bool)
    ensures
        b == is_unsafe_in_host(c),
{
    is_whitespace(c) || c == '`' || c == '$' || c == '\\' || c == '\'' || c == '"' || c == ';' || c
        == '&' || c == '|' || c == '(' || c == ')' || c == '<' || c == '>' || c == '*' || c == '?'
        || c == '\0'
}

/// Checks the name of a host.
pub fn validate_host(host: &str) -> (r: Result<(), SshError>)
    ensures
        r == host_verdict(host@),
{
    let chars: Vec<char> = chars_of(host);
    if chars.len() == 0 {
        return Err(SshError::EmptyHost);
    }
    if chars[0] == '-' {
        return Err(SshError::HostIsFlag);
    }
    let mut i: usize = 0;
    while i < chars.len()
        invariant
            i <= chars@.len(),
            chars@ == host@,
            chars@.len() > 0,
            chars@[0] != '-',
            forall|k: int| 0 <= k < i ==> !is_unsafe_in_host(#[trigger] chars@[k]),
        decreases chars@.len() - i,
    {
        if unsafe_in_host(chars[i]) {
            assert(is_unsafe_in_host(host@[i as int]));
            return Err(SshError::UnsafeHost);
        }
        i = i + 1;
    }
    Ok(())
}

/// Checks a remote path.
pub fn validate_remote_path(p: &str) -> (r: Result<(), SshError>)
    ensures
        r == path_verdict(p@),
{
    let chars: Vec<char> = chars_of(p);
    if chars.len() == 0 {
        return Err(SshError::EmptyPath);
    }
    if chars[0] == '-' {
        return Err(SshError::PathIsFlag);
    }
    if crate::text::has_char(chars.as_slice(), '\0') {
        return Err(SshError::NulInPath);
    }
    Ok(())
}

// ---------------------------------------------------------------------------
// Quoting
// ---------------------------------------------------------------------------

/// A character that no shell acts on.
pub open spec fn is_shell_safe(c: char) -> bool {
    is_alphanumeric(c) || c == '/' || c == '_' || c == '-' || c == '.' || c == ',' || c == ':' || c
        == '=' || c == '+'
}

/// A character as it stands between single quotes.
pub open spec fn quoted_char(c: char) -> Seq<char> {
    if c == '\'' {
        seq!['\'', '\\', '\'', '\'']
    } else {
        seq![c]
    }
}

/// A text as it stands between single quotes.
pub open spec fn quoted_body(s: Seq<char>) -> Seq<char>
    decreases s.len(),
{
    if s.len() == 0 {
        Seq::empty()
    } else {
        quoted_body(s.drop_last()) + quoted_char(s.last())
    }
}

/// A text as one word of a shell command: as it is where no character needs
/// quoting, else in single quotes.
pub open spec fn quoted(s: Seq<char>) -> Seq<char> {
    if s.len() > 0 && forall|i: int| 0 <= i < s.len() ==> is_shell_safe(#[trigger] s[i]) {
        s
    } else {
        seq!['\''] + quoted_body(s) + seq!['\'']
    }
}

/// Tests for a character that no shell acts on.
fn shell_safe(c: char) -> (b: bool)
    ensures
        b == is_shell_safe(c),
{
    alphanumeric(c) || c == '/' || c == '_' || c == '-' || c == '.' || c == ',' || c == ':' || c
        == '=' || c == '+'
}

/// Quotes a text for a POSIX shell. SSH joins the remote words with spaces and
/// hands the result to the remote login shell, so any character left unquoted
/// that the shell acts on would be acted on there.
pub fn shell_quote(s: &str) -> (out: String)
    ensures
        out@ == quoted(s@),
{
    let chars: Vec<char> = chars_of(s);
    let mut i: usize = 0;
    while i < chars.len() && shell_safe(chars[i])
        invariant
            i <= chars@.len(),
            forall|k: int| 0 <= k < i ==> is_shell_safe(#[trigger] chars@[k]),
        decreases chars@.len() - i,
    {
        i = i + 1;
    }
    if chars.len() > 0 && i == chars.len() {
        return string_of(chars.as_slice());
    }
    proof {
        if chars@.len() > 0 {
            assert(!is_shell_safe(s@[i as int]));
        }
    }
    let mut out: Vec<char> = vec!['\''];
    let mut k: usize = 0;
    assert(chars@.take(0) =~= Seq::empty());
    assert(out@ =~= seq!['\''] + quoted_body(chars@.take(0)));
    while k < chars.len()
        invariant
            k <= chars@.len(),
            out@ == seq!['\''] + quoted_body(chars@.take(k as int)),
        decreases chars@.len() - k,
    {
        assert(chars@.take(k + 1).drop_last() =~= chars@.take(k as int));
        let c: char = chars[k];
        if c == '\'' {
            out.push('\'');
            out.push('\\');
            out.push('\'');
            out.push('\'');
        } else {
            out.push(c);
        }
        assert(out@ =~= seq!['\''] + quoted_body(chars@.take(k + 1)));
        k = k + 1;
    }
    assert(chars@.take(k as int) =~= chars@);
    out.push('\'');
    assert(out@ =~= quoted(s@));
    string_of(out.as_slice())
}

/// What a POSIX shell makes of a text that it reads as one word, from within
/// single quotes or from outside them: nothing where the text has characters
/// that the shell acts on, or ends within quotes.
pub open spec fn shell_word(s: Seq<char>, in_quotes: bool) -> Option<Seq<char>>
    decreases s.len(),
{
    if s.len() == 0 {
        if in_quotes {
            None
        } else {
            Some(Seq::empty())
        }
    } else if s[0] == '\'' {
        shell_word(s.skip(1), !in_quotes)
    } else if in_quotes || is_shell_safe(s[0]) {
        preceded(seq![s[0]], shell_word(s.skip(1), in_quotes))
    } else if s[0] == '\\' && s.len() > 1 {
        preceded(seq![s[1]], shell_word(s.skip(2), false))
    } else {
        None
    }
}

/// A word with more in front of it.
pub open spec fn preceded(front: Seq<char>, word: Option<Seq<char>>) -> Option<Seq<char>> {
    match word {
        Some(w) => Some(front + w),
        None => None,
    }
}

/// A shell reads a quoted text as one word, and that word is the text.
pub proof fn law_shell_reads_back_what_was_quoted(s: Seq<char>)
    ensures
        shell_word(quoted(s), false) == Some(s),
{
    if s.len() > 0 && forall|i: int| 0 <= i < s.len() ==> is_shell_safe(#[trigger] s[i]) {
        lemma_safe_word(s);
    } else {
        let end = seq!['\''];
        assert(shell_word(end, true) == Some(Seq::<char>::empty())) by {
            reveal_with_fuel(shell_word, 2);
            assert(end.skip(1) =~= Seq::empty());
        }
        lemma_quoted_body(s, end);
        assert(quoted(s).skip(1) =~= quoted_body(s) + end);
        assert(s + Seq::empty() =~= s);
    }
}

proof fn lemma_safe_word(s: Seq<char>)
    requires
        forall|i: int| 0 <= i < s.len() ==> is_shell_safe(#[trigger] s[i]),
    ensures
        shell_word(s, false) == Some(s),
    decreases s.len(),
{
    if s.len() == 0 {
        assert(s =~= Seq::empty());
    } else {
        assert(is_shell_safe(s[0]));
        assert forall|i: int| 0 <= i < s.skip(1).len() implies is_shell_safe(
            #[trigger] s.skip(1)[i],
        ) by {
            assert(s.skip(1)[i] == s[i + 1]);
        }
        lemma_safe_word(s.skip(1));
        assert(seq![s[0]] + s.skip(1) =~= s);
    }
}

proof fn lemma_quoted_body(s: Seq<char>, tail: Seq<char>)
    ensures
        shell_word(quoted_body(s) + tail, true) == preceded(s, shell_word(tail, true)),
    decreases s.len(),
{
    if s.len() == 0 {
        assert(quoted_body(s) + tail =~= tail);
        match shell_word(tail, true) {
            Some(w) => {
                assert(s + w =~= w);
            },
            None => {},
        }
    } else {
        let c = s.last();
        let before = s.drop_last();
        let more = quoted_char(c) + tail;
        assert(quoted_body(s) + tail =~= quoted_body(before) + more);
        lemma_quoted_body(before, more);
        assert(shell_word(more, true) == preceded(seq![c], shell_word(tail, true))) by {
            if c == '\'' {
                let a = more.skip(1);
                let b = a.skip(2);
                assert(b.skip(1) =~= tail);
                assert(a[0] == '\\' && a[1] == '\'' && b[0] == '\'');
                assert(shell_word(b, false) == shell_word(tail, true));
                assert(shell_word(a, false) == preceded(seq![c], shell_word(b, false)));
                assert(shell_word(more, true) == shell_word(a, false));
            } else {
                assert(more.skip(1) =~= tail);
            }
        }
        match shell_word(tail, true) {
            Some(w) => {
                assert(before + (seq![c] + w) =~= s + w);
            },
            None => {},
        }
    }
}

// ---------------------------------------------------------------------------
// Command line
// ---------------------------------------------------------------------------

/// A flag with its value, where there is one.
pub open spec fn flag_text(flag: Seq<char>, value: Option<String>) -> Seq<Seq<char>> {
    match value {
        Some(v) => seq![flag, v@],
        None => Seq::empty(),
    }
}

/// A flag that may be set.
pub open spec fn flag_set(flag: Seq<char>, set: bool) -> Seq<Seq<char>> {
    if set {
        seq![flag]
    } else {
        Seq::empty()
    }
}

/// Each option behind a flag of its own.
pub open spec fn option_args(options: Seq<String>) -> Seq<Seq<char>>
    decreases options.len(),
{
    if options.len() == 0 {
        Seq::empty()
    } else {
        option_args(options.drop_last()) + seq!["-o"@, options.last()@]
    }
}

/// The arguments for a port.
pub open spec fn port_args(port: Option<u16>) -> Seq<Seq<char>> {
    match port {
        Some(p) => seq!["-p"@, decimal(p as nat)],
        None => Seq::empty(),
    }
}

/// The arguments for a limit on the time to connect, in seconds.
pub open spec fn timeout_args(timeout: Option<u32>) -> Seq<Seq<char>> {
    match timeout {
        Some(t) => seq!["-o"@, "ConnectTimeout="@ + decimal(t as nat)],
        None => Seq::empty(),
    }
}

/// The arguments for signs of life, every so many seconds.
pub open spec fn keepalive_args(keepalive: Option<u32>) -> Seq<Seq<char>> {
    match keepalive {
        Some(t) => seq![
            "-o"@,
            "ServerAliveInterval="@ + decimal(t as nat),
            "-o"@,
            "ServerAliveCountMax=3"@,
        ],
        None => Seq::empty(),
    }
}

/// The arguments for `ssh` itself.
pub open spec fn ssh_args(opts: SshOpts) -> Seq<Seq<char>> {
    seq!["-e"@, "none"@] + port_args(opts.port) + flag_text("-i"@, opts.identity) + flag_text(
        "-J"@,
        opts.jump,
    ) + flag_text("-F"@, opts.ssh_config) + flag_set("-C"@, opts.ssh_compress) + flag_set(
        "-q"@,
        opts.quiet,
    ) + timeout_args(opts.connect_timeout) + keepalive_args(opts.keepalive) + option_args(
        opts.ssh_opts@,
    )
}

/// The arguments that name the host and what to run there.
pub open spec fn remote_args(
    host: Seq<char>,
    remote_path: Seq<char>,
    sender_side: bool,
    rsy_remote: Seq<char>,
) -> Seq<Seq<char>> {
    seq!["--"@, host, rsy_remote, "--server"@] + flag_set("--sender"@, sender_side) + seq![
        "--"@,
        quoted(remote_path),
    ]
}

/// The program to start and its arguments: `ssh` with its options, or the words
/// of another remote shell.
pub open spec fn argv(
    host: Seq<char>,
    remote_path: Seq<char>,
    sender_side: bool,
    rsy_remote: Seq<char>,
    opts: SshOpts,
) -> Result<(Seq<char>, Seq<Seq<char>>), SshError> {
    let tail = remote_args(host, remote_path, sender_side, rsy_remote);
    match opts.rsh {
        Some(rsh) => if words(rsh@).len() == 0 {
            Err(SshError::EmptyRsh)
        } else {
            Ok((words(rsh@)[0], words(rsh@).skip(1) + tail))
        },
        None => Ok(("ssh"@, ssh_args(opts) + tail)),
    }
}

/// Adds one argument.
fn push_arg(args: &mut Vec<String>, arg: &str)
    ensures
        strings(final(args)@) == strings(old(args)@).push(arg@),
{
    args.push(arg.to_owned());
    assert(strings(args@) =~= strings(old(args)@).push(arg@));
}

/// Adds a flag with its value, where there is one.
fn push_flag(args: &mut Vec<String>, flag: &str, value: &Option<String>)
    ensures
        strings(final(args)@) == strings(old(args)@) + flag_text(flag@, *value),
{
    match value {
        Some(v) => {
            push_arg(args, flag);
            push_arg(args, v.as_str());
        },
        None => {},
    }
    assert(strings(args@) =~= strings(old(args)@) + flag_text(flag@, *value));
}

/// Adds a flag where it is set.
fn push_if(args: &mut Vec<String>, flag: &str, set: bool)
    ensures
        strings(final(args)@) == strings(old(args)@) + flag_set(flag@, set),
{
    if set {
        push_arg(args, flag);
    }
    assert(strings(args@) =~= strings(old(args)@) + flag_set(flag@, set));
}

/// Adds a text with a number behind it as one argument.
fn push_number(args: &mut Vec<String>, front: &str, n: u64)
    ensures
        strings(final(args)@) == strings(old(args)@).push(front@ + decimal(n as nat)),
{
    let mut text: Vec<char> = chars_of(front);
    text.extend_from_slice(format_number(n).as_slice());
    assert(text@ =~= front@ + decimal(n as nat));
    let arg: String = string_of(text.as_slice());
    push_arg(args, arg.as_str());
}

/// Adds the arguments for a port.
fn push_port(args: &mut Vec<String>, port: Option<u16>)
    ensures
        strings(final(args)@) == strings(old(args)@) + port_args(port),
{
    match port {
        Some(p) => {
            let digits: String = string_of(format_number(p as u64).as_slice());
            push_arg(args, "-p");
            push_arg(args, digits.as_str());
        },
        None => {},
    }
    assert(strings(args@) =~= strings(old(args)@) + port_args(port));
}

/// Adds the arguments for a limit on the time to connect.
fn push_timeout(args: &mut Vec<String>, timeout: Option<u32>)
    ensures
        strings(final(args)@) == strings(old(args)@) + timeout_args(timeout),
{
    match timeout {
        Some(t) => {
            push_arg(args, "-o");
            push_number(args, "ConnectTimeout=", t as u64);
        },
        None => {},
    }
    assert(strings(args@) =~= strings(old(args)@) + timeout_args(timeout));
}

/// Adds the arguments for signs of life.
fn push_keepalive(args: &mut Vec<String>, keepalive: Option<u32>)
    ensures
        strings(final(args)@) == strings(old(args)@) + keepalive_args(keepalive),
{
    match keepalive {
        Some(t) => {
            push_arg(args, "-o");
            push_number(args, "ServerAliveInterval=", t as u64);
            push_arg(args, "-o");
            push_arg(args, "ServerAliveCountMax=3");
        },
        None => {},
    }
    assert(strings(args@) =~= strings(old(args)@) + keepalive_args(keepalive));
}

/// Adds each option behind a flag of its own.
fn push_options(args: &mut Vec<String>, options: &Vec<String>)
    ensures
        strings(final(args)@) == strings(old(args)@) + option_args(options@),
{
    let ghost front = strings(args@);
    let mut i: usize = 0;
    assert(options@.take(0) =~= Seq::empty());
    assert(strings(args@) =~= front + option_args(options@.take(0)));
    while i < options.len()
        invariant
            i <= options@.len(),
            strings(args@) == front + option_args(options@.take(i as int)),
        decreases options@.len() - i,
    {
        assert(options@.take(i + 1).drop_last() =~= options@.take(i as int));
        push_arg(args, "-o");
        push_arg(args, options[i].as_str());
        assert(strings(args@) =~= front + option_args(options@.take(i + 1)));
        i = i + 1;
    }
    assert(options@.take(i as int) =~= options@);
}

/// Adds the arguments for `ssh` itself to an empty list.
fn push_ssh_args(args: &mut Vec<String>, opts: &SshOpts)
    requires
        old(args)@.len() == 0,
    ensures
        strings(final(args)@) == ssh_args(*opts),
{
    push_arg(args, "-e");
    push_arg(args, "none");
    assert(strings(args@) =~= seq!["-e"@, "none"@]);
    push_port(args, opts.port);
    push_flag(args, "-i", &opts.identity);
    push_flag(args, "-J", &opts.jump);
    push_flag(args, "-F", &opts.ssh_config);
    push_if(args, "-C", opts.ssh_compress);
    push_if(args, "-q", opts.quiet);
    push_timeout(args, opts.connect_timeout);
    push_keepalive(args, opts.keepalive);
    push_options(args, &opts.ssh_opts);
}

/// Builds the program and the arguments that the transport starts.
pub fn build_ssh_argv(
    host: &str,
    remote_path: &str,
    sender_side: bool,
    rsy_remote: &str,
    opts: &SshOpts,
) -> (r: Result<(String, Vec<String>), SshError>)
    ensures
        match r {
            Ok((prog, args)) => argv(host@, remote_path@, sender_side, rsy_remote@, *opts) == Ok::<
                (Seq<char>, Seq<Seq<char>>),
                SshError,
            >((prog@, strings(args@))),
            Err(e) => argv(host@, remote_path@, sender_side, rsy_remote@, *opts) == Err::<
                (Seq<char>, Seq<Seq<char>>),
                SshError,
            >(e),
        },
{
    let mut args: Vec<String> = Vec::new();
    let prog: String = match &opts.rsh {
        Some(rsh) => {
            let chars: Vec<char> = chars_of(rsh.as_str());
            let parts: Vec<Vec<char>> = split_whitespace(chars.as_slice());
            if parts.len() == 0 {
                return Err(SshError::EmptyRsh);
            }
            let ghost list = words(rsh@);
            let mut i: usize = 1;
            assert(strings(args@) =~= list.subrange(1, 1));
            while i < parts.len()
                invariant
                    1 <= i <= parts@.len(),
                    list == texts(parts@),
                    strings(args@) == list.subrange(1, i as int),
                decreases parts@.len() - i,
            {
                let arg: String = string_of(parts[i].as_slice());
                push_arg(&mut args, arg.as_str());
                assert(strings(args@) =~= list.subrange(1, i + 1));
                i = i + 1;
            }
            assert(list.subrange(1, i as int) =~= list.skip(1));
            string_of(parts[0].as_slice())
        },
        None => {
            push_ssh_args(&mut args, opts);
            "ssh".to_owned()
        },
    };
    let ghost front = strings(args@);
    push_arg(&mut args, "--");
    push_arg(&mut args, host);
    push_arg(&mut args, rsy_remote);
    push_arg(&mut args, "--server");
    assert(strings(args@) =~= front + seq!["--"@, host@, rsy_remote@, "--server"@]);
    push_if(&mut args, "--sender", sender_side);
    push_arg(&mut args, "--");
    let path: String = shell_quote(remote_path);
    push_arg(&mut args, path.as_str());
    assert(strings(args@) =~= front + remote_args(
        host@,
        remote_path@,
        sender_side,
        rsy_remote@,
    ));
    Ok((prog, args))
}

/// The program to run remotely: as asked for, or as the environment says, or
/// `rsy`.
pub open spec fn remote_bin(asked: Option<String>, env_bin: Option<String>) -> Seq<char> {
    match asked {
        Some(bin) => bin@,
        None => match env_bin {
            Some(bin) => bin@,
            None => "rsy"@,
        },
    }
}

/// The command that reaches the remote side, checked first.
pub open spec fn connection(
    host: Seq<char>,
    remote_path: Seq<char>,
    sender_side: bool,
    bin: Seq<char>,
    opts: SshOpts,
) -> Result<(Seq<char>, Seq<Seq<char>>), SshError> {
    match bin_verdict(bin) {
        Err(e) => Err(e),
        Ok(()) => match host_verdict(host) {
            Err(e) => Err(e),
            Ok(()) => match path_verdict(remote_path) {
                Err(e) => Err(e),
                Ok(()) => argv(host, remote_path, sender_side, bin, opts),
            },
        },
    }
}

/// Plans the connection: checks what is asked for and builds the program and
/// the arguments to start. `env_bin` is the remote program that the
/// environment names, if any.
pub fn plan_connection(
    host: &str,
    remote_path: &str,
    sender_side: bool,
    opts: &SshOpts,
    env_bin: Option<String>,
) -> (r: Result<(String, Vec<String>), SshError>)
    ensures
        ({
            let plan = connection(
                host@,
                remote_path@,
                sender_side,
                remote_bin(opts.rsync_path, env_bin),
                *opts,
            );
            match r {
                Ok((prog, args)) => plan == Ok::<(Seq<char>, Seq<Seq<char>>), SshError>(
                    (prog@, strings(args@)),
                ),
                Err(e) => plan == Err::<(Seq<char>, Seq<Seq<char>>), SshError>(e),
            }
        }),
{
    let bin: String = match &opts.rsync_path {
        Some(bin) => bin.clone(),
        None => match env_bin {
            Some(bin) => bin,
            None => "rsy".to_owned(),
        },
    };
    match validate_remote_bin(bin.as_str()) {
        Ok(()) => {},
        Err(e) => {
            return Err(e);
        },
    }
    match validate_host(host) {
        Ok(()) => {},
        Err(e) => {
            return Err(e);
        },
    }
    match validate_remote_path(remote_path) {
        Ok(()) => {},
        Err(e) => {
            return Err(e);
        },
    }
    build_ssh_argv(host, remote_path, sender_side, bin.as_str(), opts)
}

/// The remote path is the last argument, in quotes that the remote shell takes
/// off again; before it stands the mark that no flags follow. So does it before
/// the host.
pub proof fn law_argv_shape(
    host: Seq<char>,
    remote_path: Seq<char>,
    sender_side: bool,
    rsy_remote: Seq<char>,
    opts: SshOpts,
)
    requires
        argv(host, remote_path, sender_side, rsy_remote, opts) is Ok,
    ensures
        ({
            let args = argv(host, remote_path, sender_side, rsy_remote, opts)->Ok_0.1;
            let n = args.len() as int;
            let at = n - if sender_side {
                7int
            } else {
                6int
            };
            &&& at >= 0
            &&& shell_word(args[n - 1], false) == Some(remote_path)
            &&& args[n - 2] == "--"@
            &&& args[at] == "--"@
            &&& args[at + 1] == host
            &&& args[at + 2] == rsy_remote
            &&& args[at + 3] == "--server"@
        }),
{
    law_shell_reads_back_what_was_quoted(remote_path);
    let args = argv(host, remote_path, sender_side, rsy_remote, opts)->Ok_0.1;
    let tail = remote_args(host, remote_path, sender_side, rsy_remote);
    let front = if opts.rsh is Some {
        words(opts.rsh->0@).skip(1)
    } else {
        ssh_args(opts)
    };
    assert(args == front + tail);
    assert(tail.len() == if sender_side {
        7int
    } else {
        6int
    });
}

/// A text stays as it is exactly where it is not empty and all its characters are
/// letters, digits or one of `/ _ - . , : = +`; any other text begins and ends with
/// a quote.
pub proof fn law_other_characters_are_quoted(s: Seq<char>)
    ensures
        quoted(s) == s <==> s.len() > 0 && forall|i: int|
            0 <= i < s.len() ==> {
                ||| 'a' <= #[trigger] s[i] <= 'z'
                ||| 'A' <= s[i] <= 'Z'
                ||| '0' <= s[i] <= '9'
                ||| s[i] == '/' || s[i] == '_' || s[i] == '-' || s[i] == '.'
                ||| s[i] == ',' || s[i] == ':' || s[i] == '=' || s[i] == '+'
            },
        quoted(s) != s ==> quoted(s).len() >= s.len() + 2 && quoted(s)[0] == '\'' && quoted(
            s,
        ).last() == '\'',
{
    lemma_quoted_length(s);
    if forall|i: int|
        0 <= i < s.len() ==> {
            ||| 'a' <= #[trigger] s[i] <= 'z'
            ||| 'A' <= s[i] <= 'Z'
            ||| '0' <= s[i] <= '9'
            ||| s[i] == '/' || s[i] == '_' || s[i] == '-' || s[i] == '.'
            ||| s[i] == ',' || s[i] == ':' || s[i] == '=' || s[i] == '+'
        } {
        assert forall|i: int| 0 <= i < s.len() implies is_shell_safe(#[trigger] s[i]) by {}
    }
    if s.len() > 0 && forall|i: int| 0 <= i < s.len() ==> is_shell_safe(#[trigger] s[i]) {
        assert forall|i: int| 0 <= i < s.len() implies {
            ||| 'a' <= #[trigger] s[i] <= 'z'
            ||| 'A' <= s[i] <= 'Z'
            ||| '0' <= s[i] <= '9'
            ||| s[i] == '/' || s[i] == '_' || s[i] == '-' || s[i] == '.'
            ||| s[i] == ',' || s[i] == ':' || s[i] == '=' || s[i] == '+'
        } by {
            assert(is_shell_safe(s[i]));
        }
    }
}

proof fn lemma_quoted_length(s: Seq<char>)
    ensures
        quoted_body(s).len() >= s.len(),
    decreases s.len(),
{
    if s.len() > 0 {
        lemma_quoted_length(s.drop_last());
    }
}

/// A host with white space or a character that a shell acts on in it, anywhere, is
/// refused, and so are an empty one and one that begins as a flag does.
pub proof fn law_unsafe_hosts_are_refused(a: Seq<char>, c: char, b: Seq<char>)
    ensures
        host_verdict(Seq::empty()) is Err,
        host_verdict(seq!['-'] + a) is Err,
        c == ' ' || c == '\t' || c == '\n' || c == '\r' || c == '`' || c == '$' || c == '\\' || c
            == '\'' || c == '"' || c == ';' || c == '&' || c == '|' || c == '(' || c == ')' || c
            == '<' || c == '>' || c == '*' || c == '?' || c == '\0' ==> host_verdict(
            a + seq![c] + b,
        ) is Err,
{
    let host = a + seq![c] + b;
    assert(host[a.len() as int] == c);
    assert((seq!['-'] + a)[0] == '-');
}

/// A host of letters, digits, `.`, `-`, `_`, `@`, `:`, `[` and `]` that does not
/// begin with `-` is accepted.
pub proof fn law_plain_hosts_are_accepted(host: Seq<char>)
    requires
        host.len() > 0,
        host[0] != '-',
        forall|i: int|
            0 <= i < host.len() ==> {
                ||| 'a' <= #[trigger] host[i] <= 'z'
                ||| 'A' <= host[i] <= 'Z'
                ||| '0' <= host[i] <= '9'
                ||| host[i] == '.' || host[i] == '-' || host[i] == '_' || host[i] == '@'
                ||| host[i] == ':' || host[i] == '[' || host[i] == ']'
            },
    ensures
        host_verdict(host) == Ok::<(), SshError>(()),
{
    assert forall|i: int| 0 <= i < host.len() implies !is_unsafe_in_host(#[trigger] host[i]) by {
        assert(host[i] == host[i]);
    }
}

/// The remote program may have letters, digits and `/ _ - .` in its name, and
/// nothing else.
pub proof fn law_remote_program_has_plain_characters(bin: Seq<char>)
    ensures
        bin_verdict(bin) is Ok <==> forall|i: int|
            0 <= i < bin.len() ==> {
                ||| 'a' <= #[trigger] bin[i] <= 'z'
                ||| 'A' <= bin[i] <= 'Z'
                ||| '0' <= bin[i] <= '9'
                ||| bin[i] == '/' || bin[i] == '_' || bin[i] == '-' || bin[i] == '.'
            },
        bin_verdict(bin) is Err ==> bin_verdict(bin) == Err::<(), SshError>(SshError::UnsafeBin),
{
    if bin_verdict(bin) is Ok {
        assert forall|i: int| 0 <= i < bin.len() implies {
            ||| 'a' <= #[trigger] bin[i] <= 'z'
            ||| 'A' <= bin[i] <= 'Z'
            ||| '0' <= bin[i] <= '9'
            ||| bin[i] == '/' || bin[i] == '_' || bin[i] == '-' || bin[i] == '.'
        } by {
            assert(is_bin_char(bin[i]));
        }
    } else {
        let i = choose|i: int| 0 <= i < bin.len() && !is_bin_char(#[trigger] bin[i]);
        assert(!is_bin_char(bin[i]));
    }
}

/// A remote path is refused exactly where it is empty, begins as a flag does or
/// holds a zero character.
pub proof fn law_remote_path_is_no_flag(path: Seq<char>)
    ensures
        path_verdict(path) is Err <==> path.len() == 0 || path[0] == '-' || path.contains('\0'),
        path.len() == 0 ==> path_verdict(path) == Err::<(), SshError>(SshError::EmptyPath),
        path.len() > 0 && path[0] == '-' ==> path_verdict(path) == Err::<(), SshError>(
            SshError::PathIsFlag,
        ),
{
}

/// A connection is planned only where the program, the host and the path are
/// accepted, and then with exactly these: nothing that was refused is started.
pub proof fn law_nothing_refused_is_started(
    host: Seq<char>,
    remote_path: Seq<char>,
    sender_side: bool,
    bin: Seq<char>,
    opts: SshOpts,
)
    ensures
        bin_verdict(bin) is Err || host_verdict(host) is Err || path_verdict(remote_path) is Err ==>
            connection(host, remote_path, sender_side, bin, opts) is Err,
        bin_verdict(bin) is Ok && host_verdict(host) is Ok && path_verdict(remote_path) is Ok ==>
            connection(host, remote_path, sender_side, bin, opts) == argv(
            host,
            remote_path,
            sender_side,
            bin,
            opts,
        ),
{
}

/// The remote program is the one that is asked for, else the one that the
/// environment names, else `rsy`.
pub proof fn law_remote_program_is_chosen(asked: String, named: String, other: Option<String>)
    ensures
        remote_bin(Some(asked), other) == asked@,
        remote_bin(None, Some(named)) == named@,
        remote_bin(None, None) == "rsy"@,
{
}

/// Without a remote shell of its own and without options, the command is `ssh`
/// without an escape character, the host, and the server with the path; on the
/// sending side with the flag for it.
pub proof fn law_plain_command(
    host: Seq<char>,
    remote_path: Seq<char>,
    sender_side: bool,
    bin: Seq<char>,
    opts: SshOpts,
)
    requires
        opts.port is None && opts.identity is None && opts.rsh is None && opts.jump is None,
        opts.ssh_config is None && !opts.ssh_compress && !opts.quiet,
        opts.connect_timeout is None && opts.keepalive is None && opts.ssh_opts@.len() == 0,
    ensures
        argv(host, remote_path, sender_side, bin, opts) == Ok::<
            (Seq<char>, Seq<Seq<char>>),
            SshError,
        >(
            (
                "ssh"@,
                if sender_side {
                    seq![
                        "-e"@,
                        "none"@,
                        "--"@,
                        host,
                        bin,
                        "--server"@,
                        "--sender"@,
                        "--"@,
                        quoted(remote_path),
                    ]
                } else {
                    seq![
                        "-e"@,
                        "none"@,
                        "--"@,
                        host,
                        bin,
                        "--server"@,
                        "--"@,
                        quoted(remote_path),
                    ]
                },
            ),
        ),
{
    let args = argv(host, remote_path, sender_side, bin, opts)->Ok_0.1;
    if sender_side {
        assert(args =~= seq![
            "-e"@,
            "none"@,
            "--"@,
            host,
            bin,
            "--server"@,
            "--sender"@,
            "--"@,
            quoted(remote_path),
        ]);
    } else {
        assert(args =~= seq![
            "-e"@,
            "none"@,
            "--"@,
            host,
            bin,
            "--server"@,
            "--"@,
            quoted(remote_path),
        ]);
    }
}

/// Two arguments stand one behind the other.
pub open spec fn has_pair(args: Seq<Seq<char>>, a: Seq<char>, b: Seq<char>) -> bool {
    exists|i: int| 0 <= i < args.len() - 1 && #[trigger] args[i] == a && args[i + 1] == b
}

/// Every option for `ssh` that is set is handed to it, with its value.
pub proof fn law_options_are_handed_to_ssh(opts: SshOpts, k: int)
    ensures
        opts.port matches Some(p) ==> has_pair(ssh_args(opts), "-p"@, decimal(p as nat)),
        opts.identity matches Some(v) ==> has_pair(ssh_args(opts), "-i"@, v@),
        opts.jump matches Some(v) ==> has_pair(ssh_args(opts), "-J"@, v@),
        opts.ssh_config matches Some(v) ==> has_pair(ssh_args(opts), "-F"@, v@),
        opts.ssh_compress ==> ssh_args(opts).contains("-C"@),
        opts.quiet ==> ssh_args(opts).contains("-q"@),
        opts.connect_timeout matches Some(t) ==> has_pair(
            ssh_args(opts),
            "-o"@,
            "ConnectTimeout="@ + decimal(t as nat),
        ),
        opts.keepalive matches Some(t) ==> has_pair(
            ssh_args(opts),
            "-o"@,
            "ServerAliveInterval="@ + decimal(t as nat),
        ),
        opts.keepalive is Some ==> has_pair(ssh_args(opts), "-o"@, "ServerAliveCountMax=3"@),
        0 <= k < opts.ssh_opts@.len() ==> has_pair(ssh_args(opts), "-o"@, opts.ssh_opts@[k]@),
{
    if opts.port is Some {
        let piece = port_args(opts.port);
        assert(piece[0] == "-p"@ && piece[1] == decimal(opts.port->0 as nat));
        lemma_pair_is_handed(opts, "-p"@, decimal(opts.port->0 as nat));
    }
    if opts.identity is Some {
        let piece = flag_text("-i"@, opts.identity);
        assert(piece[0] == "-i"@ && piece[1] == opts.identity->0@);
        lemma_pair_is_handed(opts, "-i"@, opts.identity->0@);
    }
    if opts.jump is Some {
        let piece = flag_text("-J"@, opts.jump);
        assert(piece[0] == "-J"@ && piece[1] == opts.jump->0@);
        lemma_pair_is_handed(opts, "-J"@, opts.jump->0@);
    }
    if opts.ssh_config is Some {
        let piece = flag_text("-F"@, opts.ssh_config);
        assert(piece[0] == "-F"@ && piece[1] == opts.ssh_config->0@);
        lemma_pair_is_handed(opts, "-F"@, opts.ssh_config->0@);
    }
    if opts.connect_timeout is Some {
        let text = "ConnectTimeout="@ + decimal(opts.connect_timeout->0 as nat);
        let piece = timeout_args(opts.connect_timeout);
        assert(piece[0] == "-o"@ && piece[1] == text);
        lemma_pair_is_handed(opts, "-o"@, text);
    }
    if opts.keepalive is Some {
        let text = "ServerAliveInterval="@ + decimal(opts.keepalive->0 as nat);
        let piece = keepalive_args(opts.keepalive);
        assert(piece[0] == "-o"@ && piece[1] == text);
        lemma_pair_is_handed(opts, "-o"@, text);
        assert(piece[2] == "-o"@ && piece[3] == "ServerAliveCountMax=3"@);
        lemma_pair_is_handed(opts, "-o"@, "ServerAliveCountMax=3"@);
    }
    if 0 <= k < opts.ssh_opts@.len() {
        lemma_option_at(opts.ssh_opts@, k);
        let piece = option_args(opts.ssh_opts@);
        assert(piece[2 * k] == "-o"@ && piece[2 * k + 1] == opts.ssh_opts@[k]@);
        lemma_pair_is_handed(opts, "-o"@, opts.ssh_opts@[k]@);
    }
    lemma_flags_are_handed(opts);
}

proof fn lemma_flags_are_handed(opts: SshOpts)
    ensures
        opts.ssh_compress ==> ssh_args(opts).contains("-C"@),
        opts.quiet ==> ssh_args(opts).contains("-q"@),
{
    let front = seq!["-e"@, "none"@] + port_args(opts.port) + flag_text("-i"@, opts.identity)
        + flag_text("-J"@, opts.jump) + flag_text("-F"@, opts.ssh_config);
    let compress = front + flag_set("-C"@, opts.ssh_compress);
    if opts.ssh_compress {
        assert(ssh_args(opts)[front.len() as int] == "-C"@);
    }
    if opts.quiet {
        assert(ssh_args(opts)[compress.len() as int] == "-q"@);
    }
}

proof fn lemma_pair_is_handed(opts: SshOpts, x: Seq<char>, y: Seq<char>)
    requires
        has_pair(port_args(opts.port), x, y) || has_pair(flag_text("-i"@, opts.identity), x, y)
            || has_pair(flag_text("-J"@, opts.jump), x, y) || has_pair(
            flag_text("-F"@, opts.ssh_config),
            x,
            y,
        ) || has_pair(timeout_args(opts.connect_timeout), x, y) || has_pair(
            keepalive_args(opts.keepalive),
            x,
            y,
        ) || has_pair(option_args(opts.ssh_opts@), x, y),
    ensures
        has_pair(ssh_args(opts), x, y),
{
    let a1 = seq!["-e"@, "none"@];
    let a2 = a1 + port_args(opts.port);
    let a3 = a2 + flag_text("-i"@, opts.identity);
    let a4 = a3 + flag_text("-J"@, opts.jump);
    let a5 = a4 + flag_text("-F"@, opts.ssh_config);
    let a6 = a5 + flag_set("-C"@, opts.ssh_compress);
    let a7 = a6 + flag_set("-q"@, opts.quiet);
    let a8 = a7 + timeout_args(opts.connect_timeout);
    let a9 = a8 + keepalive_args(opts.keepalive);
    lemma_pair_stays(a1, port_args(opts.port), x, y);
    lemma_pair_stays(a2, flag_text("-i"@, opts.identity), x, y);
    lemma_pair_stays(a3, flag_text("-J"@, opts.jump), x, y);
    lemma_pair_stays(a4, flag_text("-F"@, opts.ssh_config), x, y);
    lemma_pair_stays(a5, flag_set("-C"@, opts.ssh_compress), x, y);
    lemma_pair_stays(a6, flag_set("-q"@, opts.quiet), x, y);
    lemma_pair_stays(a7, timeout_args(opts.connect_timeout), x, y);
    lemma_pair_stays(a8, keepalive_args(opts.keepalive), x, y);
    lemma_pair_stays(a9, option_args(opts.ssh_opts@), x, y);
}

proof fn lemma_pair_stays(a: Seq<Seq<char>>, b: Seq<Seq<char>>, x: Seq<char>, y: Seq<char>)
    ensures
        has_pair(a, x, y) || has_pair(b, x, y) ==> has_pair(a + b, x, y),
{
    if has_pair(a, x, y) {
        let i = choose|i: int| 0 <= i < a.len() - 1 && #[trigger] a[i] == x && a[i + 1] == y;
        assert((a + b)[i] == x && (a + b)[i + 1] == y);
    } else if has_pair(b, x, y) {
        let i = choose|i: int| 0 <= i < b.len() - 1 && #[trigger] b[i] == x && b[i + 1] == y;
        assert((a + b)[a.len() + i] == x && (a + b)[a.len() + i + 1] == y);
    }
}

proof fn lemma_option_at(options: Seq<String>, k: int)
    requires
        0 <= k < options.len(),
    ensures
        option_args(options).len() == 2 * options.len(),
        option_args(options)[2 * k] == "-o"@,
        option_args(options)[2 * k + 1] == options[k]@,
    decreases options.len(),
{
    let before = options.drop_last();
    let front = option_args(before);
    if before.len() > 0 {
        lemma_option_at(
            before,
            if k < before.len() {
                k
            } else {
                0
            },
        );
    }
    assert(front.len() == 2 * before.len());
    assert(option_args(options) == front + seq!["-o"@, options.last()@]);
    if k < before.len() {
        assert(option_args(options)[2 * k] == front[2 * k]);
        assert(option_args(options)[2 * k + 1] == front[2 * k + 1]);
    }
}

/// Nothing is handed to `ssh` but that it has no escape character and what the
/// options that are set stand for.
pub proof fn law_nothing_else_is_handed_to_ssh(opts: SshOpts)
    ensures
        ssh_args(opts).len() == 2 + (if opts.port is Some {
            2int
        } else {
            0
        }) + (if opts.identity is Some {
            2int
        } else {
            0
        }) + (if opts.jump is Some {
            2int
        } else {
            0
        }) + (if opts.ssh_config is Some {
            2int
        } else {
            0
        }) + (if opts.ssh_compress {
            1int
        } else {
            0
        }) + (if opts.quiet {
            1int
        } else {
            0
        }) + (if opts.connect_timeout is Some {
            2int
        } else {
            0
        }) + (if opts.keepalive is Some {
            4int
        } else {
            0
        }) + 2 * opts.ssh_opts@.len(),
        ssh_args(opts)[0] == "-e"@ && ssh_args(opts)[1] == "none"@,
{
    if opts.ssh_opts@.len() > 0 {
        lemma_option_at(opts.ssh_opts@, 0);
    }
}

/// Another remote shell is started as its first word says, with its other words in
/// front of the arguments; one of no words is refused.
pub proof fn law_other_shell_is_started(
    host: Seq<char>,
    remote_path: Seq<char>,
    sender_side: bool,
    bin: Seq<char>,
    opts: SshOpts,
    rsh: String,
    i: int,
)
    requires
        opts.rsh == Some(rsh),
    ensures
        words(rsh@).len() == 0 ==> argv(host, remote_path, sender_side, bin, opts) == Err::<
            (Seq<char>, Seq<Seq<char>>),
            SshError,
        >(SshError::EmptyRsh),
        words(rsh@).len() > 0 ==> (argv(
            host,
            remote_path,
            sender_side,
            bin,
            opts,
        ) matches Ok((prog, args)) && prog == words(rsh@)[0] && (1 <= i < words(rsh@).len() ==> args[i
            - 1] == words(rsh@)[i]) && args[words(rsh@).len() - 1] == "--"@),
{
}

} // verus!
