//! The remote end as users write it, and the ssh commands that reach it.

use crate::text::{chars_of, dec, push_dec, text_from};
use vstd::prelude::*;

verus! {

/// Why a text names no remote file.
#[derive(Debug, PartialEq, Eq, Structural, Clone, Copy)]
pub enum RemoteError {
    /// There is no colon.
    NoColon,
    /// There is nothing before or nothing behind the first colon.
    Empty,
}

impl RemoteError {
    /// What a user is told.
    pub fn text(&self) -> (s: &'static str)
        ensures
            s@ == match *self {
                RemoteError::NoColon => "remote spec must be [user@]host:/path"@,
                RemoteError::Empty => "bad remote spec"@,
            },
    {
        match self {
            RemoteError::NoColon => "remote spec must be [user@]host:/path",
            RemoteError::Empty => "bad remote spec",
        }
    }
}

/// `i` is where the first colon of `s` stands.
pub open spec fn first_colon(s: Seq<char>, i: int) -> bool {
    &&& 0 <= i < s.len()
    &&& s[i] == ':'
    &&& forall|j: int| 0 <= j < i ==> s[j] != ':'
}

/// Splits `[user@]host:path` at its first colon.
pub fn parse_remote(spec_text: &str) -> (r: Result<(String, String), RemoteError>)
    ensures
        match r {
            Ok((host, path)) => {
                &&& first_colon(spec_text@, host@.len() as int)
                &&& host@.len() > 0
                &&& path@.len() > 0
                &&& spec_text@ == host@.push(':') + path@
            },
            Err(RemoteError::NoColon) => !spec_text@.contains(':'),
            Err(RemoteError::Empty) => exists|i: int| #[trigger]
                first_colon(spec_text@, i) && (i == 0 || i == spec_text@.len() - 1),
        },
{
    let v: Vec<char> = chars_of(spec_text);
    let n: usize = v.len();
    let mut i: usize = 0;
    while i < n && v[i] != ':'
        invariant
            i <= n,
            n == v@.len(),
            forall|j: int| 0 <= j < i ==> v@[j] != ':',
        decreases n - i,
    {
        i = i + 1;
    }
    if i == n {
        return Err(RemoteError::NoColon);
    }
    assert(first_colon(spec_text@, i as int));
    if i == 0 || i == n - 1 {
        return Err(RemoteError::Empty);
    }
    let host: String = text_from(&v, 0, i);
    let path: String = text_from(&v, i + 1, n);
    assert(spec_text@ == host@.push(':') + path@);
    Ok((host, path))
}

/// A host without a colon and a path are found again in the text that holds
/// them with a colon between.
pub proof fn law_remote_is_split_back(host: Seq<char>, path: Seq<char>)
    requires
        !host.contains(':'),
    ensures
        first_colon(host.push(':') + path, host.len() as int),
        forall|i: int| first_colon(host.push(':') + path, i) ==> i == host.len(),
        (host.push(':') + path).take(host.len() as int) == host,
        (host.push(':') + path).skip(host.len() as int + 1) == path,
{
    let s = host.push(':') + path;
    let n = host.len() as int;
    assert forall|j: int| 0 <= j < n implies s[j] != ':' by {
        assert(s[j] == host[j]);
        assert(host.contains(host[j]));
    }
    assert(s[n] == ':');
    assert(s.take(n) == host);
    assert(s.skip(n + 1) == path);
}

/// The characters of each string.
pub open spec fn texts(v: Seq<String>) -> Seq<Seq<char>> {
    v.map_values(|s: String| s@)
}

/// The ssh options that every connection gets: none of them shared with
/// another connection or compressed, all of them kept alive.
pub open spec fn default_opts() -> Seq<Seq<char>> {
    seq![
        "-o"@,
        "ControlMaster=no"@,
        "-o"@,
        "ControlPath=none"@,
        "-o"@,
        "Compression=no"@,
        "-o"@,
        "ServerAliveInterval=30"@,
        "-o"@,
        "ServerAliveCountMax=6"@,
    ]
}

fn push_text(v: &mut Vec<String>, s: &str)
    ensures
        texts(final(v)@) == texts(old(v)@).push(s@),
{
    v.push(s.to_owned());
    assert(texts(v@) =~= texts(old(v)@).push(s@));
}

fn push_texts(v: &mut Vec<String>, more: &Vec<String>)
    ensures
        texts(final(v)@) == texts(old(v)@) + texts(more@),
{
    let mut i: usize = 0;
    assert(texts(more@).take(0) =~= Seq::empty());
    assert(texts(v@) =~= texts(old(v)@) + texts(more@).take(0));
    while i < more.len()
        invariant
            i <= more.len(),
            texts(v@) == texts(old(v)@) + texts(more@).take(i as int),
        decreases more.len() - i,
    {
        push_text(v, more[i].as_str());
        i = i + 1;
        assert(texts(more@).take(i as int) =~= texts(more@).take(i - 1).push(more@[i - 1]@));
        assert(texts(v@) =~= texts(old(v)@) + texts(more@).take(i as int));
    }
    assert(texts(more@).take(i as int) =~= texts(more@));
}

/// The options as arguments.
pub fn default_ssh_opts() -> (v: Vec<String>)
    ensures
        texts(v@) == default_opts(),
        v@.len() == 10,
        forall|i: int| 0 <= i < 5 ==> (#[trigger] v@[2 * i])@ == "-o"@,
        v@[1]@ == "ControlMaster=no"@,
        v@[3]@ == "ControlPath=none"@,
        v@[5]@ == "Compression=no"@,
        v@[7]@ == "ServerAliveInterval=30"@,
        v@[9]@ == "ServerAliveCountMax=6"@,
{
    let mut v: Vec<String> = Vec::new();
    assert(texts(v@) =~= Seq::empty());
    push_text(&mut v, "-o");
    push_text(&mut v, "ControlMaster=no");
    push_text(&mut v, "-o");
    push_text(&mut v, "ControlPath=none");
    push_text(&mut v, "-o");
    push_text(&mut v, "Compression=no");
    push_text(&mut v, "-o");
    push_text(&mut v, "ServerAliveInterval=30");
    push_text(&mut v, "-o");
    push_text(&mut v, "ServerAliveCountMax=6");
    assert(texts(v@) =~= default_opts());
    assert(forall|i: int| 0 <= i < v@.len() ==> texts(v@)[i] == (#[trigger] v@[i])@);
    v
}

/// How the remote host is reached, and what is started there.
pub struct SshCtx {
    pub ssh_bin: String,
    pub remote_bin: String,
    pub host: String,
    pub extra: Vec<String>,
    /// Leave out the default options.
    pub no_defaults: bool,
    pub verbose: u8,
}

impl SshCtx {
    /// The program and its arguments that run `remote_args` on the remote host.
    pub open spec fn argv(self, remote_args: Seq<Seq<char>>) -> Seq<Seq<char>> {
        let opts = if self.no_defaults {
            Seq::empty()
        } else {
            default_opts()
        };
        seq![self.ssh_bin@] + opts + texts(self.extra@) + seq![self.host@, self.remote_bin@]
            + remote_args
    }

    /// The command that runs `remote_args` on the remote host, program first.
    pub fn cmd(&self, remote_args: &Vec<String>) -> (v: Vec<String>)
        ensures
            texts(v@) == self.argv(texts(remote_args@)),
    {
        let mut v: Vec<String> = Vec::new();
        assert(texts(v@) =~= Seq::empty());
        push_text(&mut v, self.ssh_bin.as_str());
        if !self.no_defaults {
            push_texts(&mut v, &default_ssh_opts());
        }
        push_texts(&mut v, &self.extra);
        push_text(&mut v, self.host.as_str());
        push_text(&mut v, self.remote_bin.as_str());
        push_texts(&mut v, remote_args);
        assert(texts(v@) =~= self.argv(texts(remote_args@)));
        v
    }

    /// Commands are shown to the user.
    pub fn shows_commands(&self) -> (b: bool)
        ensures
            b == (self.verbose >= 2),
    {
        self.verbose >= 2
    }
}

/// The arguments for the control process.
pub fn ctrl_args() -> (v: Vec<String>)
    ensures
        texts(v@) == seq!["recv-ctrl"@],
{
    let mut v: Vec<String> = Vec::new();
    assert(texts(v@) =~= Seq::empty());
    push_text(&mut v, "recv-ctrl");
    assert(texts(v@) =~= seq!["recv-ctrl"@]);
    v
}

/// The arguments for the data process of stream `id`.
pub fn data_args(token: &str, id: u32) -> (v: Vec<String>)
    ensures
        texts(v@) == seq!["recv-data"@, "--token"@, token@, "--id"@, dec(id as nat)],
{
    let mut number: String = String::new();
    push_dec(&mut number, id as u64);
    assert(number@ =~= dec(id as nat));
    let mut v: Vec<String> = Vec::new();
    assert(texts(v@) =~= Seq::empty());
    push_text(&mut v, "recv-data");
    push_text(&mut v, "--token");
    push_text(&mut v, token);
    push_text(&mut v, "--id");
    push_text(&mut v, number.as_str());
    assert(texts(v@) =~= seq!["recv-data"@, "--token"@, token@, "--id"@, dec(id as nat)]);
    v
}

/// The character means nothing special to a shell.
pub open spec fn is_safe(c: char) -> bool {
    ||| 'a' <= c <= 'z'
    ||| 'A' <= c <= 'Z'
    ||| '0' <= c <= '9'
    ||| c == '@'
    ||| c == '%'
    ||| c == '+'
    ||| c == '='
    ||| c == ':'
    ||| c == ','
    ||| c == '.'
    ||| c == '/'
    ||| c == '-'
    ||| c == '_'
}

pub open spec fn all_safe(s: Seq<char>) -> bool {
    forall|i: int| 0 <= i < s.len() ==> is_safe(#[trigger] s[i])
}

/// `s` with each single quote closed, escaped and opened again.
pub open spec fn escaped(s: Seq<char>) -> Seq<char>
    decreases s.len(),
{
    if s.len() == 0 {
        Seq::empty()
    } else {
        let c = s.last();
        escaped(s.drop_last()) + if c == '\'' {
            "'\\''"@
        } else {
            seq![c]
        }
    }
}

/// `s` as a word of a shell command.
pub open spec fn shell_word(s: Seq<char>) -> Seq<char> {
    if s.len() > 0 && all_safe(s) {
        s
    } else {
        "'"@ + escaped(s) + "'"@
    }
}

/// What a shell makes of a word, which may be inside single quotes where it
/// starts. `None` where quotes stay open or a character is special.
pub open spec fn shell_reads(q: Seq<char>, quoted: bool) -> Option<Seq<char>>
    decreases q.len(),
{
    if q.len() == 0 {
        if quoted {
            None
        } else {
            Some(Seq::empty())
        }
    } else if q[0] == '\'' {
        shell_reads(q.skip(1), !quoted)
    } else if !quoted && q[0] == '\\' {
        if q.len() < 2 {
            None
        } else {
            match shell_reads(q.skip(2), quoted) {
                None => None,
                Some(w) => Some(seq![q[1]] + w),
            }
        }
    } else if quoted || is_safe(q[0]) {
        match shell_reads(q.skip(1), quoted) {
            None => None,
            Some(w) => Some(seq![q[0]] + w),
        }
    } else {
        None
    }
}

fn safe(c: char) -> (b: bool)
    ensures
        b == is_safe(c),
{
    (c >= 'a' && c <= 'z') || (c >= 'A' && c <= 'Z') || (c >= '0' && c <= '9') || c == '@' || c
        == '%' || c == '+' || c == '=' || c == ':' || c == ',' || c == '.' || c == '/' || c == '-'
        || c == '_'
}

/// `s` as a word of a shell command: as it is, or in single quotes where it is
/// empty or holds a character that is special.
pub fn shell_quote(s: &str) -> (q: String)
    ensures
        q@ == shell_word(s@),
{
    let v: Vec<char> = chars_of(s);
    let n: usize = v.len();
    let mut i: usize = 0;
    while i < n && safe(v[i])
        invariant
            i <= n,
            n == v@.len(),
            forall|j: int| 0 <= j < i ==> is_safe(#[trigger] v@[j]),
        decreases n - i,
    {
        i = i + 1;
    }
    if n > 0 && i == n {
        return s.to_owned();
    }
    assert(!(s@.len() > 0 && all_safe(s@))) by {
        if s@.len() > 0 {
            assert(!is_safe(s@[i as int]));
        }
    }
    let mut q: String = String::new();
    q.append("'");
    let mut k: usize = 0;
    assert(v@.take(0) == Seq::<char>::empty());
    assert(q@ == "'"@ + escaped(v@.take(0)));
    while k < n
        invariant
            k <= n,
            n == v@.len(),
            q@ == "'"@ + escaped(v@.take(k as int)),
        decreases n - k,
    {
        assert(v@.take(k + 1).drop_last() == v@.take(k as int));
        if v[k] == '\'' {
            q.append("'\\''");
        } else {
            q.push(v[k]);
        }
        k = k + 1;
        assert(q@ == "'"@ + escaped(v@.take(k as int)));
    }
    assert(v@.take(k as int) == s@);
    q.append("'");
    assert(q@ == "'"@ + escaped(s@) + "'"@);
    q
}

/// `w`, read after `s`.
spec fn after(s: Seq<char>, w: Option<Seq<char>>) -> Option<Seq<char>> {
    match w {
        None => None,
        Some(w) => Some(s + w),
    }
}

proof fn lemma_escaped_reads(s: Seq<char>, r: Seq<char>)
    ensures
        shell_reads(escaped(s) + r, true) == after(s, shell_reads(r, true)),
    decreases s.len(),
{
    reveal_strlit("'\\''");
    if s.len() == 0 {
        assert(escaped(s) + r == r);
        assert(after(s, shell_reads(r, true)) == shell_reads(r, true)) by {
            if let Some(w) = shell_reads(r, true) {
                assert(s + w == w);
            }
        }
    } else {
        let t = s.drop_last();
        let c = s.last();
        let e = if c == '\'' {
            "'\\''"@
        } else {
            seq![c]
        };
        let er = e + r;
        assert(escaped(s) + r == escaped(t) + er);
        lemma_escaped_reads(t, er);
        assert(shell_reads(er, true) == after(seq![c], shell_reads(r, true))) by {
            if c == '\'' {
                let x = er.skip(1);
                assert(er[0] == '\'');
                assert(x[0] == '\\' && x[1] == '\'');
                let y = x.skip(2);
                assert(y[0] == '\'');
                assert(y.skip(1) == r);
                assert(shell_reads(y, false) == shell_reads(r, true));
                assert(shell_reads(x, false) == after(seq![c], shell_reads(r, true)));
            } else {
                assert(er[0] == c);
                assert(er.skip(1) == r);
            }
        }
        assert(after(t, after(seq![c], shell_reads(r, true))) == after(s, shell_reads(r, true))) by {
            if let Some(w) = shell_reads(r, true) {
                assert(t + (seq![c] + w) == s + w);
            }
        }
    }
}

proof fn lemma_safe_reads(s: Seq<char>)
    requires
        all_safe(s),
    ensures
        shell_reads(s, false) == Some(s),
    decreases s.len(),
{
    if s.len() == 0 {
        assert(s == Seq::<char>::empty());
    } else {
        assert(is_safe(s[0]));
        assert forall|i: int| 0 <= i < s.skip(1).len() implies is_safe(#[trigger] s.skip(1)[i]) by {
            assert(is_safe(s[i + 1]));
        }
        lemma_safe_reads(s.skip(1));
        assert(seq![s[0]] + s.skip(1) == s);
    }
}

/// A shell that reads the quoted word gets back the text.
pub proof fn law_shell_reads_back(s: Seq<char>)
    ensures
        shell_reads(shell_word(s), false) == Some(s),
{
    if s.len() > 0 && all_safe(s) {
        lemma_safe_reads(s);
    } else {
        reveal_strlit("'");
        let q = shell_word(s);
        assert(q[0] == '\'');
        assert(q.skip(1) == escaped(s) + "'"@);
        lemma_escaped_reads(s, "'"@);
        assert("'"@.skip(1) == Seq::<char>::empty());
        assert(shell_reads(Seq::empty(), false) == Some(Seq::<char>::empty()));
        assert(shell_reads("'"@, true) == Some(Seq::<char>::empty()));
        assert(s + Seq::<char>::empty() == s);
    }
}

/// The words of a command, with a blank between each two.
pub open spec fn command_line(argv: Seq<Seq<char>>) -> Seq<char>
    decreases argv.len(),
{
    if argv.len() == 0 {
        Seq::empty()
    } else if argv.len() == 1 {
        shell_word(argv[0])
    } else {
        command_line(argv.drop_last()) + " "@ + shell_word(argv.last())
    }
}

/// The command as a user would type it.
pub fn format_cmd(argv: &Vec<String>) -> (r: String)
    ensures
        r@ == command_line(texts(argv@)),
{
    let ghost all = texts(argv@);
    let mut r: String = String::new();
    let mut i: usize = 0;
    assert(all.take(0) == Seq::<Seq<char>>::empty());
    while i < argv.len()
        invariant
            i <= argv.len(),
            all == texts(argv@),
            r@ == command_line(all.take(i as int)),
        decreases argv.len() - i,
    {
        assert(all.take(i + 1).drop_last() == all.take(i as int));
        assert(all.take(i + 1).last() == argv@[i as int]@);
        assert(i == 0 ==> r@ == Seq::<char>::empty());
        if i > 0 {
            r.append(" ");
        }
        let w: String = shell_quote(argv[i].as_str());
        r.append(w.as_str());
        i = i + 1;
        assert(r@ == command_line(all.take(i as int)));
    }
    assert(all.take(i as int) == all);
    r
}

/// What a user is told when a stream cannot be written to.
pub open spec fn write_err_text(id: u32, cause: Seq<char>) -> Seq<char> {
    "stream "@ + dec(id as nat) + ": ssh write failed ("@ + cause
        + "). sshd may be throttling (MaxStartups / fail2ban); try --stream-delay-ms 300 or lower -n."@
}

/// The message for a stream that cannot be written to.
pub fn ssh_write_err(id: u32, cause: &str) -> (r: String)
    ensures
        r@ == write_err_text(id, cause@),
{
    let mut r: String = String::new();
    r.append("stream ");
    push_dec(&mut r, id as u64);
    r.append(": ssh write failed (");
    r.append(cause);
    r.append(
        "). sshd may be throttling (MaxStartups / fail2ban); try --stream-delay-ms 300 or lower -n.",
    );
    assert(r@ == write_err_text(id, cause@));
    r
}

/// A character that a shell does not take as it is, outside of quotes.
pub open spec fn is_special(c: char) -> bool {
    ||| c == '|' || c == '&' || c == ';' || c == '<' || c == '>' || c == '(' || c == ')'
    ||| c == '$' || c == '`' || c == '\\' || c == '"' || c == '\''
    ||| c == '*' || c == '?' || c == '[' || c == ']' || c == '#' || c == '~' || c == '!'
    ||| c == '{' || c == '}' || c == '^'
    ||| c as int <= 0x20 || c as int >= 0x7f
}

/// What stands outside of quotes holds nothing that is special to a shell; and
/// every other character may stand there.
pub proof fn law_what_needs_no_quotes(c: char)
    ensures
        is_safe(c) <==> !is_special(c),
{
}

/// A word is in single quotes if and only if it is empty or holds a character
/// that is special. In quotes it is itself, but for the single quotes in it.
pub proof fn law_only_special_words_are_quoted(s: Seq<char>)
    ensures
        s.len() > 0 && (forall|i: int| 0 <= i < s.len() ==> !is_special(#[trigger] s[i]))
            ==> shell_word(s) == s,
        s.len() == 0 || (exists|i: int| 0 <= i < s.len() && is_special(#[trigger] s[i])) ==> {
            let q = shell_word(s);
            &&& q.len() >= 2
            &&& q[0] == '\''
            &&& q.last() == '\''
            &&& !s.contains('\'') ==> q.subrange(1, q.len() - 1) == s
        },
{
    reveal_strlit("'");
    if s.len() > 0 && (forall|i: int| 0 <= i < s.len() ==> !is_special(#[trigger] s[i])) {
        assert forall|i: int| 0 <= i < s.len() implies is_safe(#[trigger] s[i]) by {
            law_what_needs_no_quotes(s[i]);
        }
    }
    if s.len() == 0 || (exists|i: int| 0 <= i < s.len() && is_special(#[trigger] s[i])) {
        if s.len() > 0 {
            let i = choose|i: int| 0 <= i < s.len() && is_special(#[trigger] s[i]);
            law_what_needs_no_quotes(s[i]);
            assert(!all_safe(s));
        }
        let q = shell_word(s);
        assert(q == "'"@ + escaped(s) + "'"@);
        if !s.contains('\'') {
            lemma_nothing_to_escape(s);
            assert(q.subrange(1, q.len() - 1) == s);
        }
    }
}

proof fn lemma_nothing_to_escape(s: Seq<char>)
    requires
        !s.contains('\''),
    ensures
        escaped(s) == s,
    decreases s.len(),
{
    if s.len() == 0 {
        assert(s == Seq::<char>::empty());
    } else {
        let t = s.drop_last();
        assert(!t.contains('\'')) by {
            if t.contains('\'') {
                let i = choose|i: int| 0 <= i < t.len() && t[i] == '\'';
                assert(s[i] == '\'');
            }
        }
        assert(s.contains(s.last())) by {
            assert(s[s.len() - 1] == s.last());
        }
        lemma_nothing_to_escape(t);
        assert(t + seq![s.last()] == s);
    }
}

/// A command line is its words, each quoted as it needs, with one blank between
/// each two.
pub proof fn law_command_lines_are_their_words(w: Seq<char>, more: Seq<Seq<char>>)
    ensures
        command_line(Seq::empty()) == Seq::<char>::empty(),
        command_line(seq![w]) == shell_word(w),
        more.len() > 0 ==> command_line(seq![w] + more) == shell_word(w) + seq![' ']
            + command_line(more),
    decreases more.len(),
{
    reveal_strlit(" ");
    assert(" "@ == seq![' ']);
    if more.len() > 0 {
        let all = seq![w] + more;
        let t = more.drop_last();
        assert(all.drop_last() == seq![w] + t);
        assert(all.last() == more.last());
        law_command_lines_are_their_words(w, t);
        if t.len() == 0 {
            assert(all.drop_last() == seq![w]);
            assert(more[0] == more.last());
            assert(command_line(more) == shell_word(more[0]));
            assert(command_line(all) == shell_word(w) + " "@ + shell_word(more.last()));
        } else {
            let (a, b, c) = (shell_word(w), command_line(t), shell_word(more.last()));
            assert(command_line(all) == (a + seq![' '] + b) + " "@ + c);
            assert(command_line(more) == b + " "@ + c);
            assert(command_line(all) == a + seq![' '] + command_line(more));
        }
    }
}

/// A command is the program, the default options unless they are left out, the
/// options of the user, the host, the program there, and its arguments, in this
/// order.
pub proof fn law_commands_have_their_parts_in_order(c: SshCtx, remote_args: Seq<Seq<char>>)
    ensures
        ({
            let v = c.argv(remote_args);
            let d: int = if c.no_defaults {
                0
            } else {
                10
            };
            let x = c.extra@.len() as int;
            &&& v.len() == 3 + d + x + remote_args.len()
            &&& v[0] == c.ssh_bin@
            &&& !c.no_defaults ==> v.subrange(1, 11) == default_opts()
            &&& forall|i: int| 0 <= i < x ==> v[1 + d + i] == (#[trigger] c.extra@[i])@
            &&& v[1 + d + x] == c.host@
            &&& v[2 + d + x] == c.remote_bin@
            &&& v.skip(3 + d + x) == remote_args
        }),
{
    let v = c.argv(remote_args);
    let d: int = if c.no_defaults {
        0
    } else {
        10
    };
    let x = c.extra@.len() as int;
    assert(default_opts().len() == 10);
    assert(!c.no_defaults ==> v.subrange(1, 11) == default_opts());
    assert(v.skip(3 + d + x) == remote_args);
    assert forall|i: int| 0 <= i < x implies v[1 + d + i] == (#[trigger] c.extra@[i])@ by {
        assert(texts(c.extra@)[i] == c.extra@[i]@);
    }
}

/// What is told of a stream that cannot be written to names it and the cause,
/// and what to try.
pub proof fn law_write_errors_are_named(id: u32, cause: Seq<char>)
    ensures
        write_err_text(id, cause) == "stream "@ + dec(id as nat) + ": ssh write failed ("@ + cause
            + "). sshd may be throttling (MaxStartups / fail2ban); try --stream-delay-ms 300 or lower -n."@,
{
}

} // verus!
