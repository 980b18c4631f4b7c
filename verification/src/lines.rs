//! The lines that carry messages, and the name of the socket on which the
//! processes of the receiver meet.

use crate::text::{chars_of, drop_spaces, text_from, trim_end};
use vstd::prelude::*;

verus! {

/// Nothing came: the input is at its end.
#[derive(Debug, PartialEq, Eq, Structural, Clone, Copy)]
pub struct UnexpectedEof;

impl UnexpectedEof {
    /// What a user is told.
    pub fn text(&self) -> (s: &'static str)
        ensures
            s@ == "unexpected EOF"@,
    {
        "unexpected EOF"
    }
}

/// `s` as a line.
pub open spec fn line(s: Seq<char>) -> Seq<char> {
    s + "\n"@
}

/// The first line of `input`, with its line feed, or all of it if there is no
/// line feed.
pub open spec fn first_line(input: Seq<char>) -> Seq<char>
    decreases input.len(),
{
    if input.len() == 0 {
        input
    } else if input[0] == '\n' {
        input.take(1)
    } else {
        seq![input[0]] + first_line(input.skip(1))
    }
}

/// What a line says: all but the line feed at its end, and a carriage return
/// before that.
pub open spec fn line_text(raw: Seq<char>) -> Seq<char> {
    if raw.len() > 0 && raw.last() == '\n' {
        let s = raw.drop_last();
        if s.len() > 0 && s.last() == '\r' {
            s.drop_last()
        } else {
            s
        }
    } else {
        raw
    }
}

/// Appends `s` to `w`, as a line.
pub fn write_line(w: &mut String, s: &str)
    ensures
        final(w)@ == old(w)@ + line(s@),
        final(w)@ == (old(w)@ + s@).push('\n'),
{
    w.append(s);
    w.append("\n");
    proof {
        reveal_strlit("\n");
    }
    assert(w@ == (old(w)@ + s@).push('\n'));
    assert(w@ == old(w)@ + line(s@));
}

/// What a line that was read says. The line comes with its line feed, where
/// it has one, and is empty at the end of the input.
pub fn read_line(raw: &str) -> (r: Result<String, UnexpectedEof>)
    ensures
        match r {
            Err(_) => raw@.len() == 0,
            Ok(s) => raw@.len() > 0 && s@ == line_text(raw@),
        },
        r is Err <==> raw@.len() == 0,
        r is Ok ==> {
            let s = r->Ok_0@;
            ||| raw@ == s && raw@.last() != '\n'
            ||| raw@ == s.push('\n') && (s.len() > 0 ==> s.last() != '\r')
            ||| raw@ == s.push('\r').push('\n')
        },
{
    let v: Vec<char> = chars_of(raw);
    let n: usize = v.len();
    if n == 0 {
        return Err(UnexpectedEof);
    }
    let end: usize = if v[n - 1] == '\n' {
        if n > 1 && v[n - 2] == '\r' {
            n - 2
        } else {
            n - 1
        }
    } else {
        n
    };
    assert(v@.subrange(0, end as int) == line_text(raw@));
    proof {
        let s = v@.subrange(0, end as int);
        if end == n - 1 {
            assert(raw@ == s.push('\n'));
        } else if end == n - 2 {
            assert(raw@ == s.push('\r').push('\n'));
        } else {
            assert(raw@ == s);
        }
    }
    Ok(text_from(&v, 0, end))
}

/// The message in a line of the control channel: the line without the white
/// space behind it. `None` at the end of the input.
pub fn ctrl_line(raw: &str) -> (r: Option<String>)
    ensures
        match r {
            None => raw@.len() == 0,
            Some(s) => raw@.len() > 0 && s@ == trim_end(raw@),
        },
{
    let v: Vec<char> = chars_of(raw);
    if v.len() == 0 {
        return None;
    }
    assert(v@.subrange(0, v@.len() as int) == raw@);
    let end: usize = drop_spaces(&v, 0, v.len());
    Some(text_from(&v, 0, end))
}

/// The name of the socket for a transfer.
pub open spec fn socket_name(token: Seq<char>) -> Seq<char> {
    "dd-ng."@ + token + ".sock"@
}

/// The name of the socket for the transfer with this token.
pub fn rendezvous_socket_name(token: &str) -> (name: String)
    ensures
        name@ == socket_name(token@),
{
    let mut name: String = String::new();
    name.append("dd-ng.");
    name.append(token);
    name.append(".sock");
    assert(name@ == socket_name(token@));
    name
}

/// Where sockets are if no directory is set for them.
pub const DEFAULT_DIR: &'static str = "/tmp";

/// `name` in the directory `dir`.
pub open spec fn in_dir(dir: Seq<char>, name: Seq<char>) -> Seq<char> {
    if dir.len() == 0 || dir.last() == '/' {
        dir + name
    } else {
        dir.push('/') + name
    }
}

/// The path of the socket for a transfer. `runtime_dir` is the directory that
/// is set for such files, if one is.
pub open spec fn socket_path(runtime_dir: Option<Seq<char>>, token: Seq<char>) -> Seq<char> {
    let dir = match runtime_dir {
        Some(dir) => dir,
        None => DEFAULT_DIR@,
    };
    in_dir(dir, socket_name(token))
}

/// The path of the socket for the transfer with this token. `runtime_dir` is
/// the value of `XDG_RUNTIME_DIR`, where that is set.
pub fn rendezvous_socket_path(runtime_dir: Option<&str>, token: &str) -> (path: String)
    ensures
        path@ == socket_path(
            match runtime_dir {
                Some(dir) => Some(dir@),
                None => None,
            },
            token@,
        ),
{
    let dir: &str = match runtime_dir {
        Some(dir) => dir,
        None => DEFAULT_DIR,
    };
    let v: Vec<char> = chars_of(dir);
    let mut path: String = dir.to_owned();
    if v.len() > 0 && v[v.len() - 1] != '/' {
        path.push('/');
    }
    let name: String = rendezvous_socket_name(token);
    path.append(name.as_str());
    assert(path@ == in_dir(dir@, socket_name(token@)));
    path
}

proof fn lemma_first_line(s: Seq<char>, rest: Seq<char>)
    requires
        !s.contains('\n'),
    ensures
        first_line(s.push('\n') + rest) == s.push('\n'),
    decreases s.len(),
{
    let all = s.push('\n') + rest;
    if s.len() == 0 {
        assert(all[0] == '\n');
        assert(all.take(1) == s.push('\n'));
    } else {
        assert(s.contains(s[0]));
        assert(all[0] == s[0]);
        let t = s.skip(1);
        assert(!t.contains('\n')) by {
            if t.contains('\n') {
                let i = choose|i: int| 0 <= i < t.len() && t[i] == '\n';
                assert(s[i + 1] == '\n');
            }
        }
        assert(all.skip(1) == t.push('\n') + rest);
        lemma_first_line(t, rest);
        assert(seq![s[0]] + t.push('\n') == s.push('\n'));
    }
}

/// What is written as a line is read back, whatever follows it, if it holds no
/// line feed and does not end in a carriage return.
pub proof fn law_lines_are_read_back(s: Seq<char>, rest: Seq<char>)
    requires
        !s.contains('\n'),
        s.len() > 0 ==> s.last() != '\r',
    ensures
        first_line(line(s) + rest) == line(s),
        line_text(first_line(line(s) + rest)) == s,
        (line(s) + rest).skip(first_line(line(s) + rest).len() as int) == rest,
{
    reveal_strlit("\n");
    assert(line(s) == s.push('\n'));
    lemma_first_line(s, rest);
    assert(s.push('\n').drop_last() == s);
    assert((line(s) + rest).skip(line(s).len() as int) == rest);
}

/// A message that does not end in white space is what the control channel makes
/// of its line.
pub proof fn law_ctrl_lines_are_read_back(s: Seq<char>)
    requires
        s.len() > 0 ==> !crate::text::is_space(s.last()),
    ensures
        trim_end(line(s)) == s,
{
    reveal_strlit("\n");
    assert(line(s).drop_last() == s);
    assert(line(s).last() == '\n');
    assert(trim_end(line(s)) == trim_end(s));
}

/// In one directory, transfers meet on the same socket if and only if they
/// have the same token.
pub proof fn law_sockets_are_distinct(runtime_dir: Option<Seq<char>>, a: Seq<char>, b: Seq<char>)
    ensures
        socket_path(runtime_dir, a) == socket_path(runtime_dir, b) <==> a == b,
        socket_name(a) == socket_name(b) <==> a == b,
{
    reveal_strlit("dd-ng.");
    reveal_strlit(".sock");
    let (na, nb) = (socket_name(a), socket_name(b));
    assert(na.subrange(6, 6 + a.len() as int) == a);
    assert(nb.subrange(6, 6 + b.len() as int) == b);
    let (pa, pb) = (socket_path(runtime_dir, a), socket_path(runtime_dir, b));
    assert(pa.skip(pa.len() - na.len()) == na);
    assert(pb.skip(pb.len() - nb.len()) == nb);
    if pa == pb {
        assert(na.len() == nb.len());
    }
}

/// Without a directory of its own, a transfer meets under the default one.
pub proof fn law_sockets_have_a_default(token: Seq<char>)
    ensures
        socket_path(None, token) == "/tmp/"@ + socket_name(token),
{
    reveal_strlit("/tmp");
    reveal_strlit("/tmp/");
    assert("/tmp"@.push('/') == "/tmp/"@);
    assert("/tmp"@.last() == 'p');
}

/// What a line says is the line without its end: a line feed, or a carriage
/// return and a line feed. Nothing else is taken off.
pub proof fn law_line_ends_are_taken_off(s: Seq<char>)
    ensures
        s.len() == 0 || s.last() != '\r' ==> line_text(s.push('\n')) == s,
        line_text(s.push('\r').push('\n')) == s,
        s.len() == 0 || s.last() != '\n' ==> line_text(s) == s,
        line(s) == s.push('\n'),
{
    reveal_strlit("\n");
    assert(s.push('\n').drop_last() == s);
    assert(s.push('\r').push('\n').drop_last() == s.push('\r'));
    assert(s.push('\r').drop_last() == s);
}

/// The first line of an input is a start of it, holds no line feed but at its
/// end, and has one there unless the input ends without one.
pub proof fn law_first_line_is_the_first(input: Seq<char>)
    ensures
        first_line(input).len() <= input.len(),
        first_line(input) == input.take(first_line(input).len() as int),
        forall|i: int| 0 <= i < first_line(input).len() - 1 ==> #[trigger] input[i] != '\n',
        input.len() > 0 ==> first_line(input).len() > 0,
        first_line(input).len() < input.len() ==> first_line(input).last() == '\n',
    decreases input.len(),
{
    let f = first_line(input);
    if input.len() == 0 || input[0] == '\n' {
        assert(f == input.take(f.len() as int));
    } else {
        let rest = input.skip(1);
        let g = first_line(rest);
        law_first_line_is_the_first(rest);
        assert(f == seq![input[0]] + g);
        assert(f == input.take(f.len() as int)) by {
            assert forall|i: int| 0 <= i < f.len() implies f[i] == input[i] by {
                if i > 0 {
                    assert(g[i - 1] == rest.take(g.len() as int)[i - 1]);
                    assert(rest[i - 1] == input[i]);
                }
            }
        }
        assert forall|i: int| 0 <= i < f.len() - 1 implies #[trigger] input[i] != '\n' by {
            if i > 0 {
                assert(rest[i - 1] == input[i]);
            }
        }
    }
}

/// A transfer meets in the directory that is set, under a name that holds its
/// token.
pub proof fn law_sockets_lie_in_their_directory(dir: Seq<char>, token: Seq<char>)
    ensures
        socket_name(token) == "dd-ng."@ + token + ".sock"@,
        dir.len() > 0 && dir.last() != '/' ==> socket_path(Some(dir), token) == dir + "/"@
            + socket_name(token),
        dir.len() > 0 && dir.last() == '/' ==> socket_path(Some(dir), token) == dir + socket_name(
            token,
        ),
        dir.len() == 0 ==> socket_path(Some(dir), token) == socket_name(token),
{
    reveal_strlit("/");
    assert(dir.push('/') == dir + "/"@);
    assert(dir.len() == 0 ==> dir + socket_name(token) == socket_name(token));
}

} // verus!
