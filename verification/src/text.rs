//! Numbers as text: the decimal and hexadecimal digits that messages are made of.

use vstd::arithmetic::power::pow;
use vstd::prelude::*;

verus! {

/// The digit `d` of a base up to sixteen, in lower case.
pub open spec fn digit(d: int) -> char {
    if d < 10 {
        ('0' as int + d) as char
    } else {
        ('a' as int + (d - 10)) as char
    }
}

/// `n` in decimal, without leading zeros.
pub open spec fn dec(n: nat) -> Seq<char>
    decreases n,
{
    if n < 10 {
        seq![digit(n as int)]
    } else {
        dec(n / 10).push(digit((n % 10) as int))
    }
}

/// The lowest `width` hexadecimal digits of `n`, most significant first.
pub open spec fn hex(n: nat, width: nat) -> Seq<char>
    decreases width,
{
    if width == 0 {
        Seq::empty()
    } else {
        hex(n / 16, (width - 1) as nat).push(digit((n % 16) as int))
    }
}

/// The text of one digit.
pub fn digit_text(d: u8) -> (r: &'static str)
    requires
        d < 16,
    ensures
        r@ == seq![digit(d as int)],
{
    proof {
        reveal_strlit("0");
        reveal_strlit("1");
        reveal_strlit("2");
        reveal_strlit("3");
        reveal_strlit("4");
        reveal_strlit("5");
        reveal_strlit("6");
        reveal_strlit("7");
        reveal_strlit("8");
        reveal_strlit("9");
        reveal_strlit("a");
        reveal_strlit("b");
        reveal_strlit("c");
        reveal_strlit("d");
        reveal_strlit("e");
        reveal_strlit("f");
    }
    match d {
        0 => "0",
        1 => "1",
        2 => "2",
        3 => "3",
        4 => "4",
        5 => "5",
        6 => "6",
        7 => "7",
        8 => "8",
        9 => "9",
        10 => "a",
        11 => "b",
        12 => "c",
        13 => "d",
        14 => "e",
        _ => "f",
    }
}

/// Appends `n` in decimal.
pub fn push_dec(out: &mut String, n: u64)
    ensures
        final(out)@ == old(out)@ + dec(n as nat),
    decreases n,
{
    if n >= 10 {
        push_dec(out, n / 10);
    }
    let d: u8 = (n % 10) as u8;
    out.append(digit_text(d));
}

/// Appends the lowest `width` hexadecimal digits of `n`.
pub fn push_hex(out: &mut String, n: u32, width: u32)
    ensures
        final(out)@ == old(out)@ + hex(n as nat, width as nat),
    decreases width,
{
    if width > 0 {
        push_hex(out, n / 16, width - 1);
        let d: u8 = (n % 16) as u8;
        out.append(digit_text(d));
    }
}

/// The two strings have the same characters.
pub fn str_eq(a: &str, b: &str) -> (r: bool)
    ensures
        r == (a@ == b@),
{
    a.to_owned() == b.to_owned()
}

/// `String::push` of the standard library, which appends one character.
pub assume_specification[ String::push ](s: &mut String, ch: char)
    ensures
        final(s)@ == old(s)@.push(ch),
;

/// `s` as the `Debug` formatting of the standard library shows it: in double
/// quotes, with what needs it escaped.
pub uninterp spec fn quoted_of(s: Seq<char>) -> Seq<char>;

/// Formats `s` with `{:?}`, that is with the `Debug` of `str` of the standard
/// library. The result depends on the text alone; how each character is
/// escaped is left unsaid.
#[verifier::external_body]
pub(crate) fn quoted(s: &str) -> (r: String)
    ensures
        r@ == quoted_of(s@),
{
    format!("{:?}", s)
}

/// The characters of a string.
pub fn chars_of(s: &str) -> (v: Vec<char>)
    ensures
        v@ == s@,
{
    let mut v: Vec<char> = Vec::new();
    for c in it: s.chars()
        invariant
            v@ == it.seq().take(it.index() as int),
            it.seq() == s@,
    {
        v.push(c);
        assert(it.seq().take(it.index() as int + 1) == it.seq().take(it.index() as int).push(c));
    }
    assert(s@.take(s@.len() as int) == s@);
    v
}

/// The string of the characters from `from` to `to`.
pub fn text_from(v: &Vec<char>, from: usize, to: usize) -> (s: String)
    requires
        from <= to <= v@.len(),
    ensures
        s@ == v@.subrange(from as int, to as int),
{
    let mut s: String = String::new();
    let mut i: usize = from;
    while i < to
        invariant
            from <= i <= to <= v@.len(),
            s@ == v@.subrange(from as int, i as int),
        decreases to - i,
    {
        s.push(v[i]);
        i = i + 1;
        assert(v@.subrange(from as int, i as int) == v@.subrange(from as int, i - 1).push(
            v@[i - 1],
        ));
    }
    s
}

/// White space, as Unicode has it.
pub open spec fn is_space(c: char) -> bool {
    let x = c as int;
    ||| 0x9 <= x <= 0xd
    ||| x == 0x20
    ||| x == 0x85
    ||| x == 0xa0
    ||| x == 0x1680
    ||| 0x2000 <= x <= 0x200a
    ||| x == 0x2028
    ||| x == 0x2029
    ||| x == 0x202f
    ||| x == 0x205f
    ||| x == 0x3000
}

/// `s` without the white space before it.
pub open spec fn trim_start(s: Seq<char>) -> Seq<char>
    decreases s.len(),
{
    if s.len() > 0 && is_space(s[0]) {
        trim_start(s.skip(1))
    } else {
        s
    }
}

/// `s` without the white space behind it.
pub open spec fn trim_end(s: Seq<char>) -> Seq<char>
    decreases s.len(),
{
    if s.len() > 0 && is_space(s.last()) {
        trim_end(s.drop_last())
    } else {
        s
    }
}

/// `s` without the white space around it.
pub open spec fn trim(s: Seq<char>) -> Seq<char> {
    trim_end(trim_start(s))
}

/// The character is white space.
pub fn space(c: char) -> (b: bool)
    ensures
        b == is_space(c),
{
    let x: u32 = c as u32;
    (x >= 0x9 && x <= 0xd) || x == 0x20 || x == 0x85 || x == 0xa0 || x == 0x1680 || (x >= 0x2000
        && x <= 0x200a) || x == 0x2028 || x == 0x2029 || x == 0x202f || x == 0x205f || x == 0x3000
}

/// Where the part of `v` from `from` to `to` starts after its white space.
pub fn skip_spaces(v: &Vec<char>, from: usize, to: usize) -> (i: usize)
    requires
        from <= to <= v@.len(),
    ensures
        from <= i <= to,
        v@.subrange(i as int, to as int) == trim_start(v@.subrange(from as int, to as int)),
        forall|k: int| from <= k < i ==> is_space(#[trigger] v@[k]),
        i < to ==> !is_space(v@[i as int]),
{
    let mut i: usize = from;
    while i < to && space(v[i])
        invariant
            from <= i <= to <= v@.len(),
            forall|k: int| from <= k < i ==> is_space(#[trigger] v@[k]),
            trim_start(v@.subrange(i as int, to as int)) == trim_start(
                v@.subrange(from as int, to as int),
            ),
        decreases to - i,
    {
        assert(v@.subrange(i as int, to as int).skip(1) == v@.subrange(i + 1, to as int));
        i = i + 1;
    }
    i
}

/// Where the part of `v` from `from` to `to` ends before its white space.
pub fn drop_spaces(v: &Vec<char>, from: usize, to: usize) -> (j: usize)
    requires
        from <= to <= v@.len(),
    ensures
        from <= j <= to,
        v@.subrange(from as int, j as int) == trim_end(v@.subrange(from as int, to as int)),
        forall|k: int| j <= k < to ==> is_space(#[trigger] v@[k]),
        from < j ==> !is_space(v@[j - 1]),
{
    let mut j: usize = to;
    while j > from && space(v[j - 1])
        invariant
            from <= j <= to <= v@.len(),
            forall|k: int| j <= k < to ==> is_space(#[trigger] v@[k]),
            trim_end(v@.subrange(from as int, j as int)) == trim_end(
                v@.subrange(from as int, to as int),
            ),
        decreases j,
    {
        assert(v@.subrange(from as int, j as int).drop_last() == v@.subrange(from as int, j - 1));
        j = j - 1;
    }
    j
}

/// An ASCII letter in lower case; any other character as it is.
pub open spec fn lower(c: char) -> char {
    if 'A' <= c <= 'Z' {
        (c as int + 32) as char
    } else {
        c
    }
}

/// `s` with its ASCII letters in lower case.
pub open spec fn lowered(s: Seq<char>) -> Seq<char> {
    s.map_values(|c: char| lower(c))
}

/// The character in lower case, if it is an ASCII letter.
pub fn to_lower(c: char) -> (r: char)
    ensures
        r == lower(c),
        'A' <= c <= 'Z' ==> r as int == c as int + 32,
        !('A' <= c <= 'Z') ==> r == c,
{
    if c >= 'A' && c <= 'Z' {
        (c as u8 + 32) as char
    } else {
        c
    }
}

// -------------------------------------------------------------- read back

/// What a digit of a base up to sixteen counts.
pub open spec fn digit_value(c: char) -> int {
    if '0' <= c <= '9' {
        c as int - '0' as int
    } else {
        10 + (c as int - 'a' as int)
    }
}

/// The number that digits in this base stand for.
pub open spec fn read_back(s: Seq<char>, base: int) -> int
    decreases s.len(),
{
    if s.len() == 0 {
        0
    } else {
        base * read_back(s.drop_last(), base) + digit_value(s.last())
    }
}

/// A number in decimal is made of decimal digits, has no leading zero, and
/// reads back as the number.
pub proof fn law_decimals_read_back(n: nat)
    ensures
        dec(n).len() > 0,
        forall|i: int| 0 <= i < dec(n).len() ==> '0' <= #[trigger] dec(n)[i] <= '9',
        dec(n)[0] == '0' ==> n == 0 && dec(n).len() == 1,
        read_back(dec(n), 10) == n,
    decreases n,
{
    let s = dec(n);
    if n < 10 {
        assert(s.drop_last() == Seq::<char>::empty());
        assert(read_back(s.drop_last(), 10) == 0);
        assert(read_back(s, 10) == 10 * read_back(s.drop_last(), 10) + digit_value(s.last()));
    } else {
        law_decimals_read_back(n / 10);
        assert(s.drop_last() == dec(n / 10));
        assert(s[0] == dec(n / 10)[0]);
        assert(s.last() == digit((n % 10) as int));
    }
}

/// A number in hexadecimal has as many digits as it was given, each a digit or
/// a letter from `a` to `f`, and reads back as the number, if it fits.
pub proof fn law_hexadecimals_read_back(n: nat, width: nat)
    ensures
        hex(n, width).len() == width,
        forall|i: int|
            0 <= i < width ==> '0' <= #[trigger] hex(n, width)[i] <= '9' || 'a' <= hex(
                n,
                width,
            )[i] <= 'f',
        n < pow(16, width) ==> read_back(hex(n, width), 16) == n,
    decreases width,
{
    reveal(pow);
    let s = hex(n, width);
    if width > 0 {
        let w = (width - 1) as nat;
        law_hexadecimals_read_back(n / 16, w);
        assert(s.drop_last() == hex(n / 16, w));
        assert(s.last() == digit((n % 16) as int));
        assert(pow(16, width) == 16 * pow(16, w));
        if n < pow(16, width) {
            assert(n / 16 < pow(16, w));
        }
    }
}

/// Eight digits are enough for 32 bits.
pub proof fn law_eight_digits_hold_a_crc(n: u32)
    ensures
        hex(n as nat, 8).len() == 8,
        read_back(hex(n as nat, 8), 16) == n,
{
    assert(pow(16, 8) == 0x1_0000_0000) by {
        reveal(pow);
        reveal_with_fuel(pow, 9);
    }
    law_hexadecimals_read_back(n as nat, 8);
}

/// No printable ASCII character is white space; blanks, tabs and the ends of
/// lines are.
pub proof fn law_what_is_space(c: char)
    ensures
        0x21 <= c as int <= 0x7e ==> !is_space(c),
        c == ' ' || c == '\t' || c == '\n' || c == '\r' ==> is_space(c),
        (c as int) < 0x80 ==> (is_space(c) <==> 9 <= c as int <= 13 || c as int == 32),
        c as int >= 0x80 ==> (is_space(c) <==> c as int == 0x85 || c as int == 0xa0 || c as int
            == 0x1680 || 0x2000 <= c as int <= 0x200a || c as int == 0x2028 || c as int == 0x2029
            || c as int == 0x202f || c as int == 0x205f || c as int == 0x3000),
{
}

proof fn lemma_trim_start(s: Seq<char>) -> (k: int)
    ensures
        0 <= k <= s.len(),
        trim_start(s) == s.skip(k),
        forall|i: int| 0 <= i < k ==> is_space(#[trigger] s[i]),
        k < s.len() ==> !is_space(s[k]),
    decreases s.len(),
{
    if s.len() > 0 && is_space(s[0]) {
        let k = lemma_trim_start(s.skip(1));
        assert(s.skip(1).skip(k) == s.skip(k + 1));
        assert forall|i: int| 0 <= i < k + 1 implies is_space(#[trigger] s[i]) by {
            assert(i > 0 ==> s[i] == s.skip(1)[i - 1]);
        }
        assert(k < s.len() - 1 ==> s.skip(1)[k] == s[k + 1]);
        k + 1
    } else {
        assert(s.skip(0) == s);
        0
    }
}

proof fn lemma_trim_end(s: Seq<char>) -> (k: int)
    ensures
        0 <= k <= s.len(),
        trim_end(s) == s.take(k),
        forall|i: int| k <= i < s.len() ==> is_space(#[trigger] s[i]),
        k > 0 ==> !is_space(s[k - 1]),
    decreases s.len(),
{
    if s.len() > 0 && is_space(s.last()) {
        let t = s.drop_last();
        let k = lemma_trim_end(t);
        assert(t.take(k) == s.take(k));
        assert forall|i: int| k <= i < s.len() implies is_space(#[trigger] s[i]) by {
            assert(i < s.len() - 1 ==> s[i] == t[i]);
        }
        assert(k > 0 ==> t[k - 1] == s[k - 1]);
        k
    } else {
        assert(s.take(s.len() as int) == s);
        s.len() as int
    }
}

/// To trim is to take off white space, all of it and nothing else: what is left
/// is a part of the text with nothing but white space before and behind it, and
/// none at its ends.
pub proof fn law_trimming_takes_off_white_space(s: Seq<char>)
    ensures
        exists|i: int, j: int|
            {
                &&& 0 <= i <= j <= s.len()
                &&& trim(s) == #[trigger] s.subrange(i, j)
                &&& forall|k: int| 0 <= k < i || j <= k < s.len() ==> is_space(#[trigger] s[k])
            },
        trim(s).len() > 0 ==> !is_space(trim(s)[0]) && !is_space(trim(s).last()),
{
    let i = lemma_trim_start(s);
    let t = s.skip(i);
    let n = lemma_trim_end(t);
    assert(t.take(n) == s.subrange(i, i + n));
    assert forall|k: int| 0 <= k < i || i + n <= k < s.len() implies is_space(
        #[trigger] s[k],
    ) by {
        assert(k >= i ==> s[k] == t[k - i]);
    }
    assert(n > 0 ==> t[0] == s[i]);
}

/// Where nothing is to be taken off, trimming leaves a text as it is.
pub proof fn law_trimmed_text_stays(s: Seq<char>)
    requires
        s.len() > 0 ==> !is_space(s[0]) && !is_space(s.last()),
    ensures
        trim(s) == s,
        trim_start(s) == s,
        trim_end(s) == s,
{
}

/// Only ASCII capitals change, and only to the letter that they are.
pub proof fn law_lower_case(c: char)
    ensures
        'A' <= c <= 'Z' ==> 'a' <= lower(c) <= 'z' && lower(c) as int - 'a' as int == c as int
            - 'A' as int,
        !('A' <= c <= 'Z') ==> lower(c) == c,
{
}

} // verus!
