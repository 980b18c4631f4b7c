//! Sizes as users write them: a decimal number and a unit, such as `4M` or
//! `1.5GiB`.
//!
//! A whole number of units is exact. A number with a point is read with the
//! precision of a double, and so is its product with the unit.

use crate::big::Big;
use crate::double::{
    big_from, doubled, down, in_reach, law_rounding_is_close, lemma_has_exponent,
    lemma_nearest_large, lemma_nearest_small, lemma_power_order, lemma_up_down_pos,
    lemma_within_scaled, lemma_within_twice, nearest, round, up, Double, Frac,
    MANTISSA_END, MANTISSA_MIN, REACH,
};
use crate::text::{
    chars_of, dec, digit, drop_spaces, is_space, lower, lowered, quoted, quoted_of,
    read_back, skip_spaces, text_from, to_lower, trim, trim_end, trim_start,
};
use vstd::arithmetic::power::pow;
use vstd::arithmetic::power2::{
    lemma2_to64, lemma2_to64_rest, lemma_pow2_adds, lemma_pow2_pos, lemma_pow2_strictly_increases,
    lemma_pow2_unfold, pow2,
};
use vstd::prelude::*;

verus! {

/// `base^power`.
pub open spec fn unit_bytes(base: nat, power: nat) -> nat
    decreases power,
{
    if power == 0 {
        1
    } else {
        unit_bytes(base, (power - 1) as nat) * base
    }
}

/// The number is not beyond the range of a double.
pub open spec fn finite(x: Frac) -> bool {
    nearest(x).num < nearest(x).den * pow2(1024)
}

/// The whole bytes in `x` units of `unit` bytes. `None` if they are more than
/// `2^64`. `2^64` itself, which is where the numbers just below it are rounded
/// to, counts as the largest size there is.
pub open spec fn whole_bytes(x: Frac, unit: nat) -> Option<u64> {
    multiplied(nearest(x), unit)
}

/// The same for a number `v` that is rounded already.
pub open spec fn multiplied(v: Frac, unit: nat) -> Option<u64> {
    let b = nearest(Frac { num: v.num * unit, den: v.den });
    if b.num > b.den * pow2(64) {
        None
    } else if b.num / b.den > u64::MAX {
        Some(u64::MAX)
    } else {
        Some((b.num / b.den) as u64)
    }
}

/// A number, after its first rounding.
enum Number {
    /// Beyond the range of a double.
    Huge,
    /// Zero, or so small that no unit makes a byte of it.
    Tiny,
    Rounded(Double),
}

spec fn negligible(x: Frac) -> bool {
    x.num == 0 || x.num * pow2(REACH as nat) < x.den
}

/// Rounds `n / d`.
fn read_number(n: &Big, d: &Big) -> (r: Number)
    requires
        d.value() > 0,
    ensures
        ({
            let x = Frac { num: n.value(), den: d.value() };
            match r {
                Number::Huge => !finite(x),
                Number::Tiny => finite(x) && negligible(x),
                Number::Rounded(v) => {
                    &&& finite(x)
                    &&& v.frac() == nearest(x)
                    &&& MANTISSA_MIN <= v.mantissa <= MANTISSA_END
                    &&& -1152 <= v.exponent <= 971
                },
            }
        }),
{
    let ghost x = Frac { num: n.value(), den: d.value() };
    let zero: Big = Big::zero();
    proof {
        lemma_pow2_pos(1024);
    }
    if !zero.less(n) {
        assert(1 * pow2(1024) > 0);
        return Number::Tiny;
    }
    let top: Big = doubled(d, 1024);
    if !n.less(&top) {
        proof {
            lemma_nearest_large(x);
        }
        return Number::Huge;
    }
    let raised: Big = doubled(n, REACH);
    if raised.less(d) {
        proof {
            lemma_nearest_small(x, REACH as nat);
            lemma_power_order(1, 64, (REACH + 52) as nat);
            lemma2_to64_rest();
            let (a, p) = (nearest(x).den as int, pow2(1024) as int);
            assert(a * p >= a) by (nonlinear_arith)
                requires
                    a > 0,
                    p >= 1,
            ;
        }
        return Number::Tiny;
    }
    proof {
        lemma_power_order(x.den as int, 1024, REACH as nat);
    }
    let v: Double = round(n, d);
    proof {
        lemma2_to64_rest();
        lemma_up_down_pos(v.exponent as int);
        let (m, u, w) = (
            v.mantissa as int,
            up(v.exponent as int) as int,
            down(v.exponent as int) as int,
        );
        let p = pow2(1024) as int;
        assert(p <= w * p) by (nonlinear_arith)
            requires
                w >= 1,
                p > 0,
        ;
        lemma_pow2_adds(971, 53);
        lemma_pow2_adds(972, 52);
        if v.exponent >= 972 {
            lemma_power_order(1, 972, v.exponent as nat);
            assert(m * u >= pow2(52) * pow2(972)) by (nonlinear_arith)
                requires
                    m >= pow2(52),
                    u >= pow2(972),
            ;
            assert(w * p == p) by (nonlinear_arith)
                requires
                    w == 1,
            ;
        } else if v.exponent == 971 {
            assert(w * p == p) by (nonlinear_arith)
                requires
                    w == 1,
            ;
            if m < MANTISSA_END {
                assert(m * u < pow2(53) * u) by (nonlinear_arith)
                    requires
                        m < pow2(53),
                        u > 0,
                ;
            }
            assert(m == MANTISSA_END ==> m * u == pow2(53) * u);
            assert(pow2(53) * u == p) by (nonlinear_arith)
                requires
                    u * pow2(53) == p,
            ;
        } else {
            if v.exponent >= 0 {
                lemma_power_order(1, v.exponent as nat, 970);
            } else {
                lemma_power_order(1, 0, 970);
            }
            lemma2_to64();
            lemma_pow2_unfold(971);
            lemma_pow2_pos(970);
            assert(m * u < p) by (nonlinear_arith)
                requires
                    0 < m <= pow2(53),
                    0 < u <= pow2(970),
                    pow2(971) == 2 * pow2(970),
                    pow2(971) * pow2(53) == p,
                    pow2(970) > 0,
            {
                assert(m * u <= pow2(53) * pow2(970));
                assert((2 * pow2(970)) * pow2(53) == 2 * (pow2(970) * pow2(53)));
                assert(pow2(970) * pow2(53) > 0);
            }
        }
    }
    if v.exponent >= 972 || (v.exponent == 971 && v.mantissa == MANTISSA_END) {
        return Number::Huge;
    }
    Number::Rounded(v)
}

proof fn lemma_unit_bytes(base: nat, power: nat)
    requires
        1 <= base <= 1024,
    ensures
        1 <= unit_bytes(base, power) <= pow2(10 * power),
    decreases power,
{
    lemma2_to64();
    if power > 0 {
        let k = (power - 1) as nat;
        lemma_unit_bytes(base, k);
        lemma_pow2_adds(10 * k, 10);
        let (u, b, p) = (unit_bytes(base, k) as int, base as int, pow2(10 * k) as int);
        assert(1 <= u * b <= p * 1024) by (nonlinear_arith)
            requires
                1 <= u <= p,
                1 <= b <= 1024,
        ;
    }
}

/// What is negligible makes no whole byte.
proof fn lemma_negligible(x: Frac, unit: nat)
    requires
        x.den > 0,
        negligible(x),
        1 <= unit <= pow2(50),
    ensures
        whole_bytes(x, unit) == Some(0u64),
{
    let v = nearest(x);
    let y = Frac { num: v.num * unit, den: v.den };
    let b = nearest(y);
    lemma2_to64();
    lemma2_to64_rest();
    if x.num == 0 {
        assert(0 * unit == 0);
        assert(b.num == 0 && b.den == 1);
    } else {
        lemma_nearest_small(x, REACH as nat);
        let (n, u) = (v.num as int, unit as int);
        assert(0 < n * u <= pow2(53) * pow2(50)) by (nonlinear_arith)
            requires
                0 < n <= pow2(53),
                0 < u <= pow2(50),
        ;
        lemma_pow2_adds(53, 50);
        lemma_pow2_adds(103, 64);
        lemma_power_order(1, 167, (REACH + 52) as nat);
        assert((n * u) * pow2(64) <= pow2(103) * pow2(64)) by (nonlinear_arith)
            requires
                n * u <= pow2(103),
                pow2(64) > 0,
        ;
        lemma_nearest_small(y, 64);
        lemma_power_order(1, 64, 116);
        assert(b.num < b.den);
        vstd::arithmetic::div_mod::lemma_basic_div(b.num as int, b.den as int);
        let (d, p) = (b.den as int, pow2(64) as int);
        assert(d <= d * p) by (nonlinear_arith)
            requires
                d > 0,
                p >= 1,
        ;
    }
}

/// `x / 2^k`, rounded down.
fn halved(x: u64, k: u32) -> (r: u64)
    ensures
        r == x as nat / pow2(k as nat),
{
    let mut r: u64 = x;
    let mut i: u32 = 0;
    proof {
        lemma2_to64();
    }
    while i < k && r > 0
        invariant
            i <= k,
            r == x as nat / pow2(i as nat),
        decreases k - i,
    {
        proof {
            lemma_pow2_pos(i as nat);
            lemma_pow2_unfold((i + 1) as nat);
            vstd::arithmetic::div_mod::lemma_div_denominator(x as int, pow2(i as nat) as int, 2);
            let p = pow2(i as nat) as int;
            assert(p * 2 == 2 * p);
        }
        r = r / 2;
        i = i + 1;
    }
    proof {
        lemma_pow2_pos(i as nat);
        lemma_pow2_pos(k as nat);
        if i < k {
            lemma_power_order(1, i as nat, k as nat);
            let (p, q) = (pow2(i as nat) as int, pow2(k as nat) as int);
            vstd::arithmetic::div_mod::lemma_fundamental_div_mod(x as int, p);
            assert(p * 0 == 0);
            assert(x < p);
            vstd::arithmetic::div_mod::lemma_basic_div(x as int, q);
        }
    }
    r
}

/// The whole bytes in `v` units of `base^power` bytes.
fn multiply(v: &Double, base: u32, power: u32) -> (r: Option<u64>)
    requires
        MANTISSA_MIN <= v.mantissa <= MANTISSA_END,
        -1152 <= v.exponent <= 971,
        v.frac().num < v.frac().den * pow2(1024),
        1 <= base <= 1024,
        power <= 5,
    ensures
        r == multiplied(v.frac(), unit_bytes(base as nat, power as nat)),
{
    let ghost unit = unit_bytes(base as nat, power as nat);
    let ghost f = v.frac();
    let ghost y = Frac { num: f.num * unit, den: f.den };
    let mut m: Big = big_from(v.mantissa);
    let mut i: u32 = 0;
    assert(v.mantissa * unit_bytes(base as nat, 0) == v.mantissa) by (nonlinear_arith)
        requires
            unit_bytes(base as nat, 0) == 1,
    ;
    while i < power
        invariant
            i <= power,
            m.value() == v.mantissa * unit_bytes(base as nat, i as nat),
        decreases power - i,
    {
        proof {
            let (w, u, b) = (v.mantissa as int, unit_bytes(base as nat, i as nat) as int, base as int);
            assert((w * u) * b == w * (u * b)) by (nonlinear_arith);
        }
        m.mul_add(base, 0);
        i = i + 1;
    }
    let one: Big = big_from(1);
    proof {
        lemma2_to64();
        assert(pow2(0) == 1);
    }
    let (n, d): (Big, Big) = if v.exponent >= 0 {
        (doubled(&m, v.exponent as u32), one)
    } else {
        (m, doubled(&one, (0 - v.exponent) as u32))
    };
    proof {
        lemma_multiply_in_reach(*v, unit, base as nat, power as nat);
        let (w, u, a) = (v.mantissa as int, unit as int, up(v.exponent as int) as int);
        assert((w * u) * a == (w * a) * u) by (nonlinear_arith);
        assert(v.exponent < 0 ==> (w * a) * u == w * u) by (nonlinear_arith)
            requires
                v.exponent < 0 ==> a == 1,
        ;
    }
    let b: Double = round(&n, &d);
    proof {
        lemma2_to64_rest();
        lemma_up_down_pos(b.exponent as int);
        let (w, a, z) = (b.mantissa as int, up(b.exponent as int) as int, down(b.exponent as int) as int);
        if b.exponent > 12 {
            assert(a == pow2(b.exponent as nat));
            assert(a >= pow2(13)) by {
                if b.exponent > 13 {
                    lemma_pow2_strictly_increases(13, b.exponent as nat);
                }
            }
            assert(w * a >= pow2(52) * pow2(13)) by (nonlinear_arith)
                requires
                    w >= pow2(52),
                    a >= pow2(13),
            ;
            lemma_pow2_adds(52, 13);
            lemma_power_order(1, 64, 65);
            lemma_pow2_unfold(65);
        }
        assert(b.exponent >= 0 ==> z == 1);
        assert(b.exponent < 0 ==> a == 1);
        assert(z <= z * pow2(64)) by (nonlinear_arith)
            requires
                z > 0,
                pow2(64) >= 1,
        ;
        assert(b.exponent < 0 ==> w * a == w) by (nonlinear_arith)
            requires
                b.exponent < 0 ==> a == 1,
        ;
        assert(w < z * pow2(64)) by (nonlinear_arith)
            requires
                z >= 1,
                0 <= w < pow2(64),
        ;
    }
    if b.exponent > 12 {
        return None;
    }
    if b.exponent < 0 {
        let k: u32 = (0 - b.exponent) as u32;
        let bytes: u64 = halved(b.mantissa, k);
        return Some(bytes);
    }
    let mut t: u128 = b.mantissa as u128;
    let mut j: i32 = 0;
    assert(b.mantissa * pow2(0) == b.mantissa);
    while j < b.exponent
        invariant
            0 <= j <= b.exponent <= 12,
            b.mantissa <= MANTISSA_END,
            t == b.mantissa * pow2(j as nat),
            t <= 0x2_0000_0000_0000_0000,
        decreases b.exponent - j,
    {
        proof {
            lemma2_to64();
            lemma_pow2_unfold((j + 1) as nat);
            lemma_power_order(1, (j + 1) as nat, 12);
            let (w, q) = (b.mantissa as int, pow2(j as nat) as int);
            assert((w * q) * 2 == w * (2 * q)) by (nonlinear_arith);
            assert(w * (2 * q) <= 0x20_0000_0000_0000 * 4096) by (nonlinear_arith)
                requires
                    0 <= w <= 0x20_0000_0000_0000,
                    0 <= 2 * q <= 4096,
            ;
        }
        t = t * 2;
        j = j + 1;
    }
    assert(t as nat / 1nat == t);
    if t > 0x1_0000_0000_0000_0000 {
        None
    } else if t > 0xffff_ffff_ffff_ffff {
        Some(0xffff_ffff_ffff_ffff)
    } else {
        Some(t as u64)
    }
}

proof fn lemma_multiply_in_reach(v: Double, unit: nat, base: nat, power: nat)
    requires
        MANTISSA_MIN <= v.mantissa <= MANTISSA_END,
        -1152 <= v.exponent <= 971,
        v.frac().num < v.frac().den * pow2(1024),
        unit == unit_bytes(base, power),
        1 <= base <= 1024,
        power <= 5,
    ensures
        in_reach(Frac { num: v.frac().num * unit, den: v.frac().den }),
{
    let (n, d, u) = (v.frac().num as int, v.frac().den as int, unit as int);
    let m = v.mantissa as int;
    lemma_unit_bytes(base, power);
    lemma_power_order(1, 10 * power, 50);
    lemma_up_down_pos(v.exponent as int);
    let a = up(v.exponent as int) as int;
    lemma2_to64();
    lemma2_to64_rest();
    lemma_pow2_adds(1024, 50);
    lemma_power_order(d, 1074, REACH as nat);
    let (p, q) = (pow2(1024) as int, pow2(50) as int);
    assert(n * u < d * (p * q)) by (nonlinear_arith)
        requires
            n < d * p,
            0 < u <= q,
            d > 0,
            n >= 0,
            p > 0,
    {
        assert(n * u < (d * p) * u);
        assert((d * p) * u <= (d * p) * q);
        assert((d * p) * q == d * (p * q));
    }
    assert(n >= m && n * u >= n) by (nonlinear_arith)
        requires
            n == m * a,
            a >= 1,
            m > 0,
            u >= 1,
    ;
    lemma_pow2_adds(52, REACH as nat);
    if v.exponent < 0 {
        lemma_power_order(1, (-v.exponent) as nat, 1152);
    } else {
        lemma_power_order(1, 0, 1152);
    }
    let r = pow2(REACH as nat) as int;
    assert((n * u) * r >= pow2(52) * r) by (nonlinear_arith)
        requires
            n * u >= pow2(52),
            r >= 0,
    ;
}

/// `n` units of `base^power` bytes, if the bytes fit.
fn whole_units(n: Big, base: u32, power: u32) -> (r: Option<u64>)
    ensures
        ({
            let bytes = n.value() * unit_bytes(base as nat, power as nat);
            &&& r is Some <==> bytes <= u64::MAX
            &&& r is Some ==> r->0 == bytes
        }),
{
    let mut b: Big = n;
    let mut i: u32 = 0;
    assert(n.value() * unit_bytes(base as nat, 0) == n.value()) by (nonlinear_arith)
        requires
            unit_bytes(base as nat, 0) == 1,
    ;
    while i < power
        invariant
            i <= power,
            b.value() == n.value() * unit_bytes(base as nat, i as nat),
        decreases power - i,
    {
        proof {
            let (v, u, c) = (n.value(), unit_bytes(base as nat, i as nat), base as nat);
            assert((v * u) * c == v * (u * c)) by (nonlinear_arith);
        }
        b.mul_add(base, 0);
        i = i + 1;
    }
    b.to_u64()
}

/// Why a text is no size.
#[derive(Debug, PartialEq, Eq, Structural, Clone, Copy)]
pub enum SizeError {
    /// There is nothing but white space.
    Empty,
    /// It does not start with a number.
    NoNumber,
    /// The number has no digit, or more than one point.
    BadNumber,
    /// The number is beyond the range of a double.
    NotFinite,
    /// What follows the number is no unit.
    UnknownUnit,
    /// There are more bytes than fit.
    TooLarge,
}

/// A character of the number.
pub open spec fn is_numeric(c: char) -> bool {
    '0' <= c <= '9' || c == '.' || c == '_'
}

/// How many characters at the start of `s` belong to the number.
pub open spec fn numeric_len(s: Seq<char>) -> nat
    decreases s.len(),
{
    if s.len() > 0 && is_numeric(s[0]) {
        1 + numeric_len(s.skip(1))
    } else {
        0
    }
}

/// What the characters of a number say. Underscores count for nothing.
pub struct Numeral {
    pub digits: nat,
    pub points: nat,
    /// The digits, read as one whole number.
    pub num: nat,
    /// Ten to the number of digits behind the point.
    pub den: nat,
}

pub open spec fn numeral(s: Seq<char>) -> Numeral
    decreases s.len(),
{
    if s.len() == 0 {
        Numeral { digits: 0, points: 0, num: 0, den: 1 }
    } else {
        let p = numeral(s.drop_last());
        let c = s.last();
        if c == '.' {
            Numeral { points: p.points + 1, ..p }
        } else if '0' <= c <= '9' {
            Numeral {
                digits: p.digits + 1,
                points: p.points,
                num: p.num * 10 + (c as int - '0' as int) as nat,
                den: if p.points > 0 {
                    p.den * 10
                } else {
                    p.den
                },
            }
        } else {
            p
        }
    }
}

/// The power of the base that a letter stands for.
pub open spec fn unit_power(c: char) -> nat {
    if c == 'k' {
        1
    } else if c == 'm' {
        2
    } else if c == 'g' {
        3
    } else if c == 't' {
        4
    } else if c == 'p' {
        5
    } else {
        0
    }
}

/// The bytes in a unit, given in lower case: nothing and `b` are bytes; `k`,
/// `ki` and `kib` are 1024 of them, and `kb` is 1000; and so for the larger
/// units.
pub open spec fn unit_of(u: Seq<char>) -> Option<nat> {
    if u.len() == 0 || u == seq!['b'] {
        Some(1)
    } else {
        let power = unit_power(u[0]);
        let rest = u.skip(1);
        if power == 0 {
            None
        } else if rest.len() == 0 || rest == seq!['i'] || rest == seq!['i', 'b'] {
            Some(unit_bytes(1024, power))
        } else if rest == seq!['b'] {
            Some(unit_bytes(1000, power))
        } else {
            None
        }
    }
}

/// The unit in a trimmed text.
pub open spec fn unit_text(t: Seq<char>) -> Seq<char> {
    lowered(trim(t.skip(numeric_len(t) as int)))
}

/// The size that a text stands for.
pub open spec fn size_of(s: Seq<char>) -> Result<u64, SizeError> {
    let t = trim(s);
    let v = numeral(t.take(numeric_len(t) as int));
    let x = Frac { num: v.num, den: v.den };
    if t.len() == 0 {
        Err(SizeError::Empty)
    } else if v.digits == 0 && v.points == 0 {
        Err(SizeError::NoNumber)
    } else if v.digits == 0 || v.points > 1 {
        Err(SizeError::BadNumber)
    } else if !finite(x) {
        Err(SizeError::NotFinite)
    } else {
        match unit_of(unit_text(t)) {
            None => Err(SizeError::UnknownUnit),
            Some(unit) => if v.points == 0 {
                if v.num * unit <= u64::MAX {
                    Ok((v.num * unit) as u64)
                } else {
                    Err(SizeError::TooLarge)
                }
            } else {
                match whole_bytes(x, unit) {
                    None => Err(SizeError::TooLarge),
                    Some(n) => Ok(n),
                }
            },
        }
    }
}

/// What is read of a number.
struct Scan {
    digits: bool,
    points: bool,
    more_points: bool,
    num: Big,
    den: Big,
}

impl Scan {
    spec fn reads(&self, s: Seq<char>) -> bool {
        let v = numeral(s);
        &&& self.digits == (v.digits > 0)
        &&& self.points == (v.points > 0)
        &&& self.more_points == (v.points > 1)
        &&& self.num.value() == v.num
        &&& self.den.value() == v.den
        &&& v.den > 0
    }
}

/// Reads the number in `v` from `from` on. Returns where it ends, too.
fn scan(v: &Vec<char>, from: usize, to: usize) -> (r: (Scan, usize))
    requires
        from <= to <= v@.len(),
    ensures
        from <= r.1 <= to,
        r.1 - from == numeric_len(v@.subrange(from as int, to as int)),
        r.0.reads(v@.subrange(from as int, r.1 as int)),
{
    let ghost all = v@.subrange(from as int, to as int);
    let mut den: Big = Big::zero();
    den.mul_add(0, 1);
    let mut r: Scan = Scan {
        digits: false,
        points: false,
        more_points: false,
        num: Big::zero(),
        den,
    };
    let mut i: usize = from;
    assert(v@.subrange(from as int, from as int).len() == 0);
    while i < to && ((v[i] >= '0' && v[i] <= '9') || v[i] == '.' || v[i] == '_')
        invariant
            from <= i <= to <= v@.len(),
            all == v@.subrange(from as int, to as int),
            r.reads(v@.subrange(from as int, i as int)),
            (i - from) + numeric_len(v@.subrange(i as int, to as int)) == numeric_len(all),
        decreases to - i,
    {
        let c: char = v[i];
        proof {
            let s = v@.subrange(from as int, i + 1);
            assert(s.drop_last() == v@.subrange(from as int, i as int));
            assert(v@.subrange(i as int, to as int).skip(1) == v@.subrange(i + 1, to as int));
        }
        if c == '.' {
            if r.points {
                r.more_points = true;
            }
            r.points = true;
        } else if c != '_' {
            let d: u32 = c as u32 - '0' as u32;
            r.digits = true;
            r.num.mul_add(10, d);
            if r.points {
                r.den.mul_add(10, 0);
            }
        }
        i = i + 1;
    }
    (r, i)
}

/// The base and the power of a unit, given in lower case.
fn unit(u: &Vec<char>) -> (r: Option<(u32, u32)>)
    ensures
        match r {
            None => unit_of(u@) is None,
            Some((base, power)) => {
                &&& unit_of(u@) == Some(unit_bytes(base as nat, power as nat))
                &&& 1 <= base <= 1024
                &&& power <= 5
            },
        },
{
    let n: usize = u.len();
    if n == 0 || (n == 1 && u[0] == 'b') {
        assert(n == 1 ==> u@ == seq!['b']);
        assert(unit_bytes(1024, 0) == 1);
        return Some((1024, 0));
    }
    assert(u@ != seq!['b']) by {
        if u@ == seq!['b'] {
            assert(u@.len() == 1 && u@[0] == 'b');
        }
    }
    let power: u32 = match u[0] {
        'k' => 1,
        'm' => 2,
        'g' => 3,
        't' => 4,
        'p' => 5,
        _ => 0,
    };
    let ghost rest = u@.skip(1);
    proof {
        let (i, b, ib) = (seq!['i'], seq!['b'], seq!['i', 'b']);
        assert(i[0] == 'i' && b[0] == 'b' && ib[0] == 'i' && ib[1] == 'b');
        assert(n >= 2 ==> rest[0] == u@[1]);
        assert(n >= 3 ==> rest[1] == u@[2]);
        assert(rest =~= i <==> n == 2 && u@[1] == 'i');
        assert(rest =~= b <==> n == 2 && u@[1] == 'b');
        assert(rest =~= ib <==> n == 3 && u@[1] == 'i' && u@[2] == 'b');
    }
    if power == 0 {
        None
    } else if n == 1 || (n == 2 && u[1] == 'i') || (n == 3 && u[1] == 'i' && u[2] == 'b') {
        Some((1024, power))
    } else if n == 2 && u[1] == 'b' {
        Some((1000, power))
    } else {
        None
    }
}

/// Where the text is without the white space around it.
fn trimmed(v: &Vec<char>, from: usize, to: usize) -> (r: (usize, usize))
    requires
        from <= to <= v@.len(),
    ensures
        from <= r.0 <= r.1 <= to,
        v@.subrange(r.0 as int, r.1 as int) == trim(v@.subrange(from as int, to as int)),
{
    let i: usize = skip_spaces(v, from, to);
    let j: usize = drop_spaces(v, i, to);
    (i, j)
}

/// The unit of the text from `from` to `to` in lower case.
fn unit_chars(v: &Vec<char>, from: usize, to: usize) -> (u: Vec<char>)
    requires
        from <= to <= v@.len(),
    ensures
        u@ == lowered(trim(v@.subrange(from as int, to as int))),
{
    let (a, b): (usize, usize) = trimmed(v, from, to);
    let ghost t = v@.subrange(a as int, b as int);
    let mut u: Vec<char> = Vec::new();
    let mut i: usize = a;
    while i < b
        invariant
            a <= i <= b <= v@.len(),
            t == v@.subrange(a as int, b as int),
            u@ == lowered(t.take(i - a)),
        decreases b - i,
    {
        u.push(to_lower(v[i]));
        i = i + 1;
        assert(t.take(i - a) == t.take(i - a - 1).push(t[i - a - 1]));
        assert(u@ =~= lowered(t.take(i - a)));
    }
    assert(t.take(i - a) == t);
    u
}

/// Reads a size: a number with or without a point, and a unit. Underscores in
/// the number, white space and the case of the unit do not matter.
pub fn parse_size(s: &str) -> (r: Result<u64, SizeError>)
    ensures
        r == size_of(s@),
{
    let v: Vec<char> = chars_of(s);
    assert(v@.subrange(0, v@.len() as int) == s@);
    let (i, j): (usize, usize) = trimmed(&v, 0, v.len());
    let ghost t = v@.subrange(i as int, j as int);
    if i == j {
        return Err(SizeError::Empty);
    }
    let (n, k): (Scan, usize) = scan(&v, i, j);
    proof {
        assert(t.take(k - i) == v@.subrange(i as int, k as int));
        assert(t.skip(k - i) == v@.subrange(k as int, j as int));
    }
    if !n.digits && !n.points {
        return Err(SizeError::NoNumber);
    }
    if !n.digits || n.more_points {
        return Err(SizeError::BadNumber);
    }
    let x: Number = read_number(&n.num, &n.den);
    if let Number::Huge = x {
        return Err(SizeError::NotFinite);
    }
    let u: Vec<char> = unit_chars(&v, k, j);
    let (base, power): (u32, u32) = match unit(&u) {
        None => {
            return Err(SizeError::UnknownUnit);
        },
        Some(bp) => bp,
    };
    if !n.points {
        return match whole_units(n.num, base, power) {
            None => Err(SizeError::TooLarge),
            Some(b) => Ok(b),
        };
    }
    let bytes: Option<u64> = match x {
        Number::Rounded(d) => multiply(&d, base, power),
        _ => {
            proof {
                lemma_unit_bytes(base as nat, power as nat);
                lemma_power_order(1, 10 * power as nat, 50);
                lemma_negligible(
                    Frac { num: n.num.value(), den: n.den.value() },
                    unit_bytes(base as nat, power as nat),
                );
            }
            Some(0)
        },
    };
    match bytes {
        None => Err(SizeError::TooLarge),
        Some(b) => Ok(b),
    }
}

/// A unit without the `b` at its end.
pub open spec fn without_b(u: Seq<char>) -> Seq<char> {
    if u.len() > 0 && u.last() == 'b' {
        u.drop_last()
    } else {
        u
    }
}

/// What a user is told of a text that is no size.
pub open spec fn size_error_text(s: Seq<char>, e: SizeError) -> Seq<char> {
    let t = trim(s);
    match e {
        SizeError::Empty => "empty size"@,
        SizeError::NoNumber => "size "@ + quoted_of(t) + " has no numeric part"@,
        SizeError::BadNumber => "bad number in size "@ + quoted_of(t),
        SizeError::NotFinite => "size must be non-negative and finite"@,
        SizeError::UnknownUnit => "unknown size unit "@ + quoted_of(without_b(unit_text(t)))
            + " in "@ + quoted_of(t),
        SizeError::TooLarge => "size "@ + quoted_of(t) + " too large"@,
    }
}

/// The message for a text that is no size.
fn size_error_message(s: &str, e: SizeError) -> (r: String)
    ensures
        r@ == size_error_text(s@, e),
{
    let v: Vec<char> = chars_of(s);
    assert(v@.subrange(0, v@.len() as int) == s@);
    let (i, j): (usize, usize) = trimmed(&v, 0, v.len());
    let shown: String = quoted(text_from(&v, i, j).as_str());
    let mut r: String = String::new();
    match e {
        SizeError::Empty => r.append("empty size"),
        SizeError::NoNumber => {
            r.append("size ");
            r.append(shown.as_str());
            r.append(" has no numeric part");
        },
        SizeError::BadNumber => {
            r.append("bad number in size ");
            r.append(shown.as_str());
        },
        SizeError::NotFinite => r.append("size must be non-negative and finite"),
        SizeError::UnknownUnit => {
            let ghost t = v@.subrange(i as int, j as int);
            let (_, k): (Scan, usize) = scan(&v, i, j);
            assert(t.skip(k - i) == v@.subrange(k as int, j as int));
            let u: Vec<char> = unit_chars(&v, k, j);
            let end: usize = if u.len() > 0 && u[u.len() - 1] == 'b' {
                u.len() - 1
            } else {
                u.len()
            };
            assert(u@.subrange(0, end as int) == without_b(u@));
            r.append("unknown size unit ");
            r.append(quoted(text_from(&u, 0, end).as_str()).as_str());
            r.append(" in ");
            r.append(shown.as_str());
        },
        SizeError::TooLarge => {
            r.append("size ");
            r.append(shown.as_str());
            r.append(" too large");
        },
    }
    assert(r@ == size_error_text(s@, e));
    r
}

/// Reads a size, and says what is wrong with a text that is none.
pub fn parse_size_arg(s: &str) -> (r: Result<u64, String>)
    ensures
        match size_of(s@) {
            Ok(n) => r == Ok::<u64, String>(n),
            Err(e) => r is Err && r->Err_0@ == size_error_text(s@, e),
        },
{
    match parse_size(s) {
        Ok(n) => Ok(n),
        Err(e) => Err(size_error_message(s, e)),
    }
}

/// Rounding changes nothing about a whole number of at most 53 binary digits.
proof fn lemma_whole_is_exact(n: nat, c: nat)
    requires
        n <= MANTISSA_END,
        c > 0,
    ensures
        ({
            let r = nearest(Frac { num: n * c, den: c });
            r.num == n * r.den && r.den > 0
        }),
{
    let x = Frac { num: n * c, den: c };
    if n == 0 {
        assert(0 * c == 0);
        assert(0 * nearest(x).den == 0);
    } else {
        assert(n * c > 0) by (nonlinear_arith)
            requires
                n > 0,
                c > 0,
        ;
        lemma_has_exponent(x);
        let e = crate::double::exponent(x);
        lemma_up_down_pos(e);
        lemma2_to64();
        lemma2_to64_rest();
        let (u, w) = (up(e) as int, down(e) as int);
        let m = MANTISSA_MIN as int;
        assert(u * m <= n * w) by (nonlinear_arith)
            requires
                c * u * m <= (n * c) * w,
                c > 0,
        {
            assert(c * u * m == c * (u * m));
            assert((n * c) * w == c * (n * w));
        }
        if e > 1 {
            lemma_power_order(1, 2, e as nat);
            assert(n * w == n) by (nonlinear_arith)
                requires
                    w == 1,
            ;
            assert(u * m >= 4 * m) by (nonlinear_arith)
                requires
                    u >= 4,
                    m > 0,
            ;
        }
        let (a, b) = ((n * c) * w, c * u);
        if e == 1 {
            assert(u * m == 2 * m && n * w == n) by (nonlinear_arith)
                requires
                    u == 2,
                    w == 1,
            ;
            assert(b == 2 * c && a == m * b) by (nonlinear_arith)
                requires
                    w == 1,
                    u == 2,
                    a == (n * c) * w,
                    b == c * u,
                    n == 2 * m,
            ;
            vstd::arithmetic::div_mod::lemma_fundamental_div_mod_converse(a, b, m, 0);
            assert(nearest(x).num == m * u && nearest(x).den == w);
            assert(m * u == n * w) by (nonlinear_arith)
                requires
                    u == 2,
                    w == 1,
                    n == 2 * m,
            ;
        } else {
            assert(a == (n * w) * b && b > 0) by (nonlinear_arith)
                requires
                    u == 1,
                    c > 0,
                    a == (n * c) * w,
                    b == c * u,
            ;
            vstd::arithmetic::div_mod::lemma_fundamental_div_mod_converse(a, b, n * w, 0);
            assert((n * w) * u == n * w) by (nonlinear_arith)
                requires
                    u == 1,
            ;
        }
    }
}

/// A unit is made of letters.
proof fn lemma_unit_letters(u: Seq<char>)
    requires
        unit_of(lowered(u)) is Some,
    ensures
        forall|i: int| 0 <= i < u.len() ==> !is_space(#[trigger] u[i]) && !is_numeric(u[i]),
{
    let l = lowered(u);
    let (b, i, ib) = (seq!['b'], seq!['i'], seq!['i', 'b']);
    assert(b.len() == 1 && i.len() == 1 && ib.len() == 2);
    assert(b[0] == 'b' && i[0] == 'i' && ib[0] == 'i' && ib[1] == 'b');
    assert forall|k: int| 0 <= k < u.len() implies !is_space(#[trigger] u[k]) && !is_numeric(
        u[k],
    ) by {
        assert(l[k] == lower(u[k]));
        if l != b {
            let rest = l.skip(1);
            assert(unit_power(l[0]) > 0);
            assert(rest.len() == 0 || rest == i || rest == ib || rest == b);
            if k > 0 {
                assert(rest[k - 1] == l[k]);
            }
        }
        assert('b' <= l[k] <= 't');
    }
}

proof fn lemma_number_ends(m: Seq<char>, u: Seq<char>)
    requires
        forall|i: int| 0 <= i < m.len() ==> is_numeric(#[trigger] m[i]),
        u.len() > 0 ==> !is_numeric(u[0]),
    ensures
        numeric_len(m + u) == m.len(),
    decreases m.len(),
{
    let s = m + u;
    if m.len() > 0 {
        assert(is_numeric(m[0]));
        assert(s[0] == m[0]);
        assert(s.skip(1) == m.skip(1) + u);
        assert forall|i: int| 0 <= i < m.skip(1).len() implies is_numeric(
            #[trigger] m.skip(1)[i],
        ) by {
            assert(is_numeric(m[i + 1]));
        }
        lemma_number_ends(m.skip(1), u);
    } else {
        assert(u.len() > 0 ==> s[0] == u[0]);
    }
}

/// A number and a unit behind it are told apart.
proof fn lemma_number_and_unit(m: Seq<char>, u: Seq<char>)
    requires
        m.len() > 0,
        forall|i: int| 0 <= i < m.len() ==> is_numeric(#[trigger] m[i]),
        unit_of(lowered(u)) is Some,
    ensures
        trim(m + u) == m + u,
        numeric_len(m + u) == m.len(),
        (m + u).take(m.len() as int) == m,
        unit_text(m + u) == lowered(u),
{
    let s = m + u;
    lemma_unit_letters(u);
    assert(u.len() > 0 ==> !is_numeric(u[0]));
    lemma_number_ends(m, u);
    assert(is_numeric(m[0]) && s[0] == m[0]);
    if u.len() == 0 {
        assert(is_numeric(m[m.len() - 1]));
        assert(s.last() == m[m.len() - 1]);
    } else {
        assert(!is_space(u[u.len() - 1]));
        assert(s.last() == u[u.len() - 1]);
        assert(!is_space(u[0]));
    }
    assert(s.take(m.len() as int) == m);
    assert(s.skip(m.len() as int) == u);
    assert(trim(u) == u);
}

proof fn lemma_dec_numeral(n: nat)
    ensures
        dec(n).len() > 0,
        forall|i: int| 0 <= i < dec(n).len() ==> '0' <= #[trigger] dec(n)[i] <= '9',
        numeral(dec(n)) == (Numeral { digits: dec(n).len(), points: 0, num: n, den: 1 }),
    decreases n,
{
    let s = dec(n);
    let d = (n % 10) as int;
    assert('0' <= digit(d) <= '9');
    assert(digit(d) as int - '0' as int == d);
    if n < 10 {
        assert(s.drop_last() == Seq::<char>::empty());
        assert(s.last() == digit(d));
        assert(numeral(s.drop_last()) == (Numeral { digits: 0, points: 0, num: 0, den: 1 }));
    } else {
        lemma_dec_numeral(n / 10);
        assert(s.drop_last() == dec(n / 10));
        assert(s.last() == digit(d));
    }
}

/// What fits into 64 bits is within the range of a double.
proof fn lemma_word_is_finite(n: nat)
    requires
        n <= u64::MAX,
    ensures
        finite(Frac { num: n, den: 1 }),
{
    let x = Frac { num: n, den: 1 };
    lemma_pow2_pos(1024);
    if n == 0 {
        assert(1 * pow2(1024) > 0);
    } else {
        lemma_has_exponent(x);
        let e = crate::double::exponent(x);
        lemma_up_down_pos(e);
        lemma2_to64();
        lemma2_to64_rest();
        let (u, w, p) = (up(e) as int, down(e) as int, pow2(1024) as int);
        let m = MANTISSA_MIN as int;
        if e > 64 {
            lemma_power_order(1, 64, e as nat);
            assert(1 * u * m > n * w) by (nonlinear_arith)
                requires
                    u > n,
                    w == 1,
                    m >= 1,
                    n > 0,
            ;
        }
        if e >= 0 {
            lemma_power_order(1, e as nat, 64);
        }
        assert(u <= pow2(64));
        let d = crate::double::half_even(x.num * down(e), x.den * up(e)) as int;
        lemma_pow2_adds(53, 64);
        lemma_pow2_unfold(118);
        lemma_power_order(1, 118, 1024);
        assert(0 <= d * u <= pow2(53) * pow2(64)) by (nonlinear_arith)
            requires
                0 <= d <= pow2(53),
                0 < u <= pow2(64),
        ;
        assert(p <= w * p) by (nonlinear_arith)
            requires
                w >= 1,
                p > 0,
        ;
    }
}

/// A whole number of units is exact, if its bytes fit. If they do not, it is
/// too large, or not even within the range of a double. `u` is any of the
/// units, in any case.
pub proof fn law_whole_sizes_are_exact(n: nat, u: Seq<char>)
    requires
        unit_of(lowered(u)) is Some,
    ensures
        ({
            let bytes = n * unit_of(lowered(u))->0;
            size_of(dec(n) + u) == if bytes <= u64::MAX {
                Ok(bytes as u64)
            } else if finite(Frac { num: n, den: 1 }) {
                Err(SizeError::TooLarge)
            } else {
                Err(SizeError::NotFinite)
            }
        }),
{
    lemma_dec_numeral(n);
    assert forall|i: int| 0 <= i < dec(n).len() implies is_numeric(#[trigger] dec(n)[i]) by {
        assert('0' <= dec(n)[i] <= '9');
    }
    lemma_number_and_unit(dec(n), u);
    lemma_unit_of_pos(lowered(u));
    let unit = unit_of(lowered(u))->0;
    assert(n <= n * unit) by (nonlinear_arith)
        requires
            unit > 0,
    ;
    if n * unit <= u64::MAX {
        lemma_word_is_finite(n);
    }
}

/// `k` zeros.
pub open spec fn zeros(k: nat) -> Seq<char> {
    Seq::new(k, |i: int| '0')
}

proof fn lemma_pointed_numeral(n: nat, k: nat)
    ensures
        ({
            let v = numeral(dec(n).push('.') + zeros(k));
            &&& v.digits > 0
            &&& v.points == 1
            &&& v.den > 0
            &&& v.num == n * v.den
        }),
    decreases k,
{
    let s = dec(n).push('.') + zeros(k);
    if k == 0 {
        lemma_dec_numeral(n);
        assert(s == dec(n).push('.'));
        assert(s.drop_last() == dec(n));
        assert(n * 1 == n);
    } else {
        lemma_pointed_numeral(n, (k - 1) as nat);
        assert(s.drop_last() == dec(n).push('.') + zeros((k - 1) as nat));
        assert(s.last() == '0');
        let d = numeral(s.drop_last()).den;
        assert((n * d) * 10 == n * (d * 10)) by (nonlinear_arith);
    }
}

/// A number with a point and nothing but zeros behind it counts as the whole
/// number that it is, as long as its bytes have no more than 53 binary digits.
pub proof fn law_zeros_behind_the_point_do_not_matter(n: nat, k: nat, u: Seq<char>)
    requires
        unit_of(lowered(u)) is Some,
        n * unit_of(lowered(u))->0 <= MANTISSA_END,
    ensures
        size_of(dec(n).push('.') + zeros(k) + u) == size_of(dec(n) + u),
        size_of(dec(n).push('.') + zeros(k) + u) == Ok::<u64, SizeError>(
            (n * unit_of(lowered(u))->0) as u64,
        ),
{
    let m = dec(n).push('.') + zeros(k);
    let unit = unit_of(lowered(u))->0;
    lemma_dec_numeral(n);
    lemma_pointed_numeral(n, k);
    assert forall|i: int| 0 <= i < m.len() implies is_numeric(#[trigger] m[i]) by {
        if i < dec(n).len() {
            assert(m[i] == dec(n)[i]);
        }
    }
    lemma_number_and_unit(m, u);
    law_whole_sizes_are_exact(n, u);
    lemma_unit_of_pos(lowered(u));
    lemma_whole_bytes(n, numeral(m).den, unit);
}

proof fn lemma_unit_of_pos(u: Seq<char>)
    requires
        unit_of(u) is Some,
    ensures
        unit_of(u)->0 > 0,
{
    if u.len() > 0 {
        lemma_unit_bytes(1024, unit_power(u[0]));
        lemma_unit_bytes(1000, unit_power(u[0]));
    }
}

proof fn lemma_whole_bytes(n: nat, c: nat, unit: nat)
    requires
        c > 0,
        unit > 0,
        n * unit <= MANTISSA_END,
    ensures
        finite(Frac { num: n * c, den: c }),
        whole_bytes(Frac { num: n * c, den: c }, unit) == Some((n * unit) as u64),
{
    let x = Frac { num: n * c, den: c };
    assert(n <= n * unit) by (nonlinear_arith)
        requires
            unit > 0,
    ;
    lemma_whole_is_exact(n, c);
    let v = nearest(x);
    lemma2_to64();
    lemma2_to64_rest();
    lemma_power_order(1, 54, 1024);
    let (d, p) = (v.den as int, pow2(1024) as int);
    assert(n * d < d * p) by (nonlinear_arith)
        requires
            0 <= n < p,
            d > 0,
    ;
    assert((n * d) * unit == (n * unit) * d) by (nonlinear_arith);
    lemma_whole_is_exact(n * unit, v.den);
    let y = Frac { num: v.num * unit, den: v.den };
    let b = nearest(y);
    let (t, z) = ((n * unit) as int, b.den as int);
    assert(t * z <= z * pow2(64)) by (nonlinear_arith)
        requires
            0 <= t <= pow2(64),
            z > 0,
    ;
    vstd::arithmetic::div_mod::lemma_fundamental_div_mod_converse(t * z, z, t, 0);
}

proof fn lemma_lowered_trim_start(s: Seq<char>)
    ensures
        trim_start(lowered(s)) == lowered(trim_start(s)),
    decreases s.len(),
{
    if s.len() > 0 {
        assert(lowered(s)[0] == lower(s[0]));
        assert(is_space(lower(s[0])) == is_space(s[0]));
        assert(lowered(s).skip(1) == lowered(s.skip(1)));
        lemma_lowered_trim_start(s.skip(1));
    }
}

proof fn lemma_lowered_trim_end(s: Seq<char>)
    ensures
        trim_end(lowered(s)) == lowered(trim_end(s)),
    decreases s.len(),
{
    if s.len() > 0 {
        assert(lowered(s).last() == lower(s.last()));
        assert(is_space(lower(s.last())) == is_space(s.last()));
        assert(lowered(s).drop_last() == lowered(s.drop_last()));
        lemma_lowered_trim_end(s.drop_last());
    }
}

proof fn lemma_lowered_number(s: Seq<char>)
    ensures
        numeric_len(lowered(s)) == numeric_len(s),
        numeric_len(s) <= s.len(),
    decreases s.len(),
{
    if s.len() > 0 {
        assert(lowered(s)[0] == lower(s[0]));
        assert(is_numeric(lower(s[0])) == is_numeric(s[0]));
        assert(lowered(s).skip(1) == lowered(s.skip(1)));
        lemma_lowered_number(s.skip(1));
    }
}

proof fn lemma_lowered_numeral(s: Seq<char>)
    ensures
        numeral(lowered(s)) == numeral(s),
    decreases s.len(),
{
    if s.len() > 0 {
        assert(lowered(s).last() == lower(s.last()));
        assert(lowered(s).drop_last() == lowered(s.drop_last()));
        lemma_lowered_numeral(s.drop_last());
    }
}

/// Upper and lower case do not matter: texts that are the same in lower case
/// stand for the same size, or are no size for the same reason.
pub proof fn law_case_does_not_matter(a: Seq<char>, b: Seq<char>)
    requires
        lowered(a) == lowered(b),
    ensures
        size_of(a) == size_of(b),
{
    lemma_size_in_lower_case(a);
    lemma_size_in_lower_case(b);
}

proof fn lemma_size_in_lower_case(s: Seq<char>)
    ensures
        size_of(lowered(s)) == size_of(s),
{
    lemma_lowered_trim_start(s);
    lemma_lowered_trim_end(trim_start(s));
    let t = trim(s);
    let l = lowered(t);
    assert(trim(lowered(s)) == l);
    lemma_lowered_number(t);
    let k = numeric_len(t) as int;
    assert(l.take(k) == lowered(t.take(k)));
    assert(l.skip(k) == lowered(t.skip(k)));
    lemma_lowered_numeral(t.take(k));
    let r = t.skip(k);
    lemma_lowered_trim_start(r);
    lemma_lowered_trim_end(trim_start(r));
    assert(trim(lowered(r)) == lowered(trim(r)));
    assert(lowered(lowered(trim(r))) == lowered(trim(r)));
    assert(l.len() == t.len());
}

// ------------------------------------------------------------------- units

/// The units and their bytes, all of them: no unit and `b`, and a letter from
/// kilo to peta, alone, with `i` or `ib` for powers of 1024, and with `b` for
/// powers of 1000. Nothing else is a unit.
pub proof fn law_units(c: char, rest: Seq<char>)
    ensures
        unit_of(Seq::empty()) == Some(1nat),
        unit_of(seq!['b']) == Some(1nat),
        ({
            let u = seq![c] + rest;
            let binary = rest == Seq::<char>::empty() || rest == seq!['i'] || rest == seq![
                'i',
                'b',
            ];
            let decimal = rest == seq!['b'];
            &&& binary && c == 'k' ==> unit_of(u) == Some(1_024nat)
            &&& binary && c == 'm' ==> unit_of(u) == Some(1_048_576nat)
            &&& binary && c == 'g' ==> unit_of(u) == Some(1_073_741_824nat)
            &&& binary && c == 't' ==> unit_of(u) == Some(1_099_511_627_776nat)
            &&& binary && c == 'p' ==> unit_of(u) == Some(1_125_899_906_842_624nat)
            &&& decimal && c == 'k' ==> unit_of(u) == Some(1_000nat)
            &&& decimal && c == 'm' ==> unit_of(u) == Some(1_000_000nat)
            &&& decimal && c == 'g' ==> unit_of(u) == Some(1_000_000_000nat)
            &&& decimal && c == 't' ==> unit_of(u) == Some(1_000_000_000_000nat)
            &&& decimal && c == 'p' ==> unit_of(u) == Some(1_000_000_000_000_000nat)
            &&& !binary && !decimal ==> unit_of(u) is None
            &&& c != 'k' && c != 'm' && c != 'g' && c != 't' && c != 'p' && u != seq!['b']
                ==> unit_of(u) is None
        }),
{
    let u = seq![c] + rest;
    let b = seq!['b'];
    assert(u.skip(1) == rest);
    assert(u[0] == c);
    assert(u == b ==> u.len() == 1 && u[0] == 'b');
    assert(b[0] == 'b');
    assert(rest.len() == 0 ==> rest == Seq::<char>::empty());
    lemma_unit_values(1024);
    lemma_unit_values(1000);
    if u == b {
        assert(rest.len() == 0);
    }
}

proof fn lemma_unit_values(base: nat)
    ensures
        unit_bytes(base, 1) == base,
        unit_bytes(base, 2) == base * base,
        unit_bytes(base, 3) == base * base * base,
        unit_bytes(base, 4) == base * base * base * base,
        unit_bytes(base, 5) == base * base * base * base * base,
{
    reveal_with_fuel(unit_bytes, 6);
    assert(unit_bytes(base, 0) == 1);
    assert(1 * base == base);
    assert(unit_bytes(base, 1) == base);
    assert(unit_bytes(base, 2) == unit_bytes(base, 1) * base);
    assert(unit_bytes(base, 3) == unit_bytes(base, 2) * base);
    assert(unit_bytes(base, 4) == unit_bytes(base, 3) * base);
    assert(unit_bytes(base, 5) == unit_bytes(base, 4) * base);
}

// ----------------------------------------------------------------- numbers

/// Nothing but decimal digits.
pub open spec fn all_digits(s: Seq<char>) -> bool {
    forall|i: int| 0 <= i < s.len() ==> '0' <= #[trigger] s[i] <= '9'
}

/// Digits before and behind a point are read as the decimal fraction that they
/// are, and digits alone as the whole number.
pub proof fn law_decimal_fractions(a: Seq<char>, b: Seq<char>)
    requires
        all_digits(a),
        all_digits(b),
    ensures
        numeral(a) == (Numeral {
            digits: a.len(),
            points: 0,
            num: read_back(a, 10) as nat,
            den: 1,
        }),
        numeral(a.push('.') + b) == (Numeral {
            digits: a.len() + b.len(),
            points: 1,
            num: (read_back(a, 10) * pow(10, b.len()) + read_back(b, 10)) as nat,
            den: pow(10, b.len()) as nat,
        }),
        read_back(a, 10) >= 0,
        read_back(b, 10) >= 0,
        pow(10, b.len()) > 0,
    decreases a.len() + b.len(),
{
    reveal(pow);
    if b.len() > 0 {
        let t = b.drop_last();
        law_decimal_fractions(a, t);
        let s = a.push('.') + b;
        assert(s.drop_last() == a.push('.') + t);
        assert(s.last() == b.last());
        assert(b[b.len() - 1] == b.last());
        let (x, p, y) = (read_back(a, 10), pow(10, t.len()), read_back(t, 10));
        assert(pow(10, b.len()) == 10 * p);
        assert((x * p + y) * 10 == x * (10 * p) + 10 * y) by (nonlinear_arith);
        assert(x * p >= 0) by (nonlinear_arith)
            requires
                x >= 0,
                p > 0,
        ;
    } else {
        let s = a.push('.') + b;
        assert(s == a.push('.'));
        assert(s.drop_last() == a);
        assert(pow(10, 0) == 1);
        assert(read_back(b, 10) == 0);
        if a.len() > 0 {
            let t = a.drop_last();
            law_decimal_fractions(t, b);
            assert(a[a.len() - 1] == a.last());
        }
        assert(read_back(a, 10) * 1 == read_back(a, 10));
    }
}

/// Underscores count for nothing, wherever in the number they stand.
pub proof fn law_underscores_do_not_count(a: Seq<char>, b: Seq<char>)
    ensures
        numeral(a.push('_') + b) == numeral(a + b),
    decreases b.len(),
{
    let s = a.push('_') + b;
    if b.len() == 0 {
        assert(s == a.push('_'));
        assert(s.drop_last() == a);
        assert(a + b == a);
    } else {
        law_underscores_do_not_count(a, b.drop_last());
        assert(s.drop_last() == a.push('_') + b.drop_last());
        assert((a + b).drop_last() == a + b.drop_last());
    }
}

/// A number has digits if one of its characters is one, and points as many as
/// stand in it.
proof fn lemma_what_a_numeral_holds(s: Seq<char>)
    ensures
        numeral(s).digits > 0 <==> exists|i: int| 0 <= i < s.len() && '0' <= #[trigger] s[i] <= '9',
        numeral(s).points > 0 <==> exists|i: int| 0 <= i < s.len() && #[trigger] s[i] == '.',
        numeral(s).points > 1 <==> exists|i: int, j: int|
            0 <= i < j < s.len() && #[trigger] s[i] == '.' && #[trigger] s[j] == '.',
    decreases s.len(),
{
    if s.len() > 0 {
        let t = s.drop_last();
        lemma_what_a_numeral_holds(t);
        let n = s.len() - 1;
        assert(s[n] == s.last());
        assert forall|i: int| 0 <= i < n implies t[i] == #[trigger] s[i] by {}
        if numeral(t).digits > 0 {
            let i = choose|i: int| 0 <= i < t.len() && '0' <= #[trigger] t[i] <= '9';
            assert('0' <= s[i] <= '9');
        }
        if numeral(t).points > 0 {
            let i = choose|i: int| 0 <= i < t.len() && #[trigger] t[i] == '.';
            assert(s[i] == '.');
            assert(s.last() == '.' ==> s[i] == '.' && s[n] == '.');
        }
        if numeral(t).points > 1 {
            let (i, j) = choose|i: int, j: int|
                0 <= i < j < t.len() && #[trigger] t[i] == '.' && #[trigger] t[j] == '.';
            assert(s[i] == '.' && s[j] == '.');
        }
        if exists|i: int| 0 <= i < s.len() && '0' <= #[trigger] s[i] <= '9' {
            let i = choose|i: int| 0 <= i < s.len() && '0' <= #[trigger] s[i] <= '9';
            assert(i < n ==> '0' <= t[i] <= '9');
        }
        if exists|i: int| 0 <= i < s.len() && #[trigger] s[i] == '.' {
            let i = choose|i: int| 0 <= i < s.len() && #[trigger] s[i] == '.';
            assert(i < n ==> t[i] == '.');
        }
        if exists|i: int, j: int|
            0 <= i < j < s.len() && #[trigger] s[i] == '.' && #[trigger] s[j] == '.' {
            let (i, j) = choose|i: int, j: int|
                0 <= i < j < s.len() && #[trigger] s[i] == '.' && #[trigger] s[j] == '.';
            assert(t[i] == '.');
            assert(j < n ==> t[j] == '.');
        }
    }
}

/// The number is as long as it can be: everything in it may stand in a number,
/// and what follows it may not.
pub proof fn law_number_goes_as_far_as_it_can(s: Seq<char>)
    ensures
        numeric_len(s) <= s.len(),
        forall|i: int|
            0 <= i < numeric_len(s) ==> '0' <= #[trigger] s[i] <= '9' || s[i] == '.' || s[i] == '_',
        numeric_len(s) < s.len() ==> {
            let c = s[numeric_len(s) as int];
            !('0' <= c <= '9') && c != '.' && c != '_'
        },
    decreases s.len(),
{
    if s.len() > 0 && is_numeric(s[0]) {
        let t = s.skip(1);
        law_number_goes_as_far_as_it_can(t);
        assert forall|i: int| 0 <= i < numeric_len(s) implies '0' <= #[trigger] s[i] <= '9' || s[i]
            == '.' || s[i] == '_' by {
            if i > 0 {
                assert(t[i - 1] == s[i]);
            }
        }
        if numeric_len(t) < t.len() {
            assert(t[numeric_len(t) as int] == s[numeric_len(s) as int]);
        }
    }
}

/// What is no size, and why: a text of nothing but white space is empty. One
/// whose number has neither digit nor point has none. One whose number has two
/// points, or a point and no digit, has a bad one. A number that is beyond the
/// range of a double is not finite. Where the number is none of these, what
/// follows it must be a unit, and the bytes must fit.
pub proof fn law_what_is_no_size(s: Seq<char>)
    ensures
        ({
            let t = trim(s);
            let k = numeric_len(t) as int;
            let m = t.take(k);
            let has_digit = exists|i: int| 0 <= i < k && '0' <= #[trigger] m[i] <= '9';
            let has_point = exists|i: int| 0 <= i < k && #[trigger] m[i] == '.';
            let has_points = exists|i: int, j: int|
                0 <= i < j < k && #[trigger] m[i] == '.' && #[trigger] m[j] == '.';
            let huge = !finite(Frac { num: numeral(m).num, den: numeral(m).den });
            let r = size_of(s);
            &&& (r == Err::<u64, SizeError>(SizeError::Empty) <==> forall|i: int|
                0 <= i < s.len() ==> is_space(#[trigger] s[i]))
            &&& (r == Err::<u64, SizeError>(SizeError::NoNumber) <==> t.len() > 0 && !has_digit
                && !has_point)
            &&& (r == Err::<u64, SizeError>(SizeError::BadNumber) <==> (has_point && !has_digit)
                || has_points)
            &&& (r == Err::<u64, SizeError>(SizeError::NotFinite) <==> has_digit && !has_points
                && huge)
            &&& (r == Err::<u64, SizeError>(SizeError::UnknownUnit) <==> has_digit && !has_points
                && !huge && unit_of(lowered(trim(t.skip(k)))) is None)
            &&& (r is Ok || r == Err::<u64, SizeError>(SizeError::TooLarge) <==> has_digit
                && !has_points && !huge && unit_of(lowered(trim(t.skip(k)))) is Some)
        }),
{
    let t = trim(s);
    let k = numeric_len(t) as int;
    law_number_goes_as_far_as_it_can(t);
    let m = t.take(k);
    lemma_what_a_numeral_holds(m);
    lemma_nothing_is_left(s);
    if numeral(m).digits > 0 || numeral(m).points > 0 {
        assert(m.len() > 0);
        assert(t.len() > 0);
    }
    if numeral(m).points > 1 {
        let (i, j) = choose|i: int, j: int|
            0 <= i < j < m.len() && #[trigger] m[i] == '.' && #[trigger] m[j] == '.';
        assert(m[i] == '.');
    }
}

proof fn lemma_nothing_is_left(s: Seq<char>)
    ensures
        trim(s).len() == 0 <==> forall|i: int| 0 <= i < s.len() ==> is_space(#[trigger] s[i]),
{
    crate::text::law_trimming_takes_off_white_space(s);
    let (i, j) = choose|i: int, j: int|
        {
            &&& 0 <= i <= j <= s.len()
            &&& trim(s) == #[trigger] s.subrange(i, j)
            &&& forall|k: int| 0 <= k < i || j <= k < s.len() ==> is_space(#[trigger] s[k])
        };
    if i < j {
        assert(trim(s)[0] == s[i]);
    }
}

// ---------------------------------------------------------------- accuracy

/// The bytes of a fraction of units, before and after they are rounded.
proof fn lemma_bytes_are_close(x: Frac, unit: nat)
    requires
        x.den > 0,
        unit > 0,
    ensures
        match whole_bytes(x, unit) {
            Some(n) => {
                &&& 0x8_0000_0000_0000 * (n * x.den) <= 0x8_0000_0000_0001 * (x.num * unit)
                &&& 0x8_0000_0000_0000 * ((n + 1) * x.den) >= 0x7_ffff_ffff_ffff * (x.num * unit)
            },
            None => 0x8_0000_0000_0000 * (0x1_0000_0000_0000_0000 * x.den) < 0x8_0000_0000_0001 * (
            x.num * unit),
        },
{
    let v = nearest(x);
    let y = Frac { num: v.num * unit, den: v.den };
    let b = nearest(y);
    let xu = Frac { num: x.num * unit, den: x.den };
    let k53: int = 0x20_0000_0000_0000;
    let k51: int = 0x8_0000_0000_0000;
    law_rounding_is_close(x);
    lemma_within_scaled(x, v, Frac { num: unit, den: 1 }, k53);
    assert(x.den * 1 == x.den && v.den * 1 == v.den);
    law_rounding_is_close(y);
    lemma_within_twice(xu, y, b, k53, k53, k51);
    lemma2_to64_rest();
    let (xn, xd, bn, bd) = (xu.num as int, xu.den as int, b.num as int, b.den as int);
    vstd::arithmetic::div_mod::lemma_fundamental_div_mod(bn, bd);
    let q = bn / bd;
    match whole_bytes(x, unit) {
        Some(n) => {
            let n = n as int;
            assert(n * bd <= bn <= (n + 1) * bd) by {
                assert(bd * q == q * bd) by (nonlinear_arith);
                if q > u64::MAX {
                    assert(n + 1 == pow2(64));
                    assert(bn <= (n + 1) * bd) by (nonlinear_arith)
                        requires
                            bn <= bd * pow2(64),
                            n + 1 == pow2(64),
                    ;
                    assert(n * bd <= bn) by (nonlinear_arith)
                        requires
                            q > n,
                            bd > 0,
                            bn >= q * bd,
                    ;
                } else {
                    assert((n + 1) * bd == n * bd + bd) by (nonlinear_arith);
                }
            }
            assert(k51 * (n * xd) <= (k51 + 1) * xn) by (nonlinear_arith)
                requires
                    n * bd <= bn,
                    k51 * (bn * xd) <= (k51 + 1) * (xn * bd),
                    bd > 0,
                    xd > 0,
                    k51 > 0,
            {
                assert((n * bd) * xd <= bn * xd);
                assert(k51 * ((n * bd) * xd) <= k51 * (bn * xd));
                assert(k51 * ((n * bd) * xd) == bd * (k51 * (n * xd)));
                assert((k51 + 1) * (xn * bd) == bd * ((k51 + 1) * xn));
            }
            assert((k51 - 1) * xn <= k51 * ((n + 1) * xd)) by (nonlinear_arith)
                requires
                    bn <= (n + 1) * bd,
                    (k51 - 1) * (xn * bd) <= k51 * (bn * xd),
                    bd > 0,
                    xd > 0,
                    k51 > 0,
            {
                assert(bn * xd <= ((n + 1) * bd) * xd);
                assert(k51 * (bn * xd) <= k51 * (((n + 1) * bd) * xd));
                assert(k51 * (((n + 1) * bd) * xd) == bd * (k51 * ((n + 1) * xd)));
                assert((k51 - 1) * (xn * bd) == bd * ((k51 - 1) * xn));
            }
        },
        None => {
            let p = pow2(64) as int;
            assert(k51 * (p * xd) < (k51 + 1) * xn) by (nonlinear_arith)
                requires
                    bn > bd * p,
                    k51 * (bn * xd) <= (k51 + 1) * (xn * bd),
                    bd > 0,
                    xd > 0,
                    k51 > 0,
            {
                assert((bd * p) * xd < bn * xd);
                assert(k51 * ((bd * p) * xd) < k51 * (bn * xd));
                assert(k51 * ((bd * p) * xd) == bd * (k51 * (p * xd)));
                assert((k51 + 1) * (xn * bd) == bd * ((k51 + 1) * xn));
            }
        },
    }
}

/// A number with a point is as many bytes as it says, rounded down, but for
/// one part in `2^51`; and it is too large only where `2^64` bytes are reached,
/// but for one such part. `a` and `b` are the digits before and behind the
/// point, and `u` is any of the units, in any case.
pub proof fn law_sizes_with_a_point_are_close(a: Seq<char>, b: Seq<char>, u: Seq<char>)
    requires
        all_digits(a),
        all_digits(b),
        a.len() + b.len() > 0,
        unit_of(lowered(u)) is Some,
    ensures
        ({
            let p = pow(10, b.len());
            let x = (read_back(a, 10) * p + read_back(b, 10)) * unit_of(lowered(u))->0;
            match size_of(a.push('.') + b + u) {
                Ok(n) => {
                    &&& 0x8_0000_0000_0000 * (n * p) <= 0x8_0000_0000_0001 * x
                    &&& 0x8_0000_0000_0000 * ((n + 1) * p) >= 0x7_ffff_ffff_ffff * x
                },
                Err(e) => {
                    ||| e == SizeError::TooLarge && 0x8_0000_0000_0000 * (0x1_0000_0000_0000_0000
                        * p) < 0x8_0000_0000_0001 * x
                    ||| e == SizeError::NotFinite && !finite(
                        Frac {
                            num: (read_back(a, 10) * p + read_back(b, 10)) as nat,
                            den: p as nat,
                        },
                    )
                },
            }
        }),
{
    let m = a.push('.') + b;
    law_decimal_fractions(a, b);
    assert forall|i: int| 0 <= i < m.len() implies is_numeric(#[trigger] m[i]) by {
        if i < a.len() {
            assert(m[i] == a[i]);
        } else if i > a.len() {
            assert(m[i] == b[i - a.len() - 1]);
        }
    }
    lemma_number_and_unit(m, u);
    lemma_unit_of_pos(lowered(u));
    let v = numeral(m);
    let (x, p) = (read_back(a, 10), pow(10, b.len()));
    assert(x * p >= 0) by (nonlinear_arith)
        requires
            x >= 0,
            p > 0,
    ;
    lemma_bytes_are_close(Frac { num: v.num, den: v.den }, unit_of(lowered(u))->0);
}

// -------------------------------------------------------------- white space

/// Nothing but white space.
pub open spec fn all_spaces(s: Seq<char>) -> bool {
    forall|i: int| 0 <= i < s.len() ==> is_space(#[trigger] s[i])
}

proof fn lemma_spaces_before(w: Seq<char>, s: Seq<char>)
    requires
        all_spaces(w),
    ensures
        trim_start(w + s) == trim_start(s),
    decreases w.len(),
{
    if w.len() == 0 {
        assert(w + s == s);
    } else {
        let t = w.skip(1);
        assert(is_space(w[0]) && (w + s)[0] == w[0]);
        assert forall|i: int| 0 <= i < t.len() implies is_space(#[trigger] t[i]) by {
            assert(t[i] == w[i + 1]);
        }
        assert((w + s).skip(1) == t + s);
        lemma_spaces_before(t, s);
    }
}

proof fn lemma_spaces_behind(s: Seq<char>, w: Seq<char>)
    requires
        all_spaces(w),
    ensures
        trim_end(s + w) == trim_end(s),
    decreases w.len(),
{
    if w.len() == 0 {
        assert(s + w == s);
    } else {
        let t = w.drop_last();
        assert(is_space(w[w.len() - 1]) && (s + w).last() == w[w.len() - 1]);
        assert forall|i: int| 0 <= i < t.len() implies is_space(#[trigger] t[i]) by {
            assert(t[i] == w[i]);
        }
        assert((s + w).drop_last() == s + t);
        lemma_spaces_behind(s, t);
    }
}

proof fn lemma_start_before_spaces(s: Seq<char>, w: Seq<char>)
    requires
        all_spaces(w),
    ensures
        trim(s + w) == trim(s),
    decreases s.len(),
{
    if s.len() > 0 && is_space(s[0]) {
        assert((s + w)[0] == s[0]);
        assert((s + w).skip(1) == s.skip(1) + w);
        lemma_start_before_spaces(s.skip(1), w);
    } else if s.len() == 0 {
        assert(s + w == w);
        assert(w + Seq::<char>::empty() == w);
        lemma_spaces_before(w, Seq::empty());
        assert(s == Seq::<char>::empty());
    } else {
        assert((s + w)[0] == s[0]);
        lemma_spaces_behind(s, w);
    }
}

/// White space before and behind a text does not matter.
pub proof fn law_white_space_around_does_not_matter(w: Seq<char>, s: Seq<char>, x: Seq<char>)
    requires
        all_spaces(w),
        all_spaces(x),
    ensures
        size_of(w + s + x) == size_of(s),
{
    assert(w + s + x == w + (s + x));
    lemma_spaces_before(w, s + x);
    lemma_start_before_spaces(s, x);
}

/// Neither does white space between the number and the unit, nor an underscore
/// in the number. `a` and `b` are parts of a number, and `u` is any of the
/// units, in any case.
pub proof fn law_fillers_do_not_matter(a: Seq<char>, b: Seq<char>, w: Seq<char>, u: Seq<char>)
    requires
        a.len() + b.len() > 0,
        forall|i: int| 0 <= i < a.len() ==> is_numeric(#[trigger] a[i]),
        forall|i: int| 0 <= i < b.len() ==> is_numeric(#[trigger] b[i]),
        all_spaces(w),
        unit_of(lowered(u)) is Some,
    ensures
        size_of(a.push('_') + b + u) == size_of(a + b + u),
        size_of(a + b + w + u) == size_of(a + b + u),
{
    let m = a + b;
    let n = a.push('_') + b;
    assert forall|i: int| 0 <= i < m.len() implies is_numeric(#[trigger] m[i]) by {
        if i < a.len() {
            assert(m[i] == a[i]);
        } else {
            assert(m[i] == b[i - a.len()]);
        }
    }
    assert forall|i: int| 0 <= i < n.len() implies is_numeric(#[trigger] n[i]) by {
        if i < a.len() {
            assert(n[i] == a[i]);
        } else if i > a.len() {
            assert(n[i] == b[i - a.len() - 1]);
        }
    }
    lemma_number_and_unit(m, u);
    lemma_number_and_unit(n, u);
    law_underscores_do_not_count(a, b);
    lemma_unit_letters(u);
    let k = m.len() as int;
    if u.len() == 0 {
        assert(m + w + u == m + w);
        assert(m + u == m);
        lemma_start_before_spaces(m, w);
    } else {
        let s = m + w + u;
        let wu = w + u;
        assert(s == m + wu);
        assert(!is_space(u[u.len() - 1]) && s.last() == u[u.len() - 1]);
        assert(is_numeric(m[0]) && s[0] == m[0]);
        assert(trim(s) == s);
        if w.len() > 0 {
            assert(is_space(w[0]) && wu[0] == w[0]);
        } else {
            assert(wu == u);
            assert(!is_numeric(u[0]));
        }
        lemma_number_ends(m, wu);
        assert(s.take(k) == m);
        assert(s.skip(k) == wu);
        lemma_spaces_before(w, u);
        assert(trim(wu) == trim(u));
        assert((m + u).skip(k) == u);
        assert(unit_text(s) == unit_text(m + u));
    }
}

/// A number is beyond the range of a double from `2^1024` on, and within it
/// below that, but for one part in `2^53`.
pub proof fn law_what_is_finite(x: Frac)
    requires
        x.den > 0,
    ensures
        x.num >= x.den * pow2(1024) ==> !finite(x),
        0x20_0000_0000_0001 * x.num < 0x20_0000_0000_0000 * (x.den * pow2(1024)) ==> finite(x),
{
    if x.num >= x.den * pow2(1024) {
        lemma_nearest_large(x);
    }
    law_rounding_is_close(x);
    let k: int = 0x20_0000_0000_0000;
    let y = nearest(x);
    let (n, d, yn, yd, p) = (
        x.num as int,
        x.den as int,
        y.num as int,
        y.den as int,
        pow2(1024) as int,
    );
    if (k + 1) * n < k * (d * p) {
        assert(yn < yd * p) by (nonlinear_arith)
            requires
                (k + 1) * n < k * (d * p),
                k * (yn * d) <= (k + 1) * (n * yd),
                d > 0,
                yd > 0,
                k > 0,
        {
            assert(((k + 1) * n) * yd < (k * (d * p)) * yd);
            assert((k + 1) * (n * yd) == ((k + 1) * n) * yd);
            assert((k * (d * p)) * yd == (k * d) * (yd * p));
            assert(k * (yn * d) == (k * d) * yn);
            assert((k * d) * yn < (k * d) * (yd * p));
            assert(k * d > 0);
        }
    }
}

/// What a user is told of a text that is no size quotes the text without the
/// white space around it, and for an unknown unit also the unit, in lower case
/// and without a `b` at its end.
pub proof fn law_bad_sizes_are_quoted(s: Seq<char>, u: Seq<char>)
    ensures
        size_error_text(s, SizeError::Empty) == "empty size"@,
        size_error_text(s, SizeError::NoNumber) == "size "@ + quoted_of(trim(s))
            + " has no numeric part"@,
        size_error_text(s, SizeError::BadNumber) == "bad number in size "@ + quoted_of(trim(s)),
        size_error_text(s, SizeError::NotFinite) == "size must be non-negative and finite"@,
        size_error_text(s, SizeError::TooLarge) == "size "@ + quoted_of(trim(s)) + " too large"@,
        unit_text(trim(s)) == u.push('b') || (unit_text(trim(s)) == u && (u.len() == 0 || u.last()
            != 'b')) ==> size_error_text(s, SizeError::UnknownUnit) == "unknown size unit "@
            + quoted_of(u) + " in "@ + quoted_of(trim(s)),
{
    assert(u.push('b').drop_last() == u);
}

} // verus!
