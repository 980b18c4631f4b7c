//! Rounding to the precision of a double: 53 significant binary digits, ties
//! to even.

use crate::big::Big;
use vstd::arithmetic::div_mod::lemma_fundamental_div_mod_converse;
use vstd::arithmetic::power2::{
    lemma2_to64, lemma2_to64_rest, lemma_pow2_adds, lemma_pow2_pos, lemma_pow2_strictly_increases,
    lemma_pow2_unfold, pow2,
};
use vstd::prelude::*;

verus! {

/// The smallest number of 53 binary digits.
pub const MANTISSA_MIN: u64 = 0x10_0000_0000_0000;

/// One more than the largest.
pub const MANTISSA_END: u64 = 0x20_0000_0000_0000;

/// A non-negative fraction.
pub struct Frac {
    pub num: nat,
    pub den: nat,
}

/// `2^e`, where `e` is not negative.
pub open spec fn up(e: int) -> nat {
    if e >= 0 {
        pow2(e as nat)
    } else {
        1
    }
}

/// `2^-e`, where `e` is negative. `up(e) / down(e)` is `2^e`.
pub open spec fn down(e: int) -> nat {
    if e < 0 {
        pow2((-e) as nat)
    } else {
        1
    }
}

/// `n / d`, rounded to the nearest whole number, and to the even one of two
/// that are equally near.
pub open spec fn half_even(n: nat, d: nat) -> nat {
    let q = n / d;
    let r = n % d;
    if 2 * r < d {
        q
    } else if 2 * r > d {
        q + 1
    } else {
        q + q % 2
    }
}

/// Divided by `2^e`, `x` has a whole part of 53 binary digits.
pub open spec fn normal(x: Frac, e: int) -> bool {
    x.den * up(e) * MANTISSA_MIN <= x.num * down(e) < x.den * up(e) * MANTISSA_END
}

/// The exponent at which `x` has a whole part of 53 binary digits.
pub open spec fn exponent(x: Frac) -> int {
    choose|e: int| normal(x, e)
}

/// The number of 53 significant binary digits that is nearest to `x`.
pub open spec fn nearest(x: Frac) -> Frac {
    if x.num == 0 {
        Frac { num: 0, den: 1 }
    } else {
        let e = exponent(x);
        Frac { num: half_even(x.num * down(e), x.den * up(e)) * up(e), den: down(e) }
    }
}

/// `mantissa * 2^exponent`.
pub struct Double {
    pub mantissa: u64,
    pub exponent: i32,
}

impl Double {
    pub open spec fn frac(self) -> Frac {
        Frac {
            num: (self.mantissa * up(self.exponent as int)) as nat,
            den: down(self.exponent as int),
        }
    }
}

pub proof fn lemma_up_down_pos(e: int)
    ensures
        up(e) > 0,
        down(e) > 0,
{
    if e >= 0 {
        lemma_pow2_pos(e as nat);
    } else {
        lemma_pow2_pos((-e) as nat);
    }
}

/// `2^f` is `2^(f - e)` times `2^e`.
proof fn lemma_ratio(e: int, f: int)
    requires
        e <= f,
    ensures
        up(f) * down(e) == pow2((f - e) as nat) * (up(e) * down(f)),
{
    let g = (f - e) as nat;
    let (ue, de, uf, df) = (up(e), down(e), up(f), down(f));
    let p = pow2(g);
    if e >= 0 {
        lemma_pow2_adds(g, e as nat);
        assert(uf * de == p * (ue * df)) by (nonlinear_arith)
            requires
                de == 1,
                df == 1,
                uf == p * ue,
        ;
    } else if f >= 0 {
        lemma_pow2_adds(f as nat, (-e) as nat);
        assert(uf * de == p * (ue * df)) by (nonlinear_arith)
            requires
                ue == 1,
                df == 1,
                p == uf * de,
        ;
    } else {
        lemma_pow2_adds(g, (-f) as nat);
        assert(uf * de == p * (ue * df)) by (nonlinear_arith)
            requires
                ue == 1,
                uf == 1,
                de == p * df,
        ;
    }
}

proof fn lemma_exponents_apart(x: Frac, e: int, f: int)
    requires
        x.num > 0,
        x.den > 0,
        normal(x, e),
        e < f,
    ensures
        !normal(x, f),
{
    lemma_ratio(e, f);
    lemma_up_down_pos(e);
    lemma_up_down_pos(f);
    let g = (f - e) as nat;
    lemma_pow2_unfold(g);
    lemma_pow2_pos((g - 1) as nat);
    let (n, d) = (x.num as int, x.den as int);
    let (ue, de, uf, df) = (up(e) as int, down(e) as int, up(f) as int, down(f) as int);
    let p = pow2(g) as int;
    let m = MANTISSA_MIN as int;
    assert(d * uf * m > n * df) by (nonlinear_arith)
        requires
            n * de < d * ue * (2 * m),
            uf * de == p * (ue * df),
            p >= 2,
            m > 0,
            d > 0,
            ue > 0,
            de > 0,
            uf > 0,
            df > 0,
    {
        assert((n * de) * df < (d * ue * (2 * m)) * df);
        assert((n * de) * df == (n * df) * de);
        assert((d * uf * m) * de == (d * m) * (uf * de));
        assert((d * ue * (2 * m)) * df == (d * m) * (2 * (ue * df)));
        assert(d * m > 0);
        assert(ue * df > 0);
        assert(p * (ue * df) >= 2 * (ue * df));
        assert((d * m) * (uf * de) >= (d * m) * (2 * (ue * df)));
        assert((d * uf * m) * de > (n * df) * de);
    }
}

/// There is at most one exponent.
pub proof fn lemma_exponent(x: Frac, e: int)
    requires
        x.num > 0,
        x.den > 0,
        normal(x, e),
    ensures
        exponent(x) == e,
{
    let f = exponent(x);
    assert(normal(x, f));
    if e < f {
        lemma_exponents_apart(x, e, f);
    } else if f < e {
        lemma_exponents_apart(x, f, e);
    }
}

/// Division does not change when both sides are multiplied by `c`.
proof fn lemma_scaled_division(x: int, y: int, c: int, q: int, r: int)
    requires
        c > 0,
        y > 0,
        x >= 0,
        c * x == q * (c * y) + r,
        0 <= r < c * y,
    ensures
        q == x / y,
        r == c * (x % y),
        2 * r < c * y <==> 2 * (x % y) < y,
        2 * r > c * y <==> 2 * (x % y) > y,
{
    let s = x - q * y;
    assert(c * s == r) by (nonlinear_arith)
        requires
            c * x == q * (c * y) + r,
            s == x - q * y,
    ;
    assert(0 <= s < y) by (nonlinear_arith)
        requires
            c > 0,
            0 <= c * s < c * y,
    ;
    lemma_fundamental_div_mod_converse(x, y, q, s);
    assert(2 * (c * s) < c * y <==> 2 * s < y) by (nonlinear_arith)
        requires
            c > 0,
    ;
    assert(2 * (c * s) > c * y <==> 2 * s > y) by (nonlinear_arith)
        requires
            c > 0,
    ;
}

/// Where `a / b`, which is `x / 2^e`, lies between one and two, the division
/// of `a * 2^52` by `b` yields the 53 digits of `x`.
proof fn lemma_digits(x: Frac, e: int, a: int, b: int, q: int, r: int)
    requires
        x.num > 0,
        x.den > 0,
        a == x.num * down(e),
        b == x.den * up(e),
        a * MANTISSA_MIN == q * b + r,
        0 <= r < b,
        MANTISSA_MIN <= q < MANTISSA_END,
    ensures
        normal(x, e - 52),
        half_even(x.num * down(e - 52), x.den * up(e - 52)) == if 2 * r < b {
            q
        } else if 2 * r > b {
            q + 1
        } else {
            q + q % 2
        },
{
    let f = e - 52;
    let (n, d) = (x.num as int, x.den as int);
    let m = MANTISSA_MIN as int;
    lemma_up_down_pos(e);
    lemma_up_down_pos(f);
    lemma2_to64();
    lemma2_to64_rest();
    assert(pow2(52) == m);
    let (ue, de, uf, df) = (up(e) as int, down(e) as int, up(f) as int, down(f) as int);
    let xx = n * df;
    let yy = d * uf;
    let c: int = if e >= 52 {
        m
    } else if e >= 0 {
        ue
    } else {
        1
    };
    assert(c * xx == a * m && c * yy == b && c > 0) by {
        if e >= 52 {
            lemma_pow2_adds(52, f as nat);
            assert(m * (n * df) == (n * de) * m && m * (d * uf) == d * ue) by (nonlinear_arith)
                requires
                    df == 1,
                    de == 1,
                    ue == m * uf,
            ;
        } else if e >= 0 {
            lemma_pow2_adds(e as nat, (52 - e) as nat);
            assert(ue * (n * df) == (n * de) * m && ue * (d * uf) == d * ue) by (nonlinear_arith)
                requires
                    uf == 1,
                    de == 1,
                    ue * df == m,
            ;
        } else {
            lemma_pow2_adds((-e) as nat, 52);
            assert(1 * (n * df) == (n * de) * m && 1 * (d * uf) == d * ue) by (nonlinear_arith)
                requires
                    uf == 1,
                    ue == 1,
                    df == de * m,
            ;
        }
    }
    assert(yy > 0 && xx > 0) by (nonlinear_arith)
        requires
            d > 0,
            uf > 0,
            n > 0,
            df > 0,
            yy == d * uf,
            xx == n * df,
    ;
    lemma_scaled_division(xx, yy, c, q, r);
    let s = xx % yy;
    vstd::arithmetic::div_mod::lemma_fundamental_div_mod(xx, yy);
    assert(yy * m <= xx < yy * (2 * m)) by (nonlinear_arith)
        requires
            xx == yy * q + s,
            0 <= s < yy,
            m <= q < 2 * m,
    {
        assert(yy * m <= yy * q);
        assert(yy * (q + 1) <= yy * (2 * m));
        assert(yy * (q + 1) == yy * q + yy);
    }
}

/// `x` has at least 53 binary digits at `e`.
spec fn enough(x: Frac, e: int) -> bool {
    x.den * up(e) * MANTISSA_MIN <= x.num * down(e)
}

proof fn lemma_climb(x: Frac, e: int)
    requires
        x.num > 0,
        x.den > 0,
        enough(x, e),
    ensures
        exists|f: int| normal(x, f),
    decreases x.num + 1 - e,
{
    let (n, d) = (x.num as int, x.den as int);
    let (ue, de) = (up(e) as int, down(e) as int);
    let m = MANTISSA_MIN as int;
    lemma_up_down_pos(e);
    if n * de < d * ue * (2 * m) {
        assert(normal(x, e));
    } else {
        let f = e + 1;
        let (uf, df) = (up(f) as int, down(f) as int);
        lemma_up_down_pos(f);
        lemma_ratio(e, f);
        lemma2_to64();
        assert(uf * de == 2 * (ue * df));
        assert(d * uf * m <= n * df) by (nonlinear_arith)
            requires
                n * de >= d * ue * (2 * m),
                uf * de == 2 * (ue * df),
                de > 0,
                df > 0,
                d > 0,
                ue > 0,
                m > 0,
        {
            assert((n * de) * df >= (d * ue * (2 * m)) * df);
            assert((n * de) * df == (n * df) * de);
            assert((d * ue * (2 * m)) * df == (d * m) * (2 * (ue * df)));
            assert((d * m) * (uf * de) == (d * uf * m) * de);
            assert((n * df) * de >= (d * uf * m) * de);
        }
        assert(f <= n) by {
            if f > n {
                lemma_power_exceeds(f as nat);
                assert(d * uf * m >= uf) by (nonlinear_arith)
                    requires
                        d >= 1,
                        m >= 1,
                        uf > 0,
                ;
                assert(n * df == n) by (nonlinear_arith)
                    requires
                        df == 1,
                ;
            }
        }
        lemma_climb(x, f);
    }
}

proof fn lemma_power_exceeds(k: nat)
    ensures
        pow2(k) > k,
    decreases k,
{
    lemma2_to64();
    if k > 0 {
        lemma_power_exceeds((k - 1) as nat);
        lemma_pow2_unfold(k);
    }
}

/// Every positive fraction has an exponent, and 53 digits there.
pub proof fn lemma_has_exponent(x: Frac)
    requires
        x.num > 0,
        x.den > 0,
    ensures
        normal(x, exponent(x)),
        MANTISSA_MIN <= half_even(x.num * down(exponent(x)), x.den * up(exponent(x)))
            <= MANTISSA_END,
{
    let d = x.den as int;
    let k = x.den + 52;
    lemma_power_exceeds(x.den);
    lemma_pow2_adds(x.den, 52);
    lemma2_to64();
    lemma2_to64_rest();
    let (n, p) = (x.num as int, pow2(k) as int);
    let m = MANTISSA_MIN as int;
    assert(d * 1 * m <= n * p) by (nonlinear_arith)
        requires
            n >= 1,
            p == pow2(x.den) * m,
            pow2(x.den) >= d,
            d > 0,
            m > 0,
    {
        assert(pow2(x.den) * m >= d * m);
        assert(n * p >= p);
    }
    assert(enough(x, -k));
    lemma_climb(x, -k);
    let e = exponent(x);
    lemma_up_down_pos(e);
    let (xx, yy) = ((x.num * down(e)) as int, (x.den * up(e)) as int);
    assert(yy > 0) by (nonlinear_arith)
        requires
            yy == x.den * up(e),
            x.den > 0,
            up(e) > 0,
    ;
    vstd::arithmetic::div_mod::lemma_fundamental_div_mod(xx, yy);
    let (q, s) = (xx / yy, xx % yy);
    assert(m <= q < 2 * m) by (nonlinear_arith)
        requires
            xx == yy * q + s,
            0 <= s < yy,
            yy * m <= xx < yy * (2 * m),
    ;
}

/// Rounding does not take a large number below `2^1024`.
pub proof fn lemma_nearest_large(x: Frac)
    requires
        x.den > 0,
        x.num >= x.den * pow2(1024),
    ensures
        nearest(x).num >= nearest(x).den * pow2(1024),
{
    lemma_pow2_pos(1024);
    let (n, d) = (x.num as int, x.den as int);
    assert(n > 0) by (nonlinear_arith)
        requires
            n >= d * pow2(1024),
            d > 0,
            pow2(1024) > 0,
    ;
    lemma_has_exponent(x);
    let e = exponent(x);
    lemma_up_down_pos(e);
    lemma2_to64();
    lemma2_to64_rest();
    let (ue, de, p) = (up(e) as int, down(e) as int, pow2(1024) as int);
    let m = MANTISSA_MIN as int;
    assert(p * de < ue * (2 * m)) by (nonlinear_arith)
        requires
            n * de < d * ue * (2 * m),
            n >= d * p,
            d > 0,
            de > 0,
            p > 0,
    {
        assert(n * de >= (d * p) * de);
        assert((d * p) * de == d * (p * de));
        assert(d * ue * (2 * m) == d * (ue * (2 * m)));
    }
    assert(p <= p * de) by (nonlinear_arith)
        requires
            p > 0,
            de >= 1,
    ;
    if e < 972 {
        if e >= 0 {
            lemma_pow2_adds(e as nat, 53);
            lemma_power_order(1, (e + 53) as nat, 1024);
        } else {
            lemma_power_order(1, 53, 1024);
        }
        assert(false);
    }
    lemma_power_order(1, 972, e as nat);
    lemma_pow2_adds(972, 52);
    let h = half_even(x.num * down(e), x.den * up(e)) as int;
    assert(h * ue >= p) by (nonlinear_arith)
        requires
            h >= m,
            ue >= pow2(972),
            pow2(972) * m == p,
            m > 0,
    {
        assert(h * ue >= m * ue);
        assert(m * ue >= m * pow2(972));
    }
    assert(nearest(x).den * pow2(1024) == p) by (nonlinear_arith)
        requires
            nearest(x).den == 1,
            p == pow2(1024),
    ;
}

/// A number below `2^-k` rounds to at most `2^53` over more than `2^(k + 52)`.
pub proof fn lemma_nearest_small(x: Frac, k: nat)
    requires
        x.num > 0,
        x.num * pow2(k) < x.den,
    ensures
        0 < nearest(x).num <= MANTISSA_END,
        nearest(x).den > pow2(k + 52),
{
    lemma_has_exponent(x);
    let e = exponent(x);
    lemma_up_down_pos(e);
    lemma_pow2_adds(k, 52);
    lemma_pow2_pos(k);
    lemma2_to64();
    lemma2_to64_rest();
    let (n, d) = (x.num as int, x.den as int);
    let (ue, de, p) = (up(e) as int, down(e) as int, pow2(k) as int);
    let m = MANTISSA_MIN as int;
    assert(p * m < de) by (nonlinear_arith)
        requires
            d * ue * m <= n * de,
            n * p < d,
            n > 0,
            p > 0,
            ue >= 1,
            de > 0,
            m > 0,
    {
        assert(ue * m >= m);
        assert(d * (ue * m) >= d * m);
        assert(d * m > (n * p) * m);
        assert((n * p) * m == n * (p * m));
        assert(n * de > n * (p * m));
    }
    assert(p * m >= 1) by (nonlinear_arith)
        requires
            p > 0,
            m > 0,
    ;
    let h = half_even(x.num * down(e), x.den * up(e)) as int;
    assert(h * ue == h) by (nonlinear_arith)
        requires
            ue == 1,
    ;
}

/// How far a number may be from one, in binary digits.
pub const REACH: u32 = 1100;

/// `x` is neither too large nor too small for `round`.
pub open spec fn in_reach(x: Frac) -> bool {
    &&& x.num > 0
    &&& x.den > 0
    &&& x.num < x.den * pow2(REACH as nat)
    &&& x.den <= x.num * pow2(REACH as nat)
}

/// Multiplication by a larger power of two yields more.
pub proof fn lemma_power_order(x: int, e: nat, f: nat)
    requires
        x >= 0,
        e <= f,
    ensures
        x * pow2(e) <= x * pow2(f),
{
    if e < f {
        lemma_pow2_strictly_increases(e, f);
    }
    let (p, q) = (pow2(e) as int, pow2(f) as int);
    assert(x * p <= x * q) by (nonlinear_arith)
        requires
            x >= 0,
            p <= q,
    ;
}

/// `n / d`, rounded to 53 significant binary digits.
pub fn round(n: &Big, d: &Big) -> (r: Double)
    requires
        in_reach(Frac { num: n.value(), den: d.value() }),
    ensures
        r.frac() == nearest(Frac { num: n.value(), den: d.value() }),
        normal(Frac { num: n.value(), den: d.value() }, r.exponent as int),
        MANTISSA_MIN <= r.mantissa <= MANTISSA_END,
        -1152 <= r.exponent <= 1048,
{
    let ghost x = Frac { num: n.value(), den: d.value() };
    let mut a: Big = n.copy();
    let mut b: Big = d.copy();
    let mut e: i32 = 0;
    let mut twice: Big = d.copy();
    twice.mul_add(2, 0);
    proof {
        lemma2_to64();
        assert(x.num * down(0) == x.num && x.den * up(0) == x.den) by (nonlinear_arith)
            requires
                down(0) == 1,
                up(0) == 1,
        ;
    }
    while !a.less(&twice)
        invariant
            x.num == n.value(),
            x.den == d.value(),
            in_reach(x),
            0 <= e <= REACH,
            a.value() == x.num,
            b.value() == x.den * up(e as int),
            twice.value() == 2 * b.value(),
            e > 0 ==> b.value() <= a.value(),
        decreases REACH - e,
    {
        proof {
            let u = up(e as int) as int;
            lemma_pow2_unfold((e + 1) as nat);
            assert(2 * (x.den * u) == x.den * (2 * u)) by (nonlinear_arith);
            assert(x.den * up(e + 1) <= x.num);
            if e == REACH {
                lemma_power_order(x.den as int, REACH as nat, (e + 1) as nat);
            }
        }
        b = twice.copy();
        twice.mul_add(2, 0);
        e = e + 1;
    }
    while a.less(&b)
        invariant
            x.num == n.value(),
            x.den == d.value(),
            in_reach(x),
            -1100 <= e <= REACH,
            a.value() == x.num * down(e as int),
            b.value() == x.den * up(e as int),
            a.value() < 2 * b.value(),
            e > 0 ==> b.value() <= a.value(),
        decreases REACH + e,
    {
        proof {
            let w = down(e as int) as int;
            let k = (-e) as nat;
            lemma2_to64();
            lemma_pow2_unfold(k + 1);
            assert(w == pow2(k));
            assert(2 * (x.num * w) == x.num * (2 * w)) by (nonlinear_arith);
            assert(x.den * up(e as int) == x.den) by (nonlinear_arith)
                requires
                    up(e as int) == 1,
            ;
        }
        a.mul_add(2, 0);
        e = e - 1;
    }
    let ghost top = a.value() as int;
    let ghost bot = b.value() as int;
    a.subtract(&b);
    let mut q: u64 = 1;
    let mut j: u32 = 0;
    proof {
        lemma2_to64();
        lemma2_to64_rest();
    }
    while j < 52
        invariant
            j <= 52,
            b.value() == bot,
            0 < bot,
            a.value() < bot,
            top * pow2(j as nat) == q * bot + a.value(),
            pow2(j as nat) <= q < 2 * pow2(j as nat),
            pow2(52) == MANTISSA_MIN,
            bot <= top < 2 * bot,
        decreases 52 - j,
    {
        proof {
            let p = pow2(j as nat) as int;
            lemma_pow2_unfold((j + 1) as nat);
            lemma_power_order(1, (j + 1) as nat, 52);
            assert(top * (2 * p) == (2 * q) * bot + 2 * a.value()) by (nonlinear_arith)
                requires
                    top * p == q * bot + a.value(),
            ;
            assert((2 * q + 1) * bot == (2 * q) * bot + bot) by (nonlinear_arith);
        }
        a.mul_add(2, 0);
        q = q * 2;
        if !a.less(&b) {
            a.subtract(&b);
            q = q + 1;
        }
        j = j + 1;
    }
    let ghost rem = a.value() as int;
    let odd: u64 = q % 2;
    proof {
        lemma_digits(x, e as int, top, bot, q as int, rem);
        lemma_exponent(x, e - 52);
    }
    a.mul_add(2, 0);
    let m: u64 = if a.less(&b) {
        q
    } else if b.less(&a) {
        q + 1
    } else {
        q + odd
    };
    Double { mantissa: m, exponent: e - 52 }
}

/// `b * 2^k`.
pub fn doubled(b: &Big, k: u32) -> (r: Big)
    ensures
        r.value() == b.value() * pow2(k as nat),
{
    let mut r: Big = b.copy();
    let mut i: u32 = 0;
    proof {
        lemma2_to64();
        assert(b.value() * pow2(0) == b.value()) by (nonlinear_arith)
            requires
                pow2(0) == 1,
        ;
    }
    while i < k
        invariant
            i <= k,
            r.value() == b.value() * pow2(i as nat),
        decreases k - i,
    {
        proof {
            lemma_pow2_unfold((i + 1) as nat);
            let (v, p) = (b.value() as int, pow2(i as nat) as int);
            assert((v * p) * 2 == v * (2 * p)) by (nonlinear_arith);
        }
        r.mul_add(2, 0);
        i = i + 1;
    }
    r
}

/// A machine word as a big number.
pub fn big_from(x: u64) -> (b: Big)
    ensures
        b.value() == x,
{
    let mut b: Big = Big::zero();
    let high: u32 = (x / 0x1_0000_0000) as u32;
    let lower: u32 = (x % 0x1_0000_0000) as u32;
    b.mul_add(0, high);
    b.mul_add(65536, 0);
    b.mul_add(65536, lower);
    b
}

/// Rounding to a whole number goes to one that is nearest, and to the even one
/// where two are.
pub proof fn law_rounding_goes_to_the_nearest(n: nat, d: nat)
    requires
        d > 0,
    ensures
        -(d as int) <= 2 * (half_even(n, d) * d - n) <= d,
        2 * (half_even(n, d) * d - n) == d ==> half_even(n, d) % 2 == 0,
        2 * (half_even(n, d) * d - n) == -(d as int) ==> half_even(n, d) % 2 == 0,
{
    let (q, r) = (n as int / d as int, n as int % d as int);
    vstd::arithmetic::div_mod::lemma_fundamental_div_mod(n as int, d as int);
    let h = half_even(n, d) as int;
    assert(d * q == q * d) by (nonlinear_arith);
    if h == q {
        assert(h * d - n == -r);
    } else {
        assert(h == q + 1);
        assert((q + 1) * d == q * d + d) by (nonlinear_arith);
        assert(h * d - n == d - r);
    }
}

/// `y` differs from `x` by at most one part in `k`.
pub open spec fn within(x: Frac, y: Frac, k: int) -> bool {
    (k - 1) * (x.num * y.den) <= k * (y.num * x.den) <= (k + 1) * (x.num * y.den)
}

/// A number of 53 significant digits differs from what it was rounded from by
/// at most one part in `2^53`; it has the 53 digits, and 0 stays 0.
pub proof fn law_rounding_is_close(x: Frac)
    requires
        x.den > 0,
    ensures
        within(x, nearest(x), 0x20_0000_0000_0000),
        nearest(x).den > 0,
        x.num == 0 <==> nearest(x).num == 0,
        x.num > 0 ==> exists|m: int, e: int|
            {
                &&& 0x10_0000_0000_0000 <= m <= 0x20_0000_0000_0000
                &&& nearest(x).num == #[trigger] (m * up(e))
                &&& nearest(x).den == down(e)
            },
{
    let y = nearest(x);
    if x.num == 0 {
        assert(0 * y.den == 0 && 0 * x.den == 0) by (nonlinear_arith);
        assert(y.num * x.den == 0) by (nonlinear_arith)
            requires
                y.num == 0,
        ;
    } else {
        lemma_has_exponent(x);
        let e = exponent(x);
        lemma_up_down_pos(e);
        let (n, d, u, w) = (x.num as int, x.den as int, up(e) as int, down(e) as int);
        let (a, b) = (n * w, d * u);
        assert(b > 0) by (nonlinear_arith)
            requires
                b == d * u,
                d > 0,
                u > 0,
        ;
        let h = half_even(a as nat, b as nat) as int;
        law_rounding_goes_to_the_nearest(a as nat, b as nat);
        assert(y.num == h * u && y.den == w);
        assert((h * u) * d == h * b) by (nonlinear_arith)
            requires
                b == d * u,
        ;
        assert(b * 0x10_0000_0000_0000 <= a);
        assert(h * u > 0) by (nonlinear_arith)
            requires
                h > 0,
                u > 0,
        ;
        assert(y.num == h * up(e));
    }
}

/// What is close to something close is close: with one part in `j` and then
/// one in `k`, the two together are at most one part in `m`.
pub proof fn lemma_within_twice(x: Frac, y: Frac, z: Frac, j: int, k: int, m: int)
    requires
        within(x, y, j),
        within(y, z, k),
        y.den > 0,
        j > 1,
        k > 1,
        m >= 0,
        (j + 1) * (k + 1) * m <= j * k * (m + 1),
        j * k * (m - 1) <= (j - 1) * (k - 1) * m,
    ensures
        within(x, z, m),
{
    let (xn, xd, yn, yd, zn, zd) = (
        x.num as int,
        x.den as int,
        y.num as int,
        y.den as int,
        z.num as int,
        z.den as int,
    );
    let (s, t) = (xn * zd, zn * xd);
    assert((j * k) * t <= ((j + 1) * (k + 1)) * s) by (nonlinear_arith)
        requires
            j * (yn * xd) <= (j + 1) * (xn * yd),
            k * (zn * yd) <= (k + 1) * (yn * zd),
            s == xn * zd,
            t == zn * xd,
            yd > 0,
            xd >= 0,
            zd >= 0,
            j > 1,
            k > 1,
    {
        assert((k * (zn * yd)) * (j * xd) <= ((k + 1) * (yn * zd)) * (j * xd));
        assert((k * (zn * yd)) * (j * xd) == yd * ((j * k) * t));
        assert(((k + 1) * (yn * zd)) * (j * xd) == ((k + 1) * zd) * (j * (yn * xd)));
        assert(((k + 1) * zd) * (j * (yn * xd)) <= ((k + 1) * zd) * ((j + 1) * (xn * yd)));
        assert(((k + 1) * zd) * ((j + 1) * (xn * yd)) == yd * (((j + 1) * (k + 1)) * s));
    }
    assert(((j - 1) * (k - 1)) * s <= (j * k) * t) by (nonlinear_arith)
        requires
            (j - 1) * (xn * yd) <= j * (yn * xd),
            (k - 1) * (yn * zd) <= k * (zn * yd),
            s == xn * zd,
            t == zn * xd,
            yd > 0,
            xd >= 0,
            zd >= 0,
            j > 1,
            k > 1,
    {
        assert(((k - 1) * (yn * zd)) * (j * xd) <= (k * (zn * yd)) * (j * xd));
        assert((k * (zn * yd)) * (j * xd) == yd * ((j * k) * t));
        assert(((k - 1) * (yn * zd)) * (j * xd) == ((k - 1) * zd) * (j * (yn * xd)));
        assert(((k - 1) * zd) * ((j - 1) * (xn * yd)) <= ((k - 1) * zd) * (j * (yn * xd)));
        assert(((k - 1) * zd) * ((j - 1) * (xn * yd)) == yd * (((j - 1) * (k - 1)) * s));
    }
    let (p, g, l) = (j * k, (j + 1) * (k + 1), (j - 1) * (k - 1));
    assert(p > 0) by (nonlinear_arith)
        requires
            p == j * k,
            j > 1,
            k > 1,
    ;
    assert(s >= 0) by (nonlinear_arith)
        requires
            s == xn * zd,
            xn >= 0,
            zd >= 0,
    ;
    assert(t >= 0) by (nonlinear_arith)
        requires
            t == zn * xd,
            zn >= 0,
            xd >= 0,
    ;
    assert(l >= 0 && g >= 0) by (nonlinear_arith)
        requires
            l == (j - 1) * (k - 1),
            g == (j + 1) * (k + 1),
            j > 1,
            k > 1,
    ;
    assert(m * t <= (m + 1) * s) by (nonlinear_arith)
        requires
            p * t <= g * s,
            g * m <= p * (m + 1),
            p > 0,
            s >= 0,
            m >= 0,
    {
        assert(m * (p * t) <= m * (g * s));
        assert(m * (g * s) == (g * m) * s);
        assert((g * m) * s <= (p * (m + 1)) * s);
        assert(p * (m * t) <= p * ((m + 1) * s));
    }
    assert((m - 1) * s <= m * t) by (nonlinear_arith)
        requires
            l * s <= p * t,
            p * (m - 1) <= l * m,
            p > 0,
            s >= 0,
            m >= 0,
    {
        assert(m * (l * s) <= m * (p * t));
        assert(m * (l * s) == (l * m) * s);
        assert((p * (m - 1)) * s <= (l * m) * s);
        assert(p * ((m - 1) * s) <= p * (m * t));
    }
}

/// Products with one number are as close as the numbers.
pub proof fn lemma_within_scaled(x: Frac, y: Frac, c: Frac, k: int)
    requires
        within(x, y, k),
    ensures
        within(
            Frac { num: x.num * c.num, den: x.den * c.den },
            Frac { num: y.num * c.num, den: y.den * c.den },
            k,
        ),
{
    let (s, t, f) = ((x.num * y.den) as int, (y.num * x.den) as int, (c.num * c.den) as int);
    assert(f >= 0) by (nonlinear_arith)
        requires
            f == c.num * c.den,
            c.num >= 0,
            c.den >= 0,
    ;
    assert((x.num * c.num) * (y.den * c.den) == s * f) by (nonlinear_arith)
        requires
            s == x.num * y.den,
            f == c.num * c.den,
    ;
    assert((y.num * c.num) * (x.den * c.den) == t * f) by (nonlinear_arith)
        requires
            t == y.num * x.den,
            f == c.num * c.den,
    ;
    assert((k - 1) * (s * f) <= k * (t * f) <= (k + 1) * (s * f)) by (nonlinear_arith)
        requires
            (k - 1) * s <= k * t <= (k + 1) * s,
            f >= 0,
    {
        assert((k - 1) * (s * f) == ((k - 1) * s) * f);
        assert(k * (t * f) == (k * t) * f);
        assert((k + 1) * (s * f) == ((k + 1) * s) * f);
    }
}

/// One over close numbers is close.
pub proof fn lemma_within_inverse(x: Frac, y: Frac, k: int)
    requires
        within(x, y, k),
        k > 1,
    ensures
        within(Frac { num: x.den, den: x.num }, Frac { num: y.den, den: y.num }, k - 1),
{
    let (s, t) = ((x.num * y.den) as int, (y.num * x.den) as int);
    assert(x.den * y.num == t && y.den * x.num == s) by (nonlinear_arith)
        requires
            s == x.num * y.den,
            t == y.num * x.den,
    ;
    assert(s >= 0) by (nonlinear_arith)
        requires
            s == x.num * y.den,
            x.num >= 0,
            y.den >= 0,
    ;
    assert((k - 2) * t <= (k - 1) * s) by (nonlinear_arith)
        requires
            k * t <= (k + 1) * s,
            k > 1,
            s >= 0,
    {
        assert((k - 2) * (k * t) <= (k - 2) * ((k + 1) * s));
        assert((k - 2) * (k + 1) <= (k - 1) * k);
        assert(((k - 2) * (k + 1)) * s <= ((k - 1) * k) * s);
        assert(k * ((k - 2) * t) <= k * ((k - 1) * s));
    }
}

} // verus!
