//! Which stage of a transfer held it up, judged by how busy each stage was.
//!
//! The shares are computed as doubles are: every whole number, product and
//! quotient is rounded to 53 significant binary digits.

use crate::big::Big;
use crate::double::{
    big_from, doubled, down, in_reach, law_rounding_is_close, lemma_power_order, lemma_up_down_pos,
    lemma_within_inverse, lemma_within_scaled, lemma_within_twice, nearest, normal, round, up,
    within, Double, Frac, MANTISSA_END, MANTISSA_MIN, REACH,
};
use vstd::arithmetic::power2::{
    lemma2_to64, lemma2_to64_rest, lemma_pow2_adds, lemma_pow2_pos, lemma_pow2_unfold, pow2,
};
use vstd::prelude::*;

verus! {

/// A whole number.
pub open spec fn whole(n: nat) -> Frac {
    nearest(Frac { num: n, den: 1 })
}

pub open spec fn times(a: Frac, b: Frac) -> Frac {
    nearest(Frac { num: a.num * b.num, den: a.den * b.den })
}

/// `a / b`, and 0 where `a` is 0.
pub open spec fn over(a: Frac, b: Frac) -> Frac {
    nearest(Frac { num: a.num * b.den, den: a.den * b.num })
}

pub open spec fn greater(a: Frac, b: Frac) -> bool {
    a.num * b.den > b.num * a.den
}

/// `k` tenths.
pub open spec fn tenths(k: nat) -> Frac {
    nearest(Frac { num: k, den: 10 })
}

/// The share of the time on the wall for which each of `threads` threads was
/// busy, where they were busy for `ns` in all.
pub open spec fn busy(ns: u64, threads: u32, wall_ns: u64) -> Frac {
    let wall = if wall_ns == 0 {
        1
    } else {
        wall_ns as nat
    };
    over(whole(ns as nat), times(whole(threads as nat), whole(wall)))
}

/// The number is 0, or has 53 digits and an exponent that is not far from 0.
pub open spec fn tame(d: Double) -> bool {
    ||| d.mantissa == 0 && d.exponent == 0
    ||| MANTISSA_MIN <= d.mantissa <= MANTISSA_END && -300 <= d.exponent <= 300
}

proof fn lemma_tame(d: Double)
    requires
        tame(d),
    ensures
        d.frac().num <= pow2(353),
        1 <= d.frac().den <= pow2(300),
        d.frac().num == 0 <==> d.mantissa == 0,
        d.mantissa == 0 ==> d.frac() == whole(0),
{
    let e = d.exponent as int;
    lemma_up_down_pos(e);
    lemma2_to64();
    lemma2_to64_rest();
    lemma_power_order(1, 0, 300);
    if e >= 0 {
        lemma_power_order(1, e as nat, 300);
    } else {
        lemma_power_order(1, (-e) as nat, 300);
    }
    lemma_pow2_adds(53, 300);
    let (m, u) = (d.mantissa as int, up(e) as int);
    assert(0 <= m * u <= pow2(53) * pow2(300)) by (nonlinear_arith)
        requires
            0 <= m <= pow2(53),
            0 < u <= pow2(300),
    ;
    assert(m * u == 0 <==> m == 0) by (nonlinear_arith)
        requires
            u > 0,
            m >= 0,
    ;
}

/// Where the exponent of a number can lie.
proof fn lemma_exponent_range(x: Frac, e: int, a: nat, b: nat)
    requires
        normal(x, e),
        0 < x.num <= pow2(a),
        0 < x.den <= pow2(b),
    ensures
        -(b + 53) <= e <= a,
{
    lemma_up_down_pos(e);
    lemma2_to64();
    lemma2_to64_rest();
    let (n, d) = (x.num as int, x.den as int);
    let (u, w) = (up(e) as int, down(e) as int);
    let m = MANTISSA_MIN as int;
    if e > a {
        lemma_power_order(1, a, e as nat);
        assert(d * u * m > n * w) by (nonlinear_arith)
            requires
                d >= 1,
                u >= n,
                m >= 2,
                w == 1,
                n > 0,
        {
            assert(d * u >= u);
            assert((d * u) * m >= 2 * (d * u));
        }
    }
    if e < -(b + 53) {
        lemma_pow2_adds(b, 53);
        lemma_power_order(1, b + 53, (-e) as nat);
        assert(n * w >= d * u * (2 * m)) by (nonlinear_arith)
            requires
                n >= 1,
                u == 1,
                w >= pow2(b) * (2 * m),
                pow2(b) >= d,
                m > 0,
        {
            assert(n * w >= w);
            assert(pow2(b) * (2 * m) >= d * (2 * m));
        }
    }
}

/// A whole number as a double.
fn from_whole(n: u64) -> (d: Double)
    ensures
        d.frac() == whole(n as nat),
        tame(d),
        n > 0 ==> d.mantissa > 0 && -53 <= d.exponent <= 64,
{
    if n == 0 {
        let zero: Double = Double { mantissa: 0, exponent: 0 };
        proof {
            lemma_tame(zero);
        }
        return zero;
    }
    let num: Big = big_from(n);
    let den: Big = big_from(1);
    let ghost x = Frac { num: n as nat, den: 1 };
    proof {
        lemma2_to64_rest();
        lemma2_to64();
        lemma_power_order(1, 64, REACH as nat);
        lemma_power_order(n as int, 0, REACH as nat);
    }
    let d: Double = round(&num, &den);
    proof {
        lemma_exponent_range(x, d.exponent as int, 64, 0);
    }
    d
}

/// `k` tenths as a double.
fn from_tenths(k: u32) -> (d: Double)
    requires
        0 < k < 10,
    ensures
        d.frac() == tenths(k as nat),
        -1152 <= d.exponent <= 1048,
{
    let num: Big = big_from(k as u64);
    let den: Big = big_from(10);
    proof {
        lemma2_to64();
        lemma_power_order(1, 4, REACH as nat);
        lemma_power_order(10, 0, REACH as nat);
        lemma_power_order(k as int, 4, REACH as nat);
    }
    round(&num, &den)
}

/// The product of two mantissas.
fn big_product(a: u64, b: u64) -> (r: Big)
    requires
        a <= MANTISSA_END,
        b <= MANTISSA_END,
    ensures
        r.value() == a * b,
{
    assert(a * b <= 0x20_0000_0000_0000 * 0x20_0000_0000_0000) by (nonlinear_arith)
        requires
            0 <= a <= 0x20_0000_0000_0000,
            0 <= b <= 0x20_0000_0000_0000,
    ;
    let p: u128 = (a as u128) * (b as u128);
    let high: u64 = (p / 0x1_0000_0000_0000_0000) as u64;
    let lower: u64 = (p % 0x1_0000_0000_0000_0000) as u64;
    let mid: u32 = (lower / 0x1_0000_0000) as u32;
    let end: u32 = (lower % 0x1_0000_0000) as u32;
    let mut r: Big = big_from(high);
    r.mul_add(65536, 0);
    r.mul_add(65536, mid);
    assert(r.value() == high * 0x1_0000_0000 + mid);
    r.mul_add(65536, 0);
    r.mul_add(65536, end);
    assert(r.value() == (high * 0x1_0000_0000 + mid) * 0x1_0000_0000 + end);
    r
}

/// `b * up(e)`.
fn raised(b: &Big, e: i32) -> (r: Big)
    requires
        -2000 <= e <= 2000,
    ensures
        r.value() == b.value() * up(e as int),
{
    if e >= 0 {
        doubled(b, e as u32)
    } else {
        assert(b.value() * 1 == b.value());
        b.copy()
    }
}

/// `b * down(e)`.
fn lowered(b: &Big, e: i32) -> (r: Big)
    requires
        -2000 <= e <= 2000,
    ensures
        r.value() == b.value() * down(e as int),
{
    if e < 0 {
        doubled(b, (0 - e) as u32)
    } else {
        assert(b.value() * 1 == b.value());
        b.copy()
    }
}

proof fn lemma_in_reach(x: Frac)
    requires
        0 < x.num <= pow2(706),
        0 < x.den <= pow2(706),
    ensures
        in_reach(x),
{
    lemma_pow2_unfold(707);
    lemma_pow2_pos(706);
    lemma_power_order(1, 707, REACH as nat);
    let (n, d, p) = (x.num as int, x.den as int, pow2(REACH as nat) as int);
    assert(n < d * p && d <= n * p) by (nonlinear_arith)
        requires
            0 < n < p,
            0 < d < p,
    ;
}

/// The product of two numbers.
fn product(a: &Double, b: &Double) -> (r: Double)
    requires
        tame(*a),
        tame(*b),
        a.mantissa > 0,
        b.mantissa > 0,
        -53 <= a.exponent <= 64,
        -53 <= b.exponent <= 64,
    ensures
        r.frac() == times(a.frac(), b.frac()),
        tame(r),
        r.mantissa > 0,
{
    let ghost x = Frac {
        num: a.frac().num * b.frac().num,
        den: a.frac().den * b.frac().den,
    };
    let one: Big = big_from(1);
    let n: Big = raised(&raised(&big_product(a.mantissa, b.mantissa), a.exponent), b.exponent);
    let d: Big = lowered(&lowered(&one, a.exponent), b.exponent);
    proof {
        let (ma, mb) = (a.mantissa as int, b.mantissa as int);
        let (ea, eb) = (a.exponent as int, b.exponent as int);
        let (ua, ub, wa, wb) = (up(ea) as int, up(eb) as int, down(ea) as int, down(eb) as int);
        assert(((ma * mb) * ua) * ub == (ma * ua) * (mb * ub)) by (nonlinear_arith);
        assert((1 * wa) * wb == wa * wb);
        lemma_small(*a);
        lemma_small(*b);
        lemma_pow2_adds(117, 117);
        lemma_pow2_adds(53, 53);
        let (na, nb) = (a.frac().num as int, b.frac().num as int);
        assert(0 < na * nb <= pow2(117) * pow2(117)) by (nonlinear_arith)
            requires
                0 < na <= pow2(117),
                0 < nb <= pow2(117),
        ;
        assert(0 < wa * wb <= pow2(53) * pow2(53)) by (nonlinear_arith)
            requires
                0 < wa <= pow2(53),
                0 < wb <= pow2(53),
        ;
        lemma_power_order(1, 234, 706);
        lemma_power_order(1, 106, 706);
        lemma_in_reach(x);
    }
    let r: Double = round(&n, &d);
    proof {
        lemma_exponent_range(x, r.exponent as int, 234, 106);
    }
    r
}

proof fn lemma_small(a: Double)
    requires
        MANTISSA_MIN <= a.mantissa <= MANTISSA_END,
        -53 <= a.exponent <= 64,
    ensures
        0 < a.frac().num <= pow2(117),
        0 < a.frac().den <= pow2(53),
{
    let e = a.exponent as int;
    lemma_up_down_pos(e);
    lemma2_to64();
    lemma2_to64_rest();
    if e >= 0 {
        lemma_power_order(1, e as nat, 64);
    } else {
        lemma_power_order(1, (-e) as nat, 53);
    }
    lemma_pow2_adds(53, 64);
    let (m, u) = (a.mantissa as int, up(e) as int);
    assert(0 < m * u <= pow2(53) * pow2(64)) by (nonlinear_arith)
        requires
            0 < m <= pow2(53),
            0 < u <= pow2(64),
    ;
}

/// The quotient of two numbers.
fn quotient(a: &Double, b: &Double) -> (r: Double)
    requires
        tame(*a),
        tame(*b),
        b.mantissa > 0,
    ensures
        r.frac() == over(a.frac(), b.frac()),
        -1152 <= r.exponent <= 1048,
{
    let ghost x = Frac {
        num: a.frac().num * b.frac().den,
        den: a.frac().den * b.frac().num,
    };
    proof {
        lemma_tame(*a);
        lemma_tame(*b);
    }
    if a.mantissa == 0 {
        let zero: Double = Double { mantissa: 0, exponent: 0 };
        proof {
            lemma_tame(zero);
            assert(0 * b.frac().den == 0);
        }
        return zero;
    }
    let n: Big = lowered(&raised(&big_from(a.mantissa), a.exponent), b.exponent);
    let d: Big = lowered(&raised(&big_from(b.mantissa), b.exponent), a.exponent);
    proof {
        let (na, da, nb, db) = (
            a.frac().num as int,
            a.frac().den as int,
            b.frac().num as int,
            b.frac().den as int,
        );
        assert(nb * da == da * nb) by (nonlinear_arith);
        lemma_pow2_adds(353, 300);
        assert(0 < na * db <= pow2(353) * pow2(300) && 0 < da * nb <= pow2(353) * pow2(300))
            by (nonlinear_arith)
            requires
                0 < na <= pow2(353),
                0 < nb <= pow2(353),
                0 < da <= pow2(300),
                0 < db <= pow2(300),
        ;
        lemma_power_order(1, 653, 706);
        lemma_in_reach(x);
    }
    round(&n, &d)
}

/// The first number is greater.
fn is_greater(a: &Double, b: &Double) -> (r: bool)
    requires
        -1152 <= a.exponent <= 1048,
        -1152 <= b.exponent <= 1048,
    ensures
        r == greater(a.frac(), b.frac()),
{
    let left: Big = lowered(&raised(&big_from(a.mantissa), a.exponent), b.exponent);
    let right: Big = lowered(&raised(&big_from(b.mantissa), b.exponent), a.exponent);
    right.less(&left)
}

/// The share of the time on the wall for which each thread was busy.
pub fn busy_share(ns: u64, threads: u32, wall_ns: u64) -> (d: Double)
    requires
        threads > 0 || ns == 0,
    ensures
        d.frac() == busy(ns, threads, wall_ns),
        -1152 <= d.exponent <= 1048,
{
    if ns == 0 {
        let zero: Double = Double { mantissa: 0, exponent: 0 };
        proof {
            lemma_tame(zero);
            let wall: nat = if wall_ns == 0 {
                1
            } else {
                wall_ns as nat
            };
            let b = times(whole(threads as nat), whole(wall));
            assert(whole(0).num == 0);
            assert(0 * b.den == 0);
        }
        return zero;
    }
    let wall: u64 = if wall_ns == 0 {
        1
    } else {
        wall_ns
    };
    let all: Double = product(&from_whole(threads as u64), &from_whole(wall));
    quotient(&from_whole(ns), &all)
}

/// The stage that held the transfer up.
#[derive(Debug, Clone, Copy, PartialEq, Eq, Structural)]
pub enum Stage {
    Source,
    Network,
    Destination,
    Unclear,
}

impl Stage {
    /// Its name.
    pub fn name(&self) -> (s: &'static str)
        ensures
            s@ == match *self {
                Stage::Source => "source read"@,
                Stage::Network => "network"@,
                Stage::Destination => "destination write"@,
                Stage::Unclear => "(unclear)"@,
            },
    {
        match self {
            Stage::Source => "source read",
            Stage::Network => "network",
            Stage::Destination => "destination write",
            Stage::Unclear => "(unclear)",
        }
    }
}

pub open spec fn larger(a: Frac, b: Frac) -> Frac {
    if greater(b, a) {
        b
    } else {
        a
    }
}

/// The stage that held the transfer up, and its share, given how busy reading
/// the source, sending and writing the destination were, and for how much of
/// the time the receiver was starved.
///
/// A busy sender and a starved receiver mean a slow network; a busy sender and
/// a busy destination mean that the destination holds the others back.
pub open spec fn judged(src: Frac, net: Frac, dst: Frac, starved: Frac) -> (Stage, Frac) {
    if greater(src, tenths(7)) {
        (Stage::Source, src)
    } else if greater(net, tenths(5)) && greater(starved, tenths(3)) {
        (Stage::Network, larger(starved, net))
    } else if greater(net, tenths(5)) && greater(dst, tenths(4)) {
        (Stage::Destination, dst)
    } else if greater(dst, src) && greater(dst, starved) {
        (Stage::Destination, dst)
    } else if greater(starved, src) && greater(starved, dst) {
        (Stage::Network, starved)
    } else {
        (Stage::Unclear, larger(larger(larger(src, net), dst), starved))
    }
}

/// What held a transfer up.
pub struct Bottleneck {
    pub stage: Stage,
    pub share: Double,
    /// The stage was busy for long enough to be named.
    pub dominates: bool,
}

fn pick_larger(a: Double, b: Double) -> (r: Double)
    requires
        -1152 <= a.exponent <= 1048,
        -1152 <= b.exponent <= 1048,
    ensures
        r.frac() == larger(a.frac(), b.frac()),
        -1152 <= r.exponent <= 1048,
{
    if is_greater(&b, &a) {
        b
    } else {
        a
    }
}

/// Judges what held a transfer up.
pub fn bottleneck(
    src_ns: u64,
    src_threads: u32,
    net_send_ns: u64,
    dst_write_ns: u64,
    read_starved_ns: u64,
    n_streams: u32,
    wall_ns: u64,
) -> (r: Bottleneck)
    requires
        src_threads > 0 || src_ns == 0,
        n_streams > 0 || (net_send_ns == 0 && dst_write_ns == 0 && read_starved_ns == 0),
    ensures
        ({
            let j = judged(
                busy(src_ns, src_threads, wall_ns),
                busy(net_send_ns, n_streams, wall_ns),
                busy(dst_write_ns, n_streams, wall_ns),
                busy(read_starved_ns, n_streams, wall_ns),
            );
            &&& r.stage == j.0
            &&& r.share.frac() == j.1
            &&& r.dominates == greater(j.1, tenths(3))
        }),
        r.stage == Stage::Source <==> greater(
            busy(src_ns, src_threads, wall_ns),
            nearest(Frac { num: 7, den: 10 }),
        ),
        r.stage == Stage::Source ==> r.share.frac() == busy(src_ns, src_threads, wall_ns),
        r.stage == Stage::Destination ==> r.share.frac() == busy(dst_write_ns, n_streams, wall_ns),
        r.stage == Stage::Network ==> r.share.frac() == busy(read_starved_ns, n_streams, wall_ns)
            || r.share.frac() == busy(net_send_ns, n_streams, wall_ns),
        r.dominates <==> ({
            let three = nearest(Frac { num: 3, den: 10 });
            r.share.frac().num * three.den > three.num * r.share.frac().den
        }),
{
    let src: Double = busy_share(src_ns, src_threads, wall_ns);
    let net: Double = busy_share(net_send_ns, n_streams, wall_ns);
    let dst: Double = busy_share(dst_write_ns, n_streams, wall_ns);
    let starved: Double = busy_share(read_starved_ns, n_streams, wall_ns);
    let three: Double = from_tenths(3);
    let (stage, share): (Stage, Double) = if is_greater(&src, &from_tenths(7)) {
        (Stage::Source, src)
    } else if is_greater(&net, &from_tenths(5)) && is_greater(&starved, &three) {
        (Stage::Network, pick_larger(starved, net))
    } else if is_greater(&net, &from_tenths(5)) && is_greater(&dst, &from_tenths(4)) {
        (Stage::Destination, dst)
    } else if is_greater(&dst, &src) && is_greater(&dst, &starved) {
        (Stage::Destination, dst)
    } else if is_greater(&starved, &src) && is_greater(&starved, &dst) {
        (Stage::Network, starved)
    } else {
        (Stage::Unclear, pick_larger(pick_larger(pick_larger(src, net), dst), starved))
    };
    let dominates: bool = is_greater(&share, &three);
    Bottleneck { stage, share, dominates }
}

/// A share is the time that the threads were busy over the time on the wall of
/// all of them, to within one part in `2^48`. A time of 0 on the wall counts as
/// one nanosecond.
pub proof fn law_share_is_busy_time_over_wall_time(ns: u64, threads: u32, wall_ns: u64)
    requires
        threads > 0,
    ensures
        within(
            Frac {
                num: ns as nat,
                den: (threads * if wall_ns == 0 {
                    1
                } else {
                    wall_ns as int
                }) as nat,
            },
            busy(ns, threads, wall_ns),
            0x1_0000_0000_0000,
        ),
        busy(ns, threads, wall_ns).den > 0,
        ns == 0 <==> busy(ns, threads, wall_ns).num == 0,
{
    let wall: nat = if wall_ns == 0 {
        1
    } else {
        wall_ns as nat
    };
    let n = Frac { num: ns as nat, den: 1 };
    let t = Frac { num: threads as nat, den: 1 };
    let l = Frac { num: wall, den: 1 };
    let (wn, wt, wl) = (whole(ns as nat), whole(threads as nat), whole(wall));
    law_rounding_is_close(n);
    law_rounding_is_close(t);
    law_rounding_is_close(l);
    let k53: int = 0x20_0000_0000_0000;
    let k51: int = 0x8_0000_0000_0000;
    let k50: int = 0x4_0000_0000_0000;
    let k49: int = 0x2_0000_0000_0000;
    let k48: int = 0x1_0000_0000_0000;
    // The product, before and after it is rounded.
    let d = Frac { num: (threads as nat) * wall, den: 1 };
    let d1 = Frac { num: wt.num * wall, den: wt.den };
    let d2 = Frac { num: wt.num * wl.num, den: wt.den * wl.den };
    let p = times(wt, wl);
    lemma_within_scaled(t, wt, l, k53);
    assert(1 * 1 == 1 && wt.den * 1 == wt.den);
    assert(within(d, d1, k53));
    lemma_within_scaled(l, wl, wt, k53);
    assert(wall * wt.num == wt.num * wall && wl.num * wt.num == wt.num * wl.num && wl.den * wt.den
        == wt.den * wl.den && 1 * wt.den == wt.den) by (nonlinear_arith);
    assert(within(d1, d2, k53));
    lemma_within_twice(d, d1, d2, k53, k53, k51);
    assert(d2.den > 0 && d2.num > 0) by (nonlinear_arith)
        requires
            d2.den == wt.den * wl.den,
            d2.num == wt.num * wl.num,
            wt.den > 0,
            wl.den > 0,
            wt.num > 0,
            wl.num > 0,
    ;
    law_rounding_is_close(d2);
    lemma_within_twice(d, d2, p, k51, k53, k50);
    // The quotient.
    let x = Frac { num: ns as nat, den: (threads as nat) * wall };
    let q1 = Frac { num: wn.num, den: wn.den * d.num };
    let q2 = Frac { num: wn.num * p.den, den: wn.den * p.num };
    let inv_d = Frac { num: 1, den: d.num };
    let inv_p = Frac { num: p.den, den: p.num };
    lemma_within_scaled(n, wn, inv_d, k53);
    assert(n.num * 1 == n.num && 1 * d.num == d.num && wn.num * 1 == wn.num);
    assert(within(x, q1, k53));
    lemma_within_inverse(d, p, k50);
    lemma_within_scaled(inv_d, inv_p, wn, k50 - 1);
    assert(1 * wn.num == wn.num && d.num * wn.den == wn.den * d.num && p.den * wn.num == wn.num
        * p.den && p.num * wn.den == wn.den * p.num) by (nonlinear_arith);
    assert(within(q1, q2, k50 - 1));
    assert(d.num > 0 && q1.den > 0) by (nonlinear_arith)
        requires
            d.num == threads * wall,
            q1.den == wn.den * d.num,
            threads > 0,
            wall > 0,
            wn.den > 0,
    ;
    lemma_within_twice(x, q1, q2, k53, k50 - 1, k49);
    assert(q2.den > 0) by (nonlinear_arith)
        requires
            q2.den == wn.den * p.num,
            wn.den > 0,
            p.num > 0,
    ;
    assert(q2.num == 0 <==> wn.num == 0) by (nonlinear_arith)
        requires
            q2.num == wn.num * p.den,
            p.den > 0,
            wn.num >= 0,
    ;
    law_rounding_is_close(q2);
    lemma_within_twice(x, q2, nearest(q2), k49, k53, k48);
}

/// What held a transfer up, in full: reading the source if it took more than
/// seven tenths of the time; else the network or the destination where sending
/// took more than half, the network if the receiver starved for more than three
/// tenths, or else the destination if writing took more than four; else the
/// one of destination and network that was busier than the others. The share is
/// that of the stage, and the largest of all where no stage stands out.
pub proof fn law_verdict_follows_the_shares(src: Frac, net: Frac, dst: Frac, starved: Frac)
    requires
        src.den > 0,
        net.den > 0,
        dst.den > 0,
        starved.den > 0,
    ensures
        ({
            let (stage, share) = judged(src, net, dst, starved);
            let seven = nearest(Frac { num: 7, den: 10 });
            let five = nearest(Frac { num: 5, den: 10 });
            let four = nearest(Frac { num: 4, den: 10 });
            let three = nearest(Frac { num: 3, den: 10 });
            let source_full = src.num * seven.den > seven.num * src.den;
            let sending = net.num * five.den > five.num * net.den;
            let starving = starved.num * three.den > three.num * starved.den;
            let writing = dst.num * four.den > four.num * dst.den;
            let dst_leads = dst.num * src.den > src.num * dst.den && dst.num * starved.den
                > starved.num * dst.den;
            let net_leads = starved.num * src.den > src.num * starved.den && starved.num * dst.den
                > dst.num * starved.den;
            &&& source_full ==> stage == Stage::Source
            &&& !source_full && sending && starving ==> stage == Stage::Network
            &&& !source_full && sending && !starving && writing ==> stage == Stage::Destination
            &&& !source_full && !(sending && (starving || writing)) && dst_leads ==> stage
                == Stage::Destination
            &&& !source_full && !(sending && (starving || writing)) && net_leads ==> stage
                == Stage::Network
            &&& !source_full && !(sending && (starving || writing)) && !dst_leads && !net_leads
                ==> stage == Stage::Unclear
            &&& stage == Stage::Source ==> share == src
            &&& stage == Stage::Destination ==> share == dst
            &&& stage == Stage::Network ==> share == starved || (share == net && sending
                && starving)
            &&& stage == Stage::Network && sending && starving ==> share.num * net.den >= net.num
                * share.den && share.num * starved.den >= starved.num * share.den
            &&& stage == Stage::Unclear ==> {
                &&& share == src || share == net || share == dst || share == starved
                &&& share.num * src.den >= src.num * share.den
                &&& share.num * net.den >= net.num * share.den
                &&& share.num * dst.den >= dst.num * share.den
                &&& share.num * starved.den >= starved.num * share.den
            }
        }),
{
    lemma_larger(starved, net);
    let a = larger(src, net);
    let b = larger(a, dst);
    lemma_larger(src, net);
    lemma_larger(a, dst);
    lemma_larger(b, starved);
    let c = larger(b, starved);
    lemma_no_less(c, b, a);
    lemma_no_less(c, b, dst);
    lemma_no_less(c, a, src);
    lemma_no_less(c, a, net);
}

proof fn lemma_larger(a: Frac, b: Frac)
    ensures
        ({
            let c = larger(a, b);
            &&& c == a || c == b
            &&& c.num * a.den >= a.num * c.den
            &&& c.num * b.den >= b.num * c.den
        }),
{
}

/// To be no less carries over.
proof fn lemma_no_less(a: Frac, b: Frac, c: Frac)
    requires
        a.num * b.den >= b.num * a.den,
        b.num * c.den >= c.num * b.den,
        b.den > 0,
    ensures
        a.num * c.den >= c.num * a.den,
{
    let (an, ad, bn, bd, cn, cd) = (
        a.num as int,
        a.den as int,
        b.num as int,
        b.den as int,
        c.num as int,
        c.den as int,
    );
    assert(an * cd >= cn * ad) by (nonlinear_arith)
        requires
            an * bd >= bn * ad,
            bn * cd >= cn * bd,
            bd > 0,
            ad >= 0,
            cd >= 0,
    {
        assert((an * bd) * cd >= (bn * ad) * cd);
        assert((bn * ad) * cd == (bn * cd) * ad);
        assert((bn * cd) * ad >= (cn * bd) * ad);
        assert((an * bd) * cd == bd * (an * cd));
        assert((cn * bd) * ad == bd * (cn * ad));
    }
}

} // verus!
