//! Natural numbers of any size, as far as reading a size needs them.

use vstd::arithmetic::power::{lemma_pow0, lemma_pow_positive, pow};
use vstd::prelude::*;

verus! {

/// One more than the largest limb.
pub open spec fn limb_base() -> int {
    0x1_0000_0000
}

/// What position `i` counts.
pub open spec fn weight(i: nat) -> nat {
    pow(limb_base(), i) as nat
}

/// The limb at position `i`, where there is one.
pub open spec fn limb(s: Seq<u32>, i: int) -> nat {
    if 0 <= i < s.len() {
        s[i] as nat
    } else {
        0
    }
}

/// The number that the lowest `n` limbs make.
pub open spec fn low(s: Seq<u32>, n: nat) -> nat
    decreases n,
{
    if n == 0 {
        0
    } else {
        low(s, (n - 1) as nat) + limb(s, n - 1) * weight((n - 1) as nat)
    }
}

proof fn lemma_weight(i: nat)
    ensures
        weight(i) > 0,
        weight(0) == 1,
        weight(i + 1) == limb_base() * weight(i),
{
    lemma_pow_positive(limb_base(), i);
    lemma_pow_positive(limb_base(), i + 1);
    lemma_pow0(limb_base());
    vstd::arithmetic::power::lemma_pow_adds(limb_base(), 1, i);
    vstd::arithmetic::power::lemma_pow1(limb_base());
}

proof fn lemma_weight_order(i: nat, j: nat)
    requires
        i <= j,
    ensures
        weight(i) <= weight(j),
    decreases j,
{
    if i < j {
        lemma_weight_order(i, (j - 1) as nat);
        lemma_weight((j - 1) as nat);
    }
}

proof fn lemma_low_same(s: Seq<u32>, t: Seq<u32>, n: nat)
    requires
        forall|i: int| 0 <= i < n ==> limb(s, i) == limb(t, i),
    ensures
        low(s, n) == low(t, n),
    decreases n,
{
    if n > 0 {
        lemma_low_same(s, t, (n - 1) as nat);
        assert(limb(s, n - 1) == limb(t, n - 1));
    }
}

proof fn lemma_low_beyond(s: Seq<u32>, n: nat)
    requires
        n >= s.len(),
    ensures
        low(s, n) == low(s, s.len()),
    decreases n,
{
    if n > s.len() {
        lemma_low_beyond(s, (n - 1) as nat);
        assert(limb(s, n - 1) * weight((n - 1) as nat) == 0) by (nonlinear_arith)
            requires
                limb(s, n - 1) == 0,
        ;
    }
}

proof fn lemma_low_bound(s: Seq<u32>, n: nat)
    ensures
        low(s, n) < weight(n),
    decreases n,
{
    lemma_weight(0);
    if n > 0 {
        let k = (n - 1) as nat;
        lemma_low_bound(s, k);
        lemma_weight(k);
        let d = limb(s, k as int) as int;
        let w = weight(k) as int;
        assert(d * w <= (limb_base() - 1) * w) by (nonlinear_arith)
            requires
                0 <= d <= limb_base() - 1,
                w > 0,
        ;
        assert((limb_base() - 1) * w + w == limb_base() * w) by (nonlinear_arith);
    }
}

proof fn lemma_low_no_less(s: Seq<u32>, k: nat, n: nat)
    requires
        k < n,
    ensures
        low(s, n) >= low(s, k) + limb(s, k as int) * weight(k),
    decreases n,
{
    if n == k + 1 {
    } else {
        lemma_low_no_less(s, k, (n - 1) as nat);
        assert(limb(s, n - 1) * weight((n - 1) as nat) >= 0) by (nonlinear_arith);
    }
}

proof fn lemma_low_zeros(s: Seq<u32>, k: nat, n: nat)
    requires
        k <= n,
        forall|i: int| k <= i < n ==> limb(s, i) == 0,
    ensures
        low(s, n) == low(s, k),
    decreases n,
{
    if k < n {
        lemma_low_zeros(s, k, (n - 1) as nat);
        assert(limb(s, n - 1) == 0);
        assert(limb(s, n - 1) * weight((n - 1) as nat) == 0) by (nonlinear_arith)
            requires
                limb(s, n - 1) == 0,
        ;
    }
}

/// A natural number, lowest limb first.
pub struct Big {
    limbs: Vec<u32>,
}

impl Big {
    pub closed spec fn value(&self) -> nat {
        low(self.limbs@, self.limbs@.len())
    }

    pub fn zero() -> (r: Big)
        ensures
            r.value() == 0,
    {
        Big { limbs: Vec::new() }
    }

    fn at(&self, i: usize) -> (d: u32)
        ensures
            d == limb(self.limbs@, i as int),
    {
        if i < self.limbs.len() {
            self.limbs[i]
        } else {
            0
        }
    }

    /// Multiplies by `m` and adds `a`.
    pub fn mul_add(&mut self, m: u32, a: u32)
        ensures
            final(self).value() == old(self).value() * m + a,
    {
        let ghost was = self.limbs@;
        let mut carry: u64 = a as u64;
        let mut i: usize = 0;
        proof {
            lemma_weight(0);
            assert(carry * weight(0) == carry && low(was, 0) * m == 0) by (nonlinear_arith)
                requires
                    weight(0) == 1,
                    low(was, 0) == 0,
            ;
        }
        while i < self.limbs.len()
            invariant
                i <= self.limbs.len(),
                self.limbs@.len() == was.len(),
                carry < limb_base(),
                forall|j: int| i <= j < was.len() ==> self.limbs@[j] == was[j],
                low(self.limbs@, i as nat) + carry * weight(i as nat) == low(was, i as nat) * m + a,
            decreases self.limbs.len() - i,
        {
            let ghost before = self.limbs@;
            let d: u32 = self.limbs[i];
            assert(d * m + carry <= 0xffff_ffff * 0xffff_ffff + 0xffff_ffff) by (nonlinear_arith)
                requires
                    0 <= d <= 0xffff_ffff,
                    0 <= m <= 0xffff_ffff,
                    0 <= carry <= 0xffff_ffff,
            ;
            assert(d * m >= 0) by (nonlinear_arith)
                requires
                    0 <= d,
                    0 <= m,
            ;
            let t: u64 = (d as u64) * (m as u64) + carry;
            let l: u32 = (t % 0x1_0000_0000) as u32;
            let h: u64 = t / 0x1_0000_0000;
            self.limbs.set(i, l);
            proof {
                let k = i as nat;
                let w = weight(k) as int;
                lemma_weight(k);
                lemma_low_same(before, self.limbs@, k);
                let lb = low(before, k) as int;
                let lw = low(was, k) as int;
                assert(limb(self.limbs@, k as int) == l);
                assert(limb(was, k as int) == d);
                assert(lb + l * w + h * (limb_base() * w) == (lw + d * w) * m + a)
                    by (nonlinear_arith)
                    requires
                        lb + carry * w == lw * m + a,
                        l + limb_base() * h == d * m + carry,
                ;
            }
            carry = h;
            i = i + 1;
        }
        if carry > 0 {
            let ghost before = self.limbs@;
            self.limbs.push(carry as u32);
            proof {
                lemma_low_same(before, self.limbs@, was.len());
                assert(limb(self.limbs@, was.len() as int) == carry);
            }
        } else {
            assert(carry * weight(was.len()) == 0) by (nonlinear_arith)
                requires
                    carry == 0,
            ;
        }
    }

    /// The number is smaller than `other`.
    pub fn less(&self, other: &Big) -> (b: bool)
        ensures
            b == (self.value() < other.value()),
    {
        let n: usize = if self.limbs.len() > other.limbs.len() {
            self.limbs.len()
        } else {
            other.limbs.len()
        };
        let ghost s = self.limbs@;
        let ghost t = other.limbs@;
        proof {
            lemma_low_beyond(s, n as nat);
            lemma_low_beyond(t, n as nat);
        }
        let mut i: usize = n;
        while i > 0
            invariant
                i <= n,
                s == self.limbs@,
                t == other.limbs@,
                self.value() - low(s, i as nat) == other.value() - low(t, i as nat),
            decreases i,
        {
            i = i - 1;
            let a: u32 = self.at(i);
            let b: u32 = other.at(i);
            if a != b {
                proof {
                    let k = i as nat;
                    let w = weight(k) as int;
                    lemma_weight(k);
                    lemma_low_bound(s, k);
                    lemma_low_bound(t, k);
                    let (ls, lt) = (low(s, k) as int, low(t, k) as int);
                    if a < b {
                        assert(ls + a * w < lt + b * w) by (nonlinear_arith)
                            requires
                                a + 1 <= b,
                                0 <= ls < w,
                                0 <= lt,
                        ;
                    } else {
                        assert(lt + b * w < ls + a * w) by (nonlinear_arith)
                            requires
                                b + 1 <= a,
                                0 <= lt < w,
                                0 <= ls,
                        ;
                    }
                }
                return a < b;
            }
        }
        false
    }

    /// Takes `other` away.
    pub fn subtract(&mut self, other: &Big)
        requires
            other.value() <= old(self).value(),
        ensures
            final(self).value() == old(self).value() - other.value(),
    {
        let ghost t = other.limbs@;
        while self.limbs.len() < other.limbs.len()
            invariant
                self.value() == old(self).value(),
                t == other.limbs@,
            decreases other.limbs.len() - self.limbs.len(),
        {
            let ghost before = self.limbs@;
            self.limbs.push(0);
            proof {
                lemma_low_same(before, self.limbs@, self.limbs@.len());
                lemma_low_beyond(before, self.limbs@.len());
            }
        }
        let ghost s = self.limbs@;
        let mut borrow: u32 = 0;
        let mut i: usize = 0;
        while i < self.limbs.len()
            invariant
                i <= self.limbs.len(),
                self.limbs@.len() == s.len(),
                t == other.limbs@,
                borrow <= 1,
                forall|j: int| i <= j < s.len() ==> self.limbs@[j] == s[j],
                low(self.limbs@, i as nat) - borrow * weight(i as nat) == low(s, i as nat) - low(
                    t,
                    i as nat,
                ),
            decreases self.limbs.len() - i,
        {
            let ghost before = self.limbs@;
            let a: u64 = self.limbs[i] as u64;
            let b: u64 = other.at(i) as u64 + borrow as u64;
            let (d, out): (u32, u32) = if a >= b {
                ((a - b) as u32, 0)
            } else {
                ((a + 0x1_0000_0000 - b) as u32, 1)
            };
            self.limbs.set(i, d);
            proof {
                let k = i as nat;
                let w = weight(k) as int;
                lemma_weight(k);
                lemma_low_same(before, self.limbs@, k);
                let (lb, ls, lt) = (low(before, k) as int, low(s, k) as int, low(t, k) as int);
                let tb = limb(t, k as int) as int;
                assert(limb(self.limbs@, k as int) == d);
                assert(limb(s, k as int) == a);
                assert(lb + d * w - out * (limb_base() * w) == (ls + a * w) - (lt + tb * w))
                    by (nonlinear_arith)
                    requires
                        lb - borrow * w == ls - lt,
                        d - out * limb_base() == a - tb - borrow,
                ;
            }
            borrow = out;
            i = i + 1;
        }
        proof {
            let n = s.len();
            lemma_low_beyond(t, n);
            lemma_low_bound(self.limbs@, n);
            assert(borrow == 0) by (nonlinear_arith)
                requires
                    low(self.limbs@, n) - borrow * weight(n) >= 0,
                    low(self.limbs@, n) < weight(n),
                    borrow <= 1,
            ;
        }
    }

    /// The number as a machine word, if it fits.
    pub fn to_u64(&self) -> (r: Option<u64>)
        ensures
            r is Some <==> self.value() <= u64::MAX,
            r is Some ==> r->0 == self.value(),
    {
        let ghost s = self.limbs@;
        let ghost n = s.len();
        proof {
            lemma_weight(0);
            lemma_weight(1);
        }
        let mut i: usize = 2;
        while i < self.limbs.len()
            invariant
                2 <= i,
                s == self.limbs@,
                n == s.len(),
                weight(2) == 0x1_0000_0000_0000_0000,
                forall|j: int| 2 <= j < i && j < n ==> s[j] == 0,
            decreases self.limbs.len() - i,
        {
            if self.limbs[i] != 0 {
                proof {
                    lemma_low_no_less(s, i as nat, n);
                    lemma_weight_order(2, i as nat);
                    let (d, w) = (limb(s, i as int) as int, weight(i as nat) as int);
                    assert(d * w >= w) by (nonlinear_arith)
                        requires
                            d >= 1,
                            w >= 0,
                    ;
                }
                return None;
            }
            i = i + 1;
        }
        let low_limb: u32 = self.at(0);
        let high_limb: u32 = self.at(1);
        proof {
            let m: nat = if n > 2 {
                n
            } else {
                2
            };
            lemma_low_beyond(s, m);
            lemma_low_zeros(s, 2, m);
            reveal_with_fuel(low, 3);
            assert(limb(s, 0) * weight(0) == limb(s, 0)) by (nonlinear_arith)
                requires
                    weight(0) == 1,
            ;
            assert(weight(1) == 0x1_0000_0000);
            assert(low(s, 2) == limb(s, 0) + limb(s, 1) * 0x1_0000_0000);
        }
        Some(low_limb as u64 + high_limb as u64 * 0x1_0000_0000)
    }

    /// A copy.
    pub fn copy(&self) -> (r: Big)
        ensures
            r.value() == self.value(),
    {
        let mut limbs: Vec<u32> = Vec::new();
        let mut i: usize = 0;
        while i < self.limbs.len()
            invariant
                i <= self.limbs.len(),
                limbs@ == self.limbs@.take(i as int),
            decreases self.limbs.len() - i,
        {
            limbs.push(self.limbs[i]);
            i = i + 1;
            assert(self.limbs@.take(i as int) == self.limbs@.take(i - 1).push(self.limbs@[i - 1]));
        }
        assert(self.limbs@.take(i as int) == self.limbs@);
        Big { limbs }
    }
}

} // verus!
