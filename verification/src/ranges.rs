//! How a transfer of known size is divided among its streams.

use crate::proto::Range;
use vstd::arithmetic::div_mod::{lemma_fundamental_div_mod, lemma_fundamental_div_mod_converse};
use vstd::arithmetic::mul::{
    lemma_mul_inequality, lemma_mul_is_commutative, lemma_mul_is_distributive_add,
};
use vstd::prelude::*;

verus! {

/// How many of `k` things the `i`th of `n` takes when they are dealt out as
/// evenly as they can be, the first ones taking one more.
pub open spec fn share(k: int, n: int, i: int) -> int {
    k / n + if i < k % n {
        1int
    } else {
        0
    }
}

/// How many of the `k` things go to the first `i` of `n`.
pub open spec fn share_before(k: int, n: int, i: int) -> int {
    i * (k / n) + if i < k % n {
        i
    } else {
        k % n
    }
}

/// The ranges follow each other without a gap, from 0 up to `total`.
pub open spec fn tiles(ranges: Seq<Range>, total: int) -> bool {
    &&& ranges.len() > 0
    &&& ranges[0].offset == 0
    &&& forall|i: int, j: int|
        #![trigger ranges[i], ranges[j]]
        0 <= i && j == i + 1 && j < ranges.len() ==> ranges[i].offset + ranges[i].length
            == ranges[j].offset
    &&& ranges.last().offset + ranges.last().length == total
}

/// `p` is a position in the range `r`.
pub open spec fn in_range(r: Range, p: int) -> bool {
    r.offset <= p < r.offset + r.length
}

/// The lengths of the ranges, added up.
pub open spec fn total_length(ranges: Seq<Range>) -> int
    decreases ranges.len(),
{
    if ranges.len() == 0 {
        0
    } else {
        total_length(ranges.drop_last()) + ranges.last().length
    }
}

proof fn lemma_share_step(k: int, n: int, i: int)
    requires
        n > 0,
        k >= 0,
        0 <= i < n,
    ensures
        share_before(k, n, 0) == 0,
        share_before(k, n, i + 1) == share_before(k, n, i) + share(k, n, i),
        share(k, n, i) >= 0,
        share_before(k, n, i) >= 0,
        share_before(k, n, n) == k,
        share_before(k, n, i) <= k,
        share_before(k, n, i + 1) <= k,
{
    let q = k / n;
    let r = k % n;
    lemma_fundamental_div_mod(k, n);
    assert(q >= 0) by (nonlinear_arith)
        requires
            q == k / n,
            k >= 0,
            n > 0,
    ;
    lemma_mul_is_distributive_add(q, i, 1);
    lemma_mul_is_commutative(q, i + 1);
    lemma_mul_is_commutative(q, i);
    assert((i + 1) * q == i * q + q);
    assert(0 * q == 0);
    lemma_mul_inequality(0, i, q);
    lemma_mul_inequality(i, n, q);
    lemma_mul_inequality(i + 1, n, q);
}

/// Divides `total` bytes into `n` ranges whose lengths differ by at most one.
pub fn compute_ranges(total: u64, n: u32) -> (out: Vec<Range>)
    requires
        n > 0,
    ensures
        out@.len() == n,
        forall|i: int|
            0 <= i < n ==> {
                &&& (#[trigger] out@[i]).offset == share_before(total as int, n as int, i)
                &&& out@[i].length == share(total as int, n as int, i)
            },
        tiles(out@, total as int),
        out@[0].offset == 0,
        forall|i: int, j: int|
            #![trigger out@[i], out@[j]]
            0 <= i && j == i + 1 && j < n ==> out@[j].offset == out@[i].offset + out@[i].length,
        out@[n - 1].offset + out@[n - 1].length == total,
        forall|i: int, j: int|
            0 <= i <= j < n ==> (#[trigger] out@[j]).length <= (#[trigger] out@[i]).length
                <= out@[j].length + 1,
{
    let n: u64 = n as u64;
    let base: u64 = total / n;
    let rem: u64 = total % n;
    let mut out: Vec<Range> = Vec::with_capacity(n as usize);
    let mut off: u64 = 0;
    let mut i: u64 = 0;
    proof {
        lemma_share_step(total as int, n as int, 0);
    }
    while i < n
        invariant
            n > 0,
            i <= n,
            base == total / n,
            rem == total % n,
            out@.len() == i,
            off == share_before(total as int, n as int, i as int),
            forall|j: int|
                0 <= j < i ==> {
                    &&& (#[trigger] out@[j]).offset == share_before(total as int, n as int, j)
                    &&& out@[j].length == share(total as int, n as int, j)
                },
        decreases n - i,
    {
        proof {
            lemma_share_step(total as int, n as int, i as int);
        }
        let len: u64 = base + if i < rem {
            1u64
        } else {
            0
        };
        out.push(Range { offset: off, length: len });
        off = off + len;
        i = i + 1;
    }
    proof {
        assert forall|i: int, j: int|
            #![trigger out@[i], out@[j]]
            0 <= i && j == i + 1 && j < out@.len() implies out@[i].offset + out@[i].length
            == out@[j].offset by {
            lemma_share_step(total as int, n as int, i);
        }
        lemma_share_step(total as int, n as int, n - 1);
        assert forall|i: int, j: int| 0 <= i <= j < n implies (#[trigger] out@[j]).length <= (
        #[trigger] out@[i]).length <= out@[j].length + 1 by {
            law_split_is_even(total as int, n as int, i, j);
        }
    }
    out
}

/// Like [`compute_ranges`], but every offset is a multiple of `align`, and so
/// is every length but the last, which takes what is left below a multiple.
pub fn compute_ranges_aligned(total: u64, n: u32, align: u64) -> (out: Vec<Range>)
    requires
        n > 0,
        align > 0,
    ensures
        out@.len() == n,
        forall|i: int|
            0 <= i < n ==> {
                &&& (#[trigger] out@[i]).offset == align * share_before(
                    total as int / align as int,
                    n as int,
                    i,
                )
                &&& out@[i].length == align * share(total as int / align as int, n as int, i) + if i
                    == n - 1 {
                    total as int % align as int
                } else {
                    0
                }
            },
        tiles(out@, total as int),
        out@[0].offset == 0,
        forall|i: int, j: int|
            #![trigger out@[i], out@[j]]
            0 <= i && j == i + 1 && j < n ==> out@[j].offset == out@[i].offset + out@[i].length,
        out@[n - 1].offset + out@[n - 1].length == total,
        forall|i: int| 0 <= i < n ==> (#[trigger] out@[i]).offset % align == 0,
        forall|i: int| 0 <= i < n - 1 ==> (#[trigger] out@[i]).length % align == 0,
        forall|i: int, j: int|
            0 <= i <= j < n - 1 ==> (#[trigger] out@[j]).length <= (#[trigger] out@[i]).length
                <= out@[j].length + align,
        forall|i: int|
            0 <= i < n ==> (#[trigger] out@[n - 1]).length - align < (#[trigger] out@[i]).length
                <= out@[n - 1].length + align,
{
    let n: u64 = n as u64;
    let ghost k: int = total as int / align as int;
    proof {
        lemma_fundamental_div_mod(total as int, align as int);
        lemma_mul_is_commutative(align as int, k);
        assert(k >= 0) by (nonlinear_arith)
            requires
                k == total as int / align as int,
                align > 0,
        ;
        lemma_fundamental_div_mod_converse(align * k, align as int, k, 0);
        lemma_share_step(k, n as int, 0);
    }
    let aligned_total: u64 = (total / align) * align;
    let base_blocks: u64 = (aligned_total / align) / n;
    let rem_blocks: u64 = (aligned_total / align) % n;
    let mut out: Vec<Range> = Vec::with_capacity(n as usize);
    let mut off: u64 = 0;
    let mut i: u64 = 0;
    while i < n
        invariant
            n > 0,
            align > 0,
            i <= n,
            k >= 0,
            align * k == aligned_total,
            base_blocks == k / n as int,
            rem_blocks == k % n as int,
            out@.len() == i,
            off == align * share_before(k, n as int, i as int),
            forall|j: int|
                0 <= j < i ==> {
                    &&& (#[trigger] out@[j]).offset == align * share_before(k, n as int, j)
                    &&& out@[j].length == align * share(k, n as int, j)
                },
        decreases n - i,
    {
        proof {
            let a = align as int;
            let before = share_before(k, n as int, i as int);
            let mine = share(k, n as int, i as int);
            lemma_share_step(k, n as int, i as int);
            lemma_mul_is_distributive_add(a, before, mine);
            lemma_mul_inequality(before + mine, k, a);
            lemma_mul_inequality(0, mine, a);
            lemma_mul_inequality(0, before, a);
            lemma_mul_is_commutative(a, before + mine);
            lemma_mul_is_commutative(a, mine);
            lemma_mul_is_commutative(a, before);
            lemma_mul_is_commutative(a, k);
            lemma_mul_inequality(1, a, mine);
        }
        let blocks: u64 = base_blocks + if i < rem_blocks {
            1u64
        } else {
            0
        };
        let len: u64 = blocks * align;
        out.push(Range { offset: off, length: len });
        off = off + len;
        i = i + 1;
    }
    let ghost even = out@;
    let last: usize = out.len() - 1;
    let tail: Range = out[last];
    proof {
        let a = align as int;
        let before = share_before(k, n as int, n - 1);
        let mine = share(k, n as int, n - 1);
        lemma_share_step(k, n as int, n - 1);
        lemma_mul_is_distributive_add(a, before, mine);
        assert(tail.offset + tail.length == aligned_total);
    }
    out[last] = Range { offset: tail.offset, length: tail.length + (total - aligned_total) };
    proof {
        assert forall|i: int, j: int|
            #![trigger out@[i], out@[j]]
            0 <= i && j == i + 1 && j < out@.len() implies out@[i].offset + out@[i].length
            == out@[j].offset by {
            lemma_share_step(k, n as int, i);
            lemma_mul_is_distributive_add(
                align as int,
                share_before(k, n as int, i),
                share(k, n as int, i),
            );
            assert(out@[i] == even[i]);
            assert(out@[j].offset == even[j].offset);
        }
        lemma_share_step(k, n as int, 0);
        assert(out@[0].offset == even[0].offset);
        assert(align * 0 == 0) by (nonlinear_arith);
        let a = align as int;
        assert forall|i: int| 0 <= i < n implies #[trigger] out@[i].offset % align == 0 by {
            law_aligned_split_is_aligned(total as int, n as int, a, i);
            assert(out@[i].offset == even[i].offset);
        }
        assert forall|i: int| 0 <= i < n - 1 implies #[trigger] out@[i].length % align == 0 by {
            law_aligned_split_is_aligned(total as int, n as int, a, i);
            assert(out@[i].length == even[i].length);
        }
        assert forall|i: int, j: int| 0 <= i <= j < n implies #[trigger] even[j].length
            <= #[trigger] even[i].length <= even[j].length + align by {
            law_split_is_even(k, n as int, i, j);
            let (x, y) = (share(k, n as int, i), share(k, n as int, j));
            assert(a * y <= a * x <= a * y + a) by (nonlinear_arith)
                requires
                    y <= x <= y + 1,
                    a > 0,
            ;
        }
        assert forall|i: int, j: int| 0 <= i <= j < n - 1 implies (#[trigger] out@[j]).length <= (
        #[trigger] out@[i]).length <= out@[j].length + align by {
            assert(out@[i] == even[i] && out@[j] == even[j]);
        }
        assert forall|i: int| 0 <= i < n implies (#[trigger] out@[n - 1]).length - align < (
        #[trigger] out@[i]).length <= out@[n - 1].length + align by {
            assert(even[n - 1].length <= even[i].length <= even[n - 1].length + align);
            assert(total - aligned_total < align);
            assert(i < n - 1 ==> out@[i] == even[i]);
        }
    }
    out
}

/// An even split gives no one more than one more than anyone else, and the
/// larger shares come first.
pub proof fn law_split_is_even(k: int, n: int, i: int, j: int)
    requires
        n > 0,
        k >= 0,
        0 <= i <= j < n,
    ensures
        share(k, n, j) <= share(k, n, i) <= share(k, n, j) + 1,
{
}

/// Ranges that tile lie in order: what comes later starts where everything
/// before it has ended.
proof fn lemma_tiles_ordered(ranges: Seq<Range>, total: int, i: int, j: int)
    requires
        tiles(ranges, total),
        0 <= i < j < ranges.len(),
    ensures
        ranges[i].offset + ranges[i].length <= ranges[j].offset,
    decreases j - i,
{
    if j > i + 1 {
        lemma_tiles_ordered(ranges, total, i, j - 1);
        assert(ranges[j - 1].offset + ranges[j - 1].length == ranges[j].offset);
    }
}

/// Every position below `total` lies in exactly one of the ranges that tile it.
pub proof fn law_tiles_have_one_owner(ranges: Seq<Range>, total: int, p: int)
    requires
        tiles(ranges, total),
        0 <= p < total,
    ensures
        exists|i: int| 0 <= i < ranges.len() && #[trigger] in_range(ranges[i], p),
        forall|i: int, j: int|
            0 <= i < ranges.len() && 0 <= j < ranges.len() && #[trigger] in_range(ranges[i], p)
                && #[trigger] in_range(ranges[j], p) ==> i == j,
{
    lemma_tiles_covers_below(ranges, total, p, ranges.len() - 1);
    assert forall|i: int, j: int|
        0 <= i < ranges.len() && 0 <= j < ranges.len() && #[trigger] in_range(ranges[i], p)
            && #[trigger] in_range(ranges[j], p) implies i == j by {
        if i < j {
            lemma_tiles_ordered(ranges, total, i, j);
        } else if j < i {
            lemma_tiles_ordered(ranges, total, j, i);
        }
    }
}

proof fn lemma_tiles_covers_below(ranges: Seq<Range>, total: int, p: int, k: int)
    requires
        tiles(ranges, total),
        0 <= k < ranges.len(),
        0 <= p < ranges[k].offset + ranges[k].length,
    ensures
        exists|i: int| 0 <= i < ranges.len() && #[trigger] in_range(ranges[i], p),
    decreases k,
{
    if p >= ranges[k].offset {
        assert(in_range(ranges[k], p));
    } else {
        assert(ranges[k - 1].offset + ranges[k - 1].length == ranges[k].offset);
        lemma_tiles_covers_below(ranges, total, p, k - 1);
    }
}

/// The lengths of ranges that tile `total` add up to `total`.
pub proof fn law_tiles_add_up(ranges: Seq<Range>, total: int)
    requires
        tiles(ranges, total),
    ensures
        total_length(ranges) == total,
{
    lemma_tiles_prefix_adds_up(ranges, total, ranges.len() as int);
    assert(ranges.take(ranges.len() as int) =~= ranges);
}

proof fn lemma_tiles_prefix_adds_up(ranges: Seq<Range>, total: int, k: int)
    requires
        tiles(ranges, total),
        0 < k <= ranges.len(),
    ensures
        total_length(ranges.take(k)) == ranges[k - 1].offset + ranges[k - 1].length,
    decreases k,
{
    assert(ranges.take(k).drop_last() =~= ranges.take(k - 1));
    if k == 1 {
        assert(total_length(ranges.take(0)) == 0);
    } else {
        lemma_tiles_prefix_adds_up(ranges, total, k - 1);
        assert(ranges[k - 2].offset + ranges[k - 2].length == ranges[k - 1].offset);
    }
}

/// Under an aligned split, every offset is a multiple of the alignment, and so
/// is every length but the last.
pub proof fn law_aligned_split_is_aligned(total: int, n: int, align: int, i: int)
    requires
        n > 0,
        align > 0,
        total >= 0,
        0 <= i < n,
    ensures
        (align * share_before(total / align, n, i)) % align == 0,
        (align * share(total / align, n, i)) % align == 0,
{
    let before = share_before(total / align, n, i);
    let mine = share(total / align, n, i);
    lemma_mul_is_commutative(align, before);
    lemma_mul_is_commutative(align, mine);
    lemma_fundamental_div_mod_converse(align * before, align, before, 0);
    lemma_fundamental_div_mod_converse(align * mine, align, mine, 0);
}

} // verus!
