//! What a set of positioned writes leaves in the output.
//!
//! The data processes write in parallel, each at its own offsets, so the
//! writes reach the output in an order that nobody controls. The laws here say
//! that the order does not matter.

use crate::proto::Range;
use crate::ranges::{in_range, law_tiles_have_one_owner, tiles};
use vstd::prelude::*;

verus! {

/// One positioned write: `data` at the position `at` of the output.
pub struct Placed {
    pub at: int,
    pub data: Seq<u8>,
}

impl Placed {
    /// The write sets the byte at `p`.
    pub open spec fn sets(self, p: int) -> bool {
        self.at <= p < self.at + self.data.len()
    }

    /// The write holds what `source` holds at the same place.
    pub open spec fn agrees(self, source: Seq<u8>) -> bool {
        &&& 0 <= self.at
        &&& self.at + self.data.len() <= source.len()
        &&& self.data == source.subrange(self.at, self.at + self.data.len())
    }
}

/// The output after one write: it grows if it has to, and a gap reads as zeros.
pub open spec fn pwrite(file: Seq<u8>, w: Placed) -> Seq<u8> {
    if w.data.len() == 0 {
        file
    } else {
        Seq::new(
            if file.len() < w.at + w.data.len() {
                (w.at + w.data.len()) as nat
            } else {
                file.len()
            },
            |p: int|
                if w.sets(p) {
                    w.data[p - w.at]
                } else if p < file.len() {
                    file[p]
                } else {
                    0u8
                },
        )
    }
}

/// The output after the writes `ws`, in order.
pub open spec fn apply(file: Seq<u8>, ws: Seq<Placed>) -> Seq<u8>
    decreases ws.len(),
{
    if ws.len() == 0 {
        file
    } else {
        pwrite(apply(file, ws.drop_last()), ws.last())
    }
}

/// Some write among `ws` sets the byte at `p`.
pub open spec fn covered(ws: Seq<Placed>, p: int) -> bool {
    exists|i: int| 0 <= i < ws.len() && (#[trigger] ws[i]).sets(p)
}

/// `file` with its first bytes replaced by `source`; what lies beyond stays.
pub open spec fn delivered(file: Seq<u8>, source: Seq<u8>) -> Seq<u8> {
    if file.len() <= source.len() {
        source
    } else {
        source + file.skip(source.len() as int)
    }
}

/// The bytes of the chunks, one after another.
pub open spec fn joined(chunks: Seq<Seq<u8>>) -> Seq<u8>
    decreases chunks.len(),
{
    if chunks.len() == 0 {
        Seq::empty()
    } else {
        joined(chunks.drop_last()) + chunks.last()
    }
}

/// The writes that place the chunks one after another, from `offset` on.
pub open spec fn consecutive(offset: int, chunks: Seq<Seq<u8>>) -> Seq<Placed>
    decreases chunks.len(),
{
    if chunks.len() == 0 {
        Seq::empty()
    } else {
        consecutive(offset, chunks.drop_last()).push(
            Placed { at: offset + joined(chunks.drop_last()).len(), data: chunks.last() },
        )
    }
}

/// What each position holds after writes that all agree with `source`.
proof fn lemma_apply_agreeing(file: Seq<u8>, source: Seq<u8>, ws: Seq<Placed>)
    requires
        forall|i: int| 0 <= i < ws.len() ==> (#[trigger] ws[i]).agrees(source),
    ensures
        file.len() <= apply(file, ws).len(),
        apply(file, ws).len() <= file.len() || apply(file, ws).len() <= source.len(),
        forall|p: int| #[trigger] covered(ws, p) ==> 0 <= p < apply(file, ws).len() && p < source.len(),
        forall|p: int|
            0 <= p < apply(file, ws).len() ==> #[trigger] apply(file, ws)[p] == if covered(ws, p) {
                source[p]
            } else if p < file.len() {
                file[p]
            } else {
                0u8
            },
    decreases ws.len(),
{
    if ws.len() > 0 {
        let before = ws.drop_last();
        let w = ws.last();
        assert forall|i: int| 0 <= i < before.len() implies (#[trigger] before[i]).agrees(source) by {
            assert(before[i] == ws[i]);
        }
        lemma_apply_agreeing(file, source, before);
        assert(ws[ws.len() - 1].agrees(source));
        assert forall|p: int| #[trigger] covered(ws, p) == (covered(before, p) || w.sets(p)) by {
            if covered(before, p) {
                let i = choose|i: int| 0 <= i < before.len() && (#[trigger] before[i]).sets(p);
                assert(ws[i].sets(p));
            }
            if w.sets(p) {
                assert(ws[ws.len() - 1].sets(p));
            }
            if covered(ws, p) && !w.sets(p) {
                let i = choose|i: int| 0 <= i < ws.len() && (#[trigger] ws[i]).sets(p);
                assert(before[i].sets(p));
            }
        }
    }
}

/// Writes that each hold what the source holds at their place, and that
/// together reach every position of the source, leave the source in the
/// output, in whatever order they are made and however they overlap.
pub proof fn law_covering_writes_deliver(file: Seq<u8>, source: Seq<u8>, ws: Seq<Placed>)
    requires
        forall|i: int| 0 <= i < ws.len() ==> (#[trigger] ws[i]).agrees(source),
        forall|p: int| 0 <= p < source.len() ==> #[trigger] covered(ws, p),
    ensures
        apply(file, ws) == delivered(file, source),
{
    lemma_apply_agreeing(file, source, ws);
    let out = apply(file, ws);
    if source.len() > 0 {
        assert(covered(ws, source.len() - 1));
    }
    assert forall|p: int| source.len() <= p < out.len() implies !covered(ws, p) by {
        if covered(ws, p) {
            let i = choose|i: int| 0 <= i < ws.len() && (#[trigger] ws[i]).sets(p);
            assert(ws[i].agrees(source));
        }
    }
    assert forall|p: int| 0 <= p < out.len() implies out[p] == delivered(file, source)[p] by {
        if p < source.len() {
            assert(covered(ws, p));
        }
    }
    assert(out =~= delivered(file, source));
}

/// Chunks written one after another set exactly the positions of the joined
/// bytes, each to its byte.
pub proof fn lemma_consecutive(offset: int, chunks: Seq<Seq<u8>>)
    ensures
        consecutive(offset, chunks).len() == chunks.len(),
        forall|i: int|
            0 <= i < consecutive(offset, chunks).len() ==> {
                let w = #[trigger] consecutive(offset, chunks)[i];
                &&& w.data == chunks[i]
                &&& offset <= w.at
                &&& w.at + w.data.len() <= offset + joined(chunks).len()
                &&& w.data == joined(chunks).subrange(
                    w.at - offset,
                    w.at - offset + w.data.len(),
                )
            },
        forall|p: int|
            offset <= p < offset + joined(chunks).len() ==> #[trigger] covered(
                consecutive(offset, chunks),
                p,
            ),
    decreases chunks.len(),
{
    if chunks.len() > 0 {
        let before = chunks.drop_last();
        lemma_consecutive(offset, before);
        let old_ws = consecutive(offset, before);
        let ws = consecutive(offset, chunks);
        let n = old_ws.len();
        let all = joined(chunks);
        assert forall|i: int| 0 <= i < ws.len() implies {
            let w = #[trigger] ws[i];
            &&& w.data == chunks[i]
            &&& offset <= w.at
            &&& w.at + w.data.len() <= offset + all.len()
            &&& w.data == all.subrange(w.at - offset, w.at - offset + w.data.len())
        } by {
            let w = ws[i];
            if i < n {
                assert(w == old_ws[i]);
                assert(joined(before).subrange(w.at - offset, w.at - offset + w.data.len())
                    =~= all.subrange(w.at - offset, w.at - offset + w.data.len()));
            } else {
                assert(w.data =~= all.subrange(w.at - offset, w.at - offset + w.data.len()));
            }
        }
        assert forall|p: int| offset <= p < offset + all.len() implies #[trigger] covered(ws, p) by {
            if p < offset + joined(before).len() {
                assert(covered(old_ws, p));
                let i = choose|i: int| 0 <= i < old_ws.len() && (#[trigger] old_ws[i]).sets(p);
                assert(ws[i].sets(p));
            } else {
                assert(ws[n as int].sets(p));
            }
        }
    }
}

/// One of the streams writes `w`: each writes its chunks one after another,
/// from the start of its range.
pub open spec fn some_stream_writes(
    ranges: Seq<Range>,
    chunks: Seq<Seq<Seq<u8>>>,
    w: Placed,
) -> bool {
    exists|i: int|
        0 <= i < ranges.len() && consecutive(
            ranges[i].offset as int,
            #[trigger] chunks[i],
        ).contains(w)
}

/// Range mode delivers the source: where the ranges tile it, each stream
/// writes the bytes of its own range one chunk after another, in chunks of any
/// size, and the writes of all streams reach the output in any order.
pub proof fn law_range_mode_delivers(
    file: Seq<u8>,
    source: Seq<u8>,
    ranges: Seq<Range>,
    chunks: Seq<Seq<Seq<u8>>>,
    ws: Seq<Placed>,
)
    requires
        tiles(ranges, source.len() as int),
        chunks.len() == ranges.len(),
        forall|i: int|
            0 <= i < ranges.len() ==> joined(#[trigger] chunks[i]) == source.subrange(
                ranges[i].offset as int,
                ranges[i].offset + ranges[i].length,
            ),
        forall|j: int| 0 <= j < ws.len() ==> some_stream_writes(ranges, chunks, #[trigger] ws[j]),
        forall|i: int, w: Placed|
            0 <= i < ranges.len() && #[trigger] consecutive(
                ranges[i].offset as int,
                chunks[i],
            ).contains(w) ==> ws.contains(w),
    ensures
        apply(file, ws) == delivered(file, source),
{
    assert forall|i: int| 0 <= i < ranges.len() implies (#[trigger] ranges[i]).offset
        + ranges[i].length <= source.len() by {
        lemma_tile_ends_inside(ranges, source.len() as int, i);
    }
    assert forall|j: int| 0 <= j < ws.len() implies (#[trigger] ws[j]).agrees(source) by {
        assert(some_stream_writes(ranges, chunks, ws[j]));
        let i = choose|i: int|
            0 <= i < ranges.len() && consecutive(
                ranges[i].offset as int,
                #[trigger] chunks[i],
            ).contains(ws[j]);
        let off = ranges[i].offset as int;
        lemma_consecutive(off, chunks[i]);
        let k = consecutive(off, chunks[i]).index_of(ws[j]);
        let w = consecutive(off, chunks[i])[k];
        assert(w == ws[j]);
        assert(w.data =~= source.subrange(w.at, w.at + w.data.len()));
    }
    assert forall|p: int| 0 <= p < source.len() implies #[trigger] covered(ws, p) by {
        law_tiles_have_one_owner(ranges, source.len() as int, p);
        let i = choose|i: int| 0 <= i < ranges.len() && #[trigger] in_range(ranges[i], p);
        let off = ranges[i].offset as int;
        assert(joined(chunks[i]).len() == ranges[i].length);
        lemma_consecutive(off, chunks[i]);
        let mine = consecutive(off, chunks[i]);
        assert(covered(mine, p));
        let k = choose|k: int| 0 <= k < mine.len() && (#[trigger] mine[k]).sets(p);
        assert(mine.contains(mine[k]));
        assert(ws.contains(mine[k]));
        let j = ws.index_of(mine[k]);
        assert(ws[j].sets(p));
    }
    law_covering_writes_deliver(file, source, ws);
}

proof fn lemma_tile_ends_inside(ranges: Seq<Range>, total: int, i: int)
    requires
        tiles(ranges, total),
        0 <= i < ranges.len(),
    ensures
        ranges[i].offset + ranges[i].length <= total,
    decreases ranges.len() - i,
{
    if i + 1 < ranges.len() {
        lemma_tile_ends_inside(ranges, total, i + 1);
        assert(ranges[i].offset + ranges[i].length == ranges[i + 1].offset);
    }
}

/// Framed mode delivers the source: where it is cut into chunks that follow
/// each other, and the chunks are written, each at its own offset, in any
/// order, whichever stream took which.
pub proof fn law_framed_mode_delivers(
    file: Seq<u8>,
    source: Seq<u8>,
    chunks: Seq<Seq<u8>>,
    ws: Seq<Placed>,
)
    requires
        joined(chunks) == source,
        forall|j: int|
            0 <= j < ws.len() ==> consecutive(0, chunks).contains(#[trigger] ws[j]),
        forall|w: Placed| #[trigger] consecutive(0, chunks).contains(w) ==> ws.contains(w),
    ensures
        apply(file, ws) == delivered(file, source),
{
    let all = consecutive(0, chunks);
    lemma_consecutive(0, chunks);
    assert forall|j: int| 0 <= j < ws.len() implies (#[trigger] ws[j]).agrees(source) by {
        let k = all.index_of(ws[j]);
        assert(all[k] == ws[j]);
    }
    assert forall|p: int| 0 <= p < source.len() implies #[trigger] covered(ws, p) by {
        assert(covered(all, p));
        let k = choose|k: int| 0 <= k < all.len() && (#[trigger] all[k]).sets(p);
        assert(all.contains(all[k]));
        let j = ws.index_of(all[k]);
        assert(ws[j].sets(p));
    }
    law_covering_writes_deliver(file, source, ws);
}

} // verus!
