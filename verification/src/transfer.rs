//! What holds of a transfer from end to end.

use crate::crc::stream_crc;
use crate::framed::placed_len;
use crate::output::{
    apply, consecutive, covered, delivered, joined, law_covering_writes_deliver,
    law_framed_mode_delivers, law_range_mode_delivers, lemma_consecutive, some_stream_writes,
    Placed,
};
use crate::proto::{CtrlMsg, Manifest, Mode, Range};
use crate::ranges::{law_tiles_add_up, tiles};
use crate::recv_ctrl::{
    crc_of_stream, has_report, law_acknowledged_range_transfer_is_whole,
    law_stream_gets_its_range, lemma_one_report_each, lemma_reported, output_plan, reported_crcs,
    totals, verified, CtrlState, OutputPlan, StreamReport, MISSING_CRC,
};
use crate::recv_range::{RangeRx, RangeStep};
use crate::send::{
    law_whole_ranges_are_the_whole_input, outcome, sent_bytes, Acked, LastReply, SendError,
};
use crate::send_range::{RangeTx, SendStep};
use vstd::prelude::*;
use vstd::seq_lib::{to_multiset_contains, to_multiset_remove};

verus! {

/// The bytes of `source` in a range.
pub open spec fn part(source: Seq<u8>, r: Range) -> Seq<u8> {
    source.subrange(r.offset as int, r.offset + r.length)
}

/// What a stream of the sender ends with, if it has sent its whole range.
pub open spec fn sent(source: Seq<u8>, r: Range, no_crc: bool) -> (u64, u32) {
    (r.length, stream_crc(no_crc, part(source, r)))
}

/// The reports are those of data processes that wrote their whole ranges of
/// `source`: one for each range, in any order.
pub open spec fn all_wrote(
    reports: Seq<StreamReport>,
    ranges: Seq<Range>,
    source: Seq<u8>,
    no_crc: bool,
) -> bool {
    &&& reports.len() == ranges.len()
    &&& forall|i: int|
        0 <= i < ranges.len() ==> has_report(reports, i, (#[trigger] ranges[i]).length)
    &&& forall|k: int|
        0 <= k < reports.len() ==> {
            let id = (#[trigger] reports[k]).stats.stream_id;
            &&& id < ranges.len()
            &&& (reports[k].stats.bytes, reports[k].crc) == sent(source, ranges[id as int], no_crc)
        }
}

proof fn lemma_crc_reported(reports: Seq<StreamReport>, id: u32, crc: u32)
    requires
        exists|k: int| 0 <= k < reports.len() && (#[trigger] reports[k]).stats.stream_id == id,
        forall|k: int|
            0 <= k < reports.len() && (#[trigger] reports[k]).stats.stream_id == id
                ==> reports[k].crc == crc,
    ensures
        crc_of_stream(reports, id) == crc,
    decreases reports.len(),
{
    let before = reports.drop_last();
    if reports.last().stats.stream_id == id {
        assert(reports[reports.len() - 1].crc == crc);
    } else {
        let k = choose|k: int|
            0 <= k < reports.len() && (#[trigger] reports[k]).stats.stream_id == id;
        assert(before[k].stats.stream_id == id);
        assert forall|j: int| 0 <= j < before.len() && (#[trigger] before[j]).stats.stream_id
            == id implies before[j].crc == crc by {
            assert(reports[j].crc == crc);
        }
        lemma_crc_reported(before, id, crc);
        if !reported_crcs(before).dom().contains(id) {
            crate::recv_ctrl::lemma_reported(before, id);
        }
    }
}

/// A range transfer in which every stream sent its range of the source, and
/// every data process wrote it, succeeds: the receiver verifies it, with or
/// without CRCs, and acknowledges the size of the source, and the sender
/// accepts that.
pub proof fn law_undisturbed_range_transfer_succeeds(
    s: CtrlState,
    source: Seq<u8>,
    results: Seq<(u64, u32)>,
    crcs: Seq<u32>,
)
    requires
        s.manifest.mode == Mode::Range,
        s.manifest.total_size == source.len(),
        tiles(s.manifest.ranges@, source.len() as int),
        s.manifest.ranges@.len() == s.manifest.n_streams,
        results.len() == s.manifest.ranges@.len(),
        forall|i: int|
            0 <= i < results.len() ==> #[trigger] results[i] == sent(
                source,
                s.manifest.ranges@[i],
                s.manifest.no_crc,
            ),
        crcs.len() == results.len(),
        forall|i: int| 0 <= i < results.len() ==> #[trigger] crcs[i] == results[i].1,
        all_wrote(s.reports, s.manifest.ranges@, source, s.manifest.no_crc),
    ensures
        sent_bytes(results) == source.len(),
        verified(s, crcs, source.len() as u64),
        totals(s.reports).bytes == source.len(),
        outcome(
            Mode::Range,
            s.manifest.total_size,
            true,
            LastReply::Message(CtrlMsg::Done { bytes: totals(s.reports).bytes as u64 }),
        ) == Ok::<Acked, SendError>(Acked { bytes: source.len() as u64, check_exit: true }),
{
    let ranges = s.manifest.ranges@;
    law_whole_ranges_are_the_whole_input(ranges, source.len() as int, results);
    lemma_one_report_each(ranges, s.reports);
    law_tiles_add_up(ranges, source.len() as int);
    assert forall|i: int| 0 <= i < crcs.len() implies #[trigger] crcs[i] == crc_of_stream(
        s.reports,
        i as u32,
    ) by {
        assert(crcs[i] == results[i].1);
        assert(has_report(s.reports, i, ranges[i].length));
        let k = choose|k: int|
            0 <= k < s.reports.len() && (#[trigger] s.reports[k]).stats.stream_id == i
                && s.reports[k].stats.bytes == ranges[i].length;
        assert(s.reports[k].stats.stream_id == i as u32);
        lemma_crc_reported(s.reports, i as u32, results[i].1);
    }
}

/// A range transfer delivers its source: where the streams read the ranges of
/// the source to their ends, and the data processes write what the streams
/// sent, in chunks of any size and in any order, the output holds the source,
/// and both ends of each stream report its range.
pub proof fn law_range_transfer_delivers(
    file: Seq<u8>,
    source: Seq<u8>,
    ranges: Seq<Range>,
    txs: Seq<RangeTx>,
    rxs: Seq<RangeRx>,
    chunks: Seq<Seq<Seq<u8>>>,
    ws: Seq<Placed>,
)
    requires
        tiles(ranges, source.len() as int),
        txs.len() == ranges.len(),
        rxs.len() == ranges.len(),
        chunks.len() == ranges.len(),
        forall|i: int|
            0 <= i < ranges.len() ==> {
                let (tx, rx) = (#[trigger] txs[i], rxs[i]);
                &&& tx.wf()
                &&& rx.wf()
                &&& tx.offset == ranges[i].offset
                &&& tx.length == ranges[i].length
                &&& tx.step() is Finish
                &&& tx.bytes == part(source, ranges[i])
                &&& rx.offset == tx.offset
                &&& rx.length == tx.length
                &&& rx.no_crc == tx.no_crc
                &&& rx.bytes == tx.bytes
                &&& joined(chunks[i]) == rx.bytes
            },
        forall|j: int| 0 <= j < ws.len() ==> some_stream_writes(ranges, chunks, #[trigger] ws[j]),
        forall|i: int, w: Placed|
            0 <= i < ranges.len() && #[trigger] consecutive(
                ranges[i].offset as int,
                chunks[i],
            ).contains(w) ==> ws.contains(w),
    ensures
        apply(file, ws) == delivered(file, source),
        forall|i: int|
            0 <= i < ranges.len() ==> {
                let (written, crc) = sent(source, ranges[i], (#[trigger] txs[i]).no_crc);
                &&& txs[i].step() == SendStep::Finish { written, crc }
                &&& rxs[i].step() == RangeStep::Finish { written, crc }
            },
{
    assert forall|i: int| 0 <= i < ranges.len() implies joined(#[trigger] chunks[i])
        == source.subrange(ranges[i].offset as int, ranges[i].offset + ranges[i].length) by {
        assert(txs[i].bytes == part(source, ranges[i]));
    }
    law_range_mode_delivers(file, source, ranges, chunks, ws);
}

/// All writes of several streams.
pub open spec fn dealt(lanes: Seq<Seq<Placed>>) -> Seq<Placed>
    decreases lanes.len(),
{
    if lanes.len() == 0 {
        Seq::empty()
    } else {
        dealt(lanes.drop_last()) + lanes.last()
    }
}

proof fn lemma_placed_len_add(a: Seq<Placed>, b: Seq<Placed>)
    ensures
        placed_len(a + b) == placed_len(a) + placed_len(b),
    decreases b.len(),
{
    if b.len() == 0 {
        assert(a + b == a);
    } else {
        lemma_placed_len_add(a, b.drop_last());
        assert((a + b).drop_last() == a + b.drop_last());
    }
}

proof fn lemma_placed_len_without(a: Seq<Placed>, k: int)
    requires
        0 <= k < a.len(),
    ensures
        placed_len(a) == placed_len(a.remove(k)) + a[k].data.len(),
{
    let (x, y) = (a.take(k), a.skip(k + 1));
    assert(a == x + seq![a[k]] + y);
    assert(a.remove(k) == x + y);
    lemma_placed_len_add(x + seq![a[k]], y);
    lemma_placed_len_add(x, seq![a[k]]);
    lemma_placed_len_add(x, y);
    assert(seq![a[k]].drop_last() == Seq::<Placed>::empty());
    assert(placed_len(seq![a[k]].drop_last()) == 0);
}

proof fn lemma_placed_len_any_order(a: Seq<Placed>, b: Seq<Placed>)
    requires
        a.to_multiset() == b.to_multiset(),
    ensures
        placed_len(a) == placed_len(b),
    decreases a.len(),
{
    a.to_multiset_ensures();
    b.to_multiset_ensures();
    assert(a.len() == b.len());
    if a.len() > 0 {
        let i = a.len() - 1;
        let x = a[i];
        to_multiset_contains(a, x);
        to_multiset_contains(b, x);
        assert(a.contains(x));
        assert(b.contains(x));
        let k = b.index_of(x);
        to_multiset_remove(a, i);
        to_multiset_remove(b, k);
        lemma_placed_len_any_order(a.remove(i), b.remove(k));
        lemma_placed_len_without(a, i);
        lemma_placed_len_without(b, k);
    }
}

proof fn lemma_consecutive_len(offset: int, chunks: Seq<Seq<u8>>)
    ensures
        placed_len(consecutive(offset, chunks)) == joined(chunks).len(),
    decreases chunks.len(),
{
    if chunks.len() > 0 {
        lemma_consecutive_len(offset, chunks.drop_last());
        let all = consecutive(offset, chunks);
        assert(all.drop_last() == consecutive(offset, chunks.drop_last()));
    }
}

proof fn lemma_reported_bytes(reports: Seq<StreamReport>, lanes: Seq<Seq<Placed>>)
    requires
        reports.len() == lanes.len(),
        forall|k: int|
            0 <= k < lanes.len() ==> (#[trigger] reports[k]).stats.bytes == placed_len(lanes[k]),
    ensures
        totals(reports).bytes == placed_len(dealt(lanes)),
    decreases lanes.len(),
{
    if lanes.len() > 0 {
        lemma_reported_bytes(reports.drop_last(), lanes.drop_last());
        lemma_placed_len_add(dealt(lanes.drop_last()), lanes.last());
        assert(reports[lanes.len() - 1].stats.bytes == placed_len(lanes.last()));
    }
}

/// A framed transfer in which every chunk of the source was taken by one of the
/// streams, and every data process wrote the chunks of its stream, succeeds:
/// the receiver verifies it and acknowledges the size of the source, and the
/// sender accepts that. The streams (`lanes`) are listed in the order in which
/// their data processes reported.
pub proof fn law_undisturbed_framed_transfer_succeeds(
    s: CtrlState,
    source: Seq<u8>,
    chunks: Seq<Seq<u8>>,
    lanes: Seq<Seq<Placed>>,
    crcs: Seq<u32>,
)
    requires
        s.manifest.mode == Mode::Framed,
        joined(chunks) == source,
        source.len() <= u64::MAX,
        dealt(lanes).to_multiset() == consecutive(0, chunks).to_multiset(),
        s.reports.len() == lanes.len(),
        forall|k: int|
            0 <= k < lanes.len() ==> (#[trigger] s.reports[k]).stats.bytes == placed_len(lanes[k]),
    ensures
        verified(s, crcs, source.len() as u64),
        totals(s.reports).bytes == source.len(),
        outcome(
            Mode::Framed,
            s.manifest.total_size,
            true,
            LastReply::Message(CtrlMsg::Done { bytes: totals(s.reports).bytes as u64 }),
        ) == Ok::<Acked, SendError>(Acked { bytes: source.len() as u64, check_exit: true }),
{
    lemma_reported_bytes(s.reports, lanes);
    lemma_placed_len_any_order(dealt(lanes), consecutive(0, chunks));
    lemma_consecutive_len(0, chunks);
}

/// What an output holds after it was prepared: nothing of what it held, if it
/// was truncated, and zeros where its space was allocated.
pub open spec fn prepared(held: Seq<u8>, p: OutputPlan) -> Seq<u8> {
    let kept = if p.truncate {
        Seq::empty()
    } else {
        held
    };
    match p.preallocate {
        Some(n) => if n > kept.len() {
            kept + Seq::new((n - kept.len()) as nat, |i: int| 0u8)
        } else {
            kept
        },
        None => kept,
    }
}

/// What a regular file holds after a range transfer is the source, whatever the
/// file held before: its streams write their ranges of the source, in chunks of
/// any size and in any order, into the file as it was prepared.
pub proof fn law_file_holds_the_source_after_range_transfer(
    m: Manifest,
    held: Seq<u8>,
    source: Seq<u8>,
    chunks: Seq<Seq<Seq<u8>>>,
    ws: Seq<Placed>,
)
    requires
        m.mode == Mode::Range,
        m.total_size == source.len(),
        tiles(m.ranges@, source.len() as int),
        chunks.len() == m.ranges@.len(),
        forall|i: int|
            0 <= i < chunks.len() ==> joined(#[trigger] chunks[i]) == part(source, m.ranges@[i]),
        forall|j: int|
            0 <= j < ws.len() ==> some_stream_writes(m.ranges@, chunks, #[trigger] ws[j]),
        forall|i: int, w: Placed|
            0 <= i < m.ranges@.len() && #[trigger] consecutive(
                m.ranges@[i].offset as int,
                chunks[i],
            ).contains(w) ==> ws.contains(w),
    ensures
        apply(prepared(held, output_plan(m, false)), ws) == source,
{
    let file = prepared(held, output_plan(m, false));
    assert(file.len() <= source.len());
    assert forall|i: int| 0 <= i < m.ranges@.len() implies joined(#[trigger] chunks[i])
        == source.subrange(m.ranges@[i].offset as int, m.ranges@[i].offset + m.ranges@[i].length)
        by {
        assert(joined(chunks[i]) == part(source, m.ranges@[i]));
    }
    law_range_mode_delivers(file, source, m.ranges@, chunks, ws);
}

/// A device that has room holds the source after a range transfer, and behind
/// it what it held there before.
pub proof fn law_device_holds_the_source_after_range_transfer(
    m: Manifest,
    held: Seq<u8>,
    source: Seq<u8>,
    chunks: Seq<Seq<Seq<u8>>>,
    ws: Seq<Placed>,
)
    requires
        m.mode == Mode::Range,
        m.total_size == source.len(),
        match output_plan(m, true).at_least {
            Some(need) => held.len() >= need,
            None => true,
        },
        tiles(m.ranges@, source.len() as int),
        chunks.len() == m.ranges@.len(),
        forall|i: int|
            0 <= i < chunks.len() ==> joined(#[trigger] chunks[i]) == part(source, m.ranges@[i]),
        forall|j: int|
            0 <= j < ws.len() ==> some_stream_writes(m.ranges@, chunks, #[trigger] ws[j]),
        forall|i: int, w: Placed|
            0 <= i < m.ranges@.len() && #[trigger] consecutive(
                m.ranges@[i].offset as int,
                chunks[i],
            ).contains(w) ==> ws.contains(w),
    ensures
        apply(prepared(held, output_plan(m, true)), ws) == source + held.skip(source.len() as int),
{
    let file = prepared(held, output_plan(m, true));
    assert(file == held);
    assert(held.len() >= source.len());
    assert forall|i: int| 0 <= i < m.ranges@.len() implies joined(#[trigger] chunks[i])
        == source.subrange(m.ranges@[i].offset as int, m.ranges@[i].offset + m.ranges@[i].length)
        by {
        assert(joined(chunks[i]) == part(source, m.ranges@[i]));
    }
    law_range_mode_delivers(file, source, m.ranges@, chunks, ws);
    assert(held.len() == source.len() ==> source + held.skip(source.len() as int) =~= source);
}

/// What a regular file holds after a framed transfer is the source, whatever
/// the file held before: the chunks of the source are written, each at its own
/// offset and in any order, into the file as it was prepared.
pub proof fn law_file_holds_the_source_after_framed_transfer(
    m: Manifest,
    held: Seq<u8>,
    source: Seq<u8>,
    chunks: Seq<Seq<u8>>,
    ws: Seq<Placed>,
)
    requires
        m.mode == Mode::Framed,
        joined(chunks) == source,
        forall|j: int| 0 <= j < ws.len() ==> consecutive(0, chunks).contains(#[trigger] ws[j]),
        forall|w: Placed| #[trigger] consecutive(0, chunks).contains(w) ==> ws.contains(w),
    ensures
        apply(prepared(held, output_plan(m, false)), ws) == source,
{
    let file = prepared(held, output_plan(m, false));
    assert(file.len() == 0);
    law_framed_mode_delivers(file, source, chunks, ws);
}

/// A range transfer into a regular file that is acknowledged has made the file
/// equal to the source, whatever the file held before. All that is known of the
/// data processes is that each wrote what came to it of its range, from the
/// start and perhaps not to the end, and reported how much that was. (Where a
/// stream has not reported and the sender's CRC for it happens to be the one
/// that stands for a missing report, nothing is said.)
pub proof fn law_acknowledged_file_equals_the_source(
    s: CtrlState,
    held: Seq<u8>,
    source: Seq<u8>,
    chunks: Seq<Seq<Seq<u8>>>,
    ws: Seq<Placed>,
)
    requires
        s.wf(),
        s.step() is Acknowledge,
        s.manifest.mode == Mode::Range,
        s.manifest.total_size == source.len(),
        tiles(s.manifest.ranges@, source.len() as int),
        s.manifest.ranges@.len() == s.manifest.n_streams,
        forall|i: int|
            0 <= i < s.manifest.n_streams && #[trigger] s.accepted->0.crcs[i] == MISSING_CRC
                ==> reported_crcs(s.reports).dom().contains(i as u32),
        chunks.len() == s.manifest.ranges@.len(),
        forall|i: int|
            0 <= i < chunks.len() ==> {
                let got = joined(#[trigger] chunks[i]);
                &&& got.len() <= s.manifest.ranges@[i].length
                &&& got == part(source, s.manifest.ranges@[i]).take(got.len() as int)
            },
        forall|k: int|
            0 <= k < s.reports.len() && (#[trigger] s.reports[k]).stats.stream_id < chunks.len()
                ==> s.reports[k].stats.bytes == joined(
                chunks[s.reports[k].stats.stream_id as int],
            ).len(),
        forall|j: int|
            0 <= j < ws.len() ==> some_stream_writes(s.manifest.ranges@, chunks, #[trigger] ws[j]),
        forall|i: int, w: Placed|
            0 <= i < s.manifest.ranges@.len() && #[trigger] consecutive(
                s.manifest.ranges@[i].offset as int,
                chunks[i],
            ).contains(w) ==> ws.contains(w),
    ensures
        apply(prepared(held, output_plan(s.manifest, false)), ws) == source,
        totals(s.reports).bytes == source.len(),
{
    let m = s.manifest;
    law_acknowledged_range_transfer_is_whole(s);
    law_stream_gets_its_range(m.ranges@);
    assert forall|i: int| 0 <= i < chunks.len() implies joined(#[trigger] chunks[i]) == part(
        source,
        m.ranges@[i],
    ) by {
        let id = i as u32;
        assert(s.accepted->0.crcs[i] == crc_of_stream(s.reports, id));
        assert(reported_crcs(s.reports).dom().contains(id));
        lemma_reported(s.reports, id);
        let k = choose|k: int|
            0 <= k < s.reports.len() && (#[trigger] s.reports[k]).stats.stream_id == id;
        assert(s.is_whole(s.reports[k]));
        assert(crate::recv_ctrl::assignments(m.ranges@)[id] == m.ranges@[id as int]);
        let got = joined(chunks[i]);
        assert(got.len() == m.ranges@[i].length);
        lemma_range_inside(m.ranges@, source.len() as int, i);
        assert(part(source, m.ranges@[i]).take(got.len() as int) == part(source, m.ranges@[i]));
    }
    law_file_holds_the_source_after_range_transfer(m, held, source, chunks, ws);
}

proof fn lemma_range_inside(ranges: Seq<Range>, total: int, i: int)
    requires
        tiles(ranges, total),
        0 <= i < ranges.len(),
    ensures
        ranges[i].offset + ranges[i].length <= total,
    decreases ranges.len() - i,
{
    if i + 1 < ranges.len() {
        lemma_range_inside(ranges, total, i + 1);
        assert(ranges[i].offset + ranges[i].length == ranges[i + 1].offset);
    }
}

/// Some of the writes have at most the bytes of all, and what is missing among
/// them has at most the bytes that are missing.
proof fn lemma_some_of_the_writes(all: Seq<Placed>, some: Seq<Placed>, w: Placed)
    requires
        some.to_multiset().subset_of(all.to_multiset()),
    ensures
        placed_len(some) <= placed_len(all),
        all.contains(w) && !some.contains(w) ==> placed_len(some) + w.data.len() <= placed_len(all),
    decreases some.len(),
{
    all.to_multiset_ensures();
    some.to_multiset_ensures();
    lemma_placed_len_nonneg(all);
    if some.len() == 0 {
        if all.contains(w) {
            let k = all.index_of(w);
            lemma_placed_len_without(all, k);
            lemma_placed_len_nonneg(all.remove(k));
        }
    } else {
        let i = some.len() - 1;
        let x = some[i];
        to_multiset_contains(some, x);
        assert(some.contains(x));
        assert(some.to_multiset().count(x) <= all.to_multiset().count(x));
        to_multiset_contains(all, x);
        assert(all.contains(x));
        let k = all.index_of(x);
        let (a, b) = (all.remove(k), some.remove(i));
        to_multiset_remove(all, k);
        to_multiset_remove(some, i);
        assert(b.to_multiset().subset_of(a.to_multiset())) by {
            assert forall|y: Placed| b.to_multiset().count(y) <= a.to_multiset().count(y) by {
                assert(some.to_multiset().count(y) <= all.to_multiset().count(y));
            }
        }
        lemma_some_of_the_writes(a, b, w);
        lemma_placed_len_without(all, k);
        lemma_placed_len_without(some, i);
        if all.contains(w) && !some.contains(w) {
            assert(w != x);
            let j = all.index_of(w);
            assert(all[j] == w);
            assert(a.contains(w)) by {
                if j < k {
                    assert(a[j] == w);
                } else {
                    assert(a[j - 1] == w);
                }
            }
            assert(!b.contains(w)) by {
                if b.contains(w) {
                    let t = b.index_of(w);
                    assert(some[t] == w);
                }
            }
        }
    }
}

proof fn lemma_placed_len_nonneg(a: Seq<Placed>)
    ensures
        placed_len(a) >= 0,
    decreases a.len(),
{
    if a.len() > 0 {
        lemma_placed_len_nonneg(a.drop_last());
    }
}

/// A framed transfer into a regular file that is acknowledged has made the file
/// equal to the source, whatever the file held before, where the sender's total
/// is the size of the source. All that is known of the data processes is that
/// what they wrote (`ws`) is some of the chunks of the source, none of them
/// twice, and that their reports add up to its bytes.
pub proof fn law_acknowledged_framed_file_equals_the_source(
    s: CtrlState,
    held: Seq<u8>,
    source: Seq<u8>,
    chunks: Seq<Seq<u8>>,
    ws: Seq<Placed>,
)
    requires
        s.wf(),
        s.step() is Acknowledge,
        s.manifest.mode == Mode::Framed,
        s.accepted->0.total == source.len(),
        joined(chunks) == source,
        ws.to_multiset().subset_of(consecutive(0, chunks).to_multiset()),
        totals(s.reports).bytes == placed_len(ws),
    ensures
        apply(prepared(held, output_plan(s.manifest, false)), ws) == source,
        totals(s.reports).bytes == source.len(),
{
    let all = consecutive(0, chunks);
    let file = prepared(held, output_plan(s.manifest, false));
    assert(file.len() == 0);
    lemma_consecutive(0, chunks);
    lemma_consecutive_len(0, chunks);
    assert(placed_len(ws) == placed_len(all));
    all.to_multiset_ensures();
    ws.to_multiset_ensures();
    assert forall|j: int| 0 <= j < ws.len() implies (#[trigger] ws[j]).agrees(source) by {
        to_multiset_contains(ws, ws[j]);
        assert(ws.contains(ws[j]));
        assert(ws.to_multiset().count(ws[j]) <= all.to_multiset().count(ws[j]));
        to_multiset_contains(all, ws[j]);
        let k = all.index_of(ws[j]);
        assert(all[k] == ws[j]);
    }
    assert forall|p: int| 0 <= p < source.len() implies #[trigger] covered(ws, p) by {
        assert(covered(all, p));
        let k = choose|k: int| 0 <= k < all.len() && (#[trigger] all[k]).sets(p);
        let w = all[k];
        assert(all.contains(w));
        lemma_some_of_the_writes(all, ws, w);
        assert(w.data.len() > 0);
        assert(ws.contains(w));
        let j = ws.index_of(w);
        assert(ws[j].sets(p));
    }
    law_covering_writes_deliver(file, source, ws);
}

} // verus!
