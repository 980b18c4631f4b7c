//! What the sender measures while it sends, and how it sums up what the
//! receiver measured.

use crate::proto::{Mode, RecvStreamStats};
use vstd::prelude::*;

verus! {

/// What one stream of the sender measured.
#[derive(Debug, Clone, Copy, PartialEq, Eq, Structural)]
pub struct PerStreamSendStats {
    pub id: u32,
    pub bytes: u64,
    pub src_read_ns: u64,
    pub net_send_ns: u64,
    pub wall_ns: u64,
}

impl PerStreamSendStats {
    /// A stream that has not ended.
    pub open spec fn blank() -> PerStreamSendStats {
        PerStreamSendStats { id: 0, bytes: 0, src_read_ns: 0, net_send_ns: 0, wall_ns: 0 }
    }
}

/// Times and bytes over all streams of the sender. Times are in nanoseconds.
/// The counters wrap around.
#[derive(Debug)]
pub struct StageStats {
    pub src_read_ns: u64,
    pub src_read_bytes: u64,
    pub net_send_ns: u64,
    pub net_send_bytes: u64,
    /// Framed mode: the sum over all samples of how many chunks were queued.
    pub q_depth_sum: u64,
    pub q_depth_samples: u64,
    pub q_cap: u64,
    /// What stream `i` measured is at `i`, once the stream has ended.
    pub per_stream: Vec<PerStreamSendStats>,
}

/// The sum in a counter of 64 bits.
pub open spec fn wrapped(a: u64, b: u64) -> u64 {
    ((a + b) % 0x1_0000_0000_0000_0000) as u64
}

fn wrapping(a: u64, b: u64) -> (r: u64)
    ensures
        r == wrapped(a, b),
        a + b <= u64::MAX ==> r == a + b,
        a + b > u64::MAX ==> r == a + b - u64::MAX - 1,
{
    a.wrapping_add(b)
}

impl StageStats {
    /// Nothing measured, with room for `n` streams.
    pub fn new(n: u32) -> (r: StageStats)
        ensures
            r.src_read_ns == 0,
            r.src_read_bytes == 0,
            r.net_send_ns == 0,
            r.net_send_bytes == 0,
            r.q_depth_sum == 0,
            r.q_depth_samples == 0,
            r.q_cap == 0,
            r.per_stream@ == Seq::new(n as nat, |i: int| PerStreamSendStats::blank()),
    {
        let mut per_stream: Vec<PerStreamSendStats> = Vec::new();
        let mut i: u32 = 0;
        while i < n
            invariant
                i <= n,
                per_stream@ == Seq::new(i as nat, |k: int| PerStreamSendStats::blank()),
            decreases n - i,
        {
            per_stream.push(
                PerStreamSendStats {
                    id: 0,
                    bytes: 0,
                    src_read_ns: 0,
                    net_send_ns: 0,
                    wall_ns: 0,
                },
            );
            i = i + 1;
            assert(per_stream@ =~= Seq::new(i as nat, |k: int| PerStreamSendStats::blank()));
        }
        assert(per_stream@ =~= Seq::new(n as nat, |k: int| PerStreamSendStats::blank()));
        StageStats {
            src_read_ns: 0,
            src_read_bytes: 0,
            net_send_ns: 0,
            net_send_bytes: 0,
            q_depth_sum: 0,
            q_depth_samples: 0,
            q_cap: 0,
            per_stream,
        }
    }

    /// Counts a read of the input.
    pub fn record_src_read(&mut self, ns: u64, bytes: u64)
        ensures
            *final(self) == (StageStats {
                src_read_ns: wrapped(old(self).src_read_ns, ns),
                src_read_bytes: wrapped(old(self).src_read_bytes, bytes),
                ..*old(self)
            }),
    {
        self.src_read_ns = wrapping(self.src_read_ns, ns);
        self.src_read_bytes = wrapping(self.src_read_bytes, bytes);
    }

    /// Counts a write to a stream.
    pub fn record_net_send(&mut self, ns: u64, bytes: u64)
        ensures
            *final(self) == (StageStats {
                net_send_ns: wrapped(old(self).net_send_ns, ns),
                net_send_bytes: wrapped(old(self).net_send_bytes, bytes),
                ..*old(self)
            }),
    {
        self.net_send_ns = wrapping(self.net_send_ns, ns);
        self.net_send_bytes = wrapping(self.net_send_bytes, bytes);
    }

    /// Counts how full the queue is.
    pub fn sample_queue(&mut self, depth: u64, cap: u64)
        ensures
            *final(self) == (StageStats {
                q_depth_sum: wrapped(old(self).q_depth_sum, depth),
                q_depth_samples: wrapped(old(self).q_depth_samples, 1),
                q_cap: cap,
                ..*old(self)
            }),
    {
        self.q_depth_sum = wrapping(self.q_depth_sum, depth);
        self.q_depth_samples = wrapping(self.q_depth_samples, 1);
        self.q_cap = cap;
    }

    /// Keeps what a stream measured that has ended.
    pub fn finish_stream(&mut self, s: PerStreamSendStats)
        requires
            s.id < old(self).per_stream@.len(),
        ensures
            final(self).per_stream@ == old(self).per_stream@.update(s.id as int, s),
            *final(self) == (StageStats { per_stream: final(self).per_stream, ..*old(self) }),
    {
        self.per_stream.set(s.id as usize, s);
    }
}

/// How many threads read the input: one in framed mode, and one for each
/// stream in range mode.
pub fn src_threads(mode: Mode, n_streams: u32) -> (n: u32)
    ensures
        n == if mode == Mode::Framed {
            1
        } else {
            n_streams
        },
{
    match mode {
        Mode::Framed => 1,
        Mode::Range => n_streams,
    }
}

/// How far the transfer is.
#[derive(Debug, Clone, Copy, PartialEq, Eq, Structural)]
pub struct Progress {
    pub bytes: u64,
    /// 0 if it is not known.
    pub total: u64,
    pub done: bool,
}

impl Progress {
    pub fn new(total: u64) -> (p: Progress)
        ensures
            p == (Progress { bytes: 0, total, done: false }),
    {
        Progress { bytes: 0, total, done: false }
    }

    /// Counts bytes that were sent.
    pub fn add_bytes(&mut self, n: u64)
        ensures
            *final(self) == (Progress { bytes: wrapped(old(self).bytes, n), ..*old(self) }),
    {
        self.bytes = wrapping(self.bytes, n);
    }

    /// Says that nothing more will be sent.
    pub fn stop(&mut self)
        ensures
            *final(self) == (Progress { done: true, ..*old(self) }),
    {
        self.done = true;
    }

    /// The bytes that are still to be sent.
    pub fn remaining(&self) -> (n: u64)
        ensures
            n == if self.bytes < self.total {
                self.total - self.bytes
            } else {
                0
            },
    {
        if self.bytes < self.total {
            self.total - self.bytes
        } else {
            0
        }
    }
}

/// The bytes of all streams.
pub open spec fn bytes_of_streams(v: Seq<RecvStreamStats>) -> int
    decreases v.len(),
{
    if v.len() == 0 {
        0
    } else {
        bytes_of_streams(v.drop_last()) + v.last().bytes
    }
}

/// The bytes of all streams, if they fit into 64 bits.
pub fn total_bytes(v: &Vec<RecvStreamStats>) -> (r: Option<u64>)
    ensures
        match r {
            Some(n) => n == bytes_of_streams(v@),
            None => bytes_of_streams(v@) > u64::MAX,
        },
{
    let mut total: u64 = 0;
    let mut i: usize = 0;
    assert(bytes_of_streams(v@.take(0)) == 0);
    while i < v.len()
        invariant
            i <= v@.len(),
            total == bytes_of_streams(v@.take(i as int)),
        decreases v@.len() - i,
    {
        assert(v@.take(i + 1).drop_last() == v@.take(i as int));
        match total.checked_add(v[i].bytes) {
            None => {
                proof {
                    lemma_bytes_grow(v@, i + 1);
                }
                return None;
            },
            Some(t) => {
                total = t;
            },
        }
        i = i + 1;
    }
    assert(v@.take(i as int) == v@);
    Some(total)
}

proof fn lemma_bytes_grow(v: Seq<RecvStreamStats>, k: int)
    requires
        0 <= k <= v.len(),
    ensures
        bytes_of_streams(v.take(k)) <= bytes_of_streams(v),
    decreases v.len(),
{
    if k == v.len() {
        assert(v.take(k) == v);
    } else {
        lemma_bytes_grow(v.drop_last(), k);
        assert(v.drop_last().take(k) == v.take(k));
    }
}

/// What was measured for stream `id`, in order.
pub open spec fn of_stream(v: Seq<RecvStreamStats>, id: u32) -> Seq<RecvStreamStats> {
    v.filter(|s: RecvStreamStats| s.stream_id == id)
}

/// Smaller stream numbers come first.
pub open spec fn in_stream_order(v: Seq<RecvStreamStats>) -> bool {
    forall|i: int, j: int| 0 <= i <= j < v.len() ==> v[i].stream_id <= v[j].stream_id
}

/// Filters what is put between two parts.
proof fn lemma_put_between(
    a: Seq<RecvStreamStats>,
    x: RecvStreamStats,
    b: Seq<RecvStreamStats>,
    id: u32,
)
    requires
        forall|i: int| 0 <= i < b.len() ==> x.stream_id < (#[trigger] b[i]).stream_id,
    ensures
        of_stream(a + seq![x] + b, id) == of_stream((a + b).push(x), id),
{
    let f = |s: RecvStreamStats| s.stream_id == id;
    Seq::filter_distributes_over_add(a + seq![x], b, f);
    Seq::filter_distributes_over_add(a, seq![x], f);
    Seq::filter_distributes_over_add(a, b, f);
    Seq::filter_distributes_over_add(a + b, seq![x], f);
    assert((a + b).push(x) == a + b + seq![x]);
    reveal(Seq::filter);
    let fx = seq![x].filter(f);
    assert(seq![x].drop_last().filter(f) == Seq::<RecvStreamStats>::empty());
    if x.stream_id == id {
        lemma_none(b, id);
        assert(a.filter(f) + fx + b.filter(f) == a.filter(f) + b.filter(f) + fx);
    } else {
        assert(fx == Seq::<RecvStreamStats>::empty());
        assert(a.filter(f) + fx + b.filter(f) == a.filter(f) + b.filter(f) + fx);
    }
}

proof fn lemma_none(b: Seq<RecvStreamStats>, id: u32)
    requires
        forall|i: int| 0 <= i < b.len() ==> (#[trigger] b[i]).stream_id != id,
    ensures
        of_stream(b, id) == Seq::<RecvStreamStats>::empty(),
    decreases b.len(),
{
    reveal(Seq::filter);
    if b.len() > 0 {
        assert(b[b.len() - 1].stream_id != id);
        lemma_none(b.drop_last(), id);
    }
}

/// Sorts by stream. What was measured for one stream stays in its order.
pub fn sort_by_stream(v: &Vec<RecvStreamStats>) -> (r: Vec<RecvStreamStats>)
    ensures
        r@.len() == v@.len(),
        in_stream_order(r@),
        forall|id: u32| #[trigger] of_stream(r@, id) == of_stream(v@, id),
        forall|i: int, j: int| 0 <= i <= j < r@.len() ==> r@[i].stream_id <= r@[j].stream_id,
        r@.to_multiset() == v@.to_multiset(),
{
    let mut r: Vec<RecvStreamStats> = Vec::new();
    let mut i: usize = 0;
    assert(v@.take(0) == r@);
    assert(v@.take(0).to_multiset() == r@.to_multiset());
    while i < v.len()
        invariant
            i <= v@.len(),
            r@.len() == i,
            in_stream_order(r@),
            forall|id: u32| #[trigger] of_stream(r@, id) == of_stream(v@.take(i as int), id),
            r@.to_multiset() == v@.take(i as int).to_multiset(),
        decreases v@.len() - i,
    {
        let x: RecvStreamStats = v[i];
        let ghost before = r@;
        let mut k: usize = r.len();
        while k > 0 && x.stream_id < r[k - 1].stream_id
            invariant
                k <= r@.len(),
                forall|j: int| k <= j < r@.len() ==> x.stream_id < (#[trigger] r@[j]).stream_id,
            decreases k,
        {
            k = k - 1;
        }
        r.insert(k, x);
        proof {
            let a = before.take(k as int);
            let b = before.skip(k as int);
            assert(before == a + b);
            assert(r@ == a + seq![x] + b);
            r@.to_multiset_ensures();
            assert(r@[k as int] == x);
            assert(r@.remove(k as int) == before);
            assert(r@.to_multiset() == before.to_multiset().insert(x)) by {
                assert(r@.contains(x));
                assert(r@.to_multiset().count(x) > 0);
                assert(r@.to_multiset().remove(x).insert(x) =~= r@.to_multiset());
            }
            v@.take(i as int).to_multiset_ensures();
            assert(v@.take(i + 1) == v@.take(i as int).push(x));
            assert forall|id: u32| #[trigger] of_stream(r@, id) == of_stream(
                v@.take(i + 1),
                id,
            ) by {
                let f = |s: RecvStreamStats| s.stream_id == id;
                lemma_put_between(a, x, b, id);
                assert(v@.take(i + 1) == v@.take(i as int) + seq![x]);
                assert(before.push(x) == before + seq![x]);
                Seq::filter_distributes_over_add(before, seq![x], f);
                Seq::filter_distributes_over_add(v@.take(i as int), seq![x], f);
                assert(of_stream(before, id) == of_stream(v@.take(i as int), id));
            }
            assert forall|p: int, q: int| 0 <= p <= q < r@.len() implies r@[p].stream_id
                <= r@[q].stream_id by {
                if p < k && q > k {
                    assert(before[p].stream_id <= before[q - 1].stream_id);
                } else if p < k && q == k {
                    if k > 0 {
                        assert(before[p].stream_id <= before[k - 1].stream_id);
                    }
                } else if p == k && q > k {
                    assert(x.stream_id < before[q - 1].stream_id);
                } else if p > k {
                    assert(before[p - 1].stream_id <= before[q - 1].stream_id);
                } else if q < k {
                    assert(before[p].stream_id <= before[q].stream_id);
                }
            }
        }
        i = i + 1;
    }
    assert(v@.take(i as int) == v@);
    r
}

/// A counter holds the sum, or what is left of it when `2^64` is taken off.
pub proof fn law_counters_wrap(a: u64, b: u64)
    ensures
        a + b <= u64::MAX ==> wrapped(a, b) == a + b,
        a + b > u64::MAX ==> wrapped(a, b) == a + b - 0x1_0000_0000_0000_0000,
{
}

/// The bytes of streams add up: of two groups together, and of one stream
/// alone.
pub proof fn law_bytes_of_streams_add_up(
    a: Seq<RecvStreamStats>,
    b: Seq<RecvStreamStats>,
    s: RecvStreamStats,
)
    ensures
        bytes_of_streams(a + b) == bytes_of_streams(a) + bytes_of_streams(b),
        bytes_of_streams(seq![s]) == s.bytes,
        bytes_of_streams(Seq::empty()) == 0,
    decreases b.len(),
{
    assert(seq![s].drop_last() == Seq::<RecvStreamStats>::empty());
    assert(bytes_of_streams(Seq::<RecvStreamStats>::empty()) == 0);
    assert(bytes_of_streams(seq![s]) == bytes_of_streams(seq![s].drop_last())
        + seq![s].last().bytes);
    if b.len() == 0 {
        assert(a + b == a);
    } else {
        law_bytes_of_streams_add_up(a, b.drop_last(), s);
        assert((a + b).drop_last() == a + b.drop_last());
    }
}

} // verus!
