//! A stream of the sender in range mode: it reads one range of the input,
//! block by block, and sends what it read.

use crate::crc::{crc32c_of, extend_stream_crc, law_crc_of_nothing, stream_crc};
use crate::recv_range::{RangeRx, RangeStep};
use crate::text::{dec, push_dec};
use vstd::prelude::*;

verus! {

/// The input ended before the range did.
#[derive(Debug, Clone, Copy, PartialEq, Eq, Structural)]
pub struct ShortRead {
    pub id: u32,
}

impl ShortRead {
    pub open spec fn text(self) -> Seq<char> {
        "short read stream "@ + dec(self.id as nat)
    }

    pub fn reason(&self) -> (s: String)
        ensures
            s@ == self.text(),
    {
        let mut s: String = String::new();
        s.append("short read stream ");
        push_dec(&mut s, self.id as u64);
        s
    }
}

/// What the stream does next.
#[derive(Debug, Clone, Copy, PartialEq, Eq, Structural)]
pub enum SendStep {
    /// Read up to `want` bytes of the input at `at`, and send them.
    Read { at: u64, want: usize },
    Finish { written: u64, crc: u32 },
}

/// The state of a stream: its range, and the bytes sent so far.
pub struct RangeTx {
    pub id: u32,
    pub offset: u64,
    pub length: u64,
    pub block: usize,
    pub no_crc: bool,
    pub bytes: Seq<u8>,
}

impl RangeTx {
    pub open spec fn wf(self) -> bool {
        &&& self.offset + self.length <= u64::MAX
        &&& self.bytes.len() <= self.length
    }

    pub open spec fn step(self) -> SendStep {
        let left = self.length - self.bytes.len();
        if left == 0 {
            SendStep::Finish { written: self.length, crc: stream_crc(self.no_crc, self.bytes) }
        } else {
            SendStep::Read {
                at: (self.offset + self.bytes.len()) as u64,
                want: if left < self.block {
                    left as usize
                } else {
                    self.block
                },
            }
        }
    }
}

/// A stream of the sender, at work on one range.
pub struct RangeSender {
    id: u32,
    offset: u64,
    length: u64,
    block: usize,
    no_crc: bool,
    written: u64,
    crc: u32,
    bytes: Ghost<Seq<u8>>,
}

impl View for RangeSender {
    type V = RangeTx;

    closed spec fn view(&self) -> RangeTx {
        RangeTx {
            id: self.id,
            offset: self.offset,
            length: self.length,
            block: self.block,
            no_crc: self.no_crc,
            bytes: self.bytes@,
        }
    }
}

impl RangeSender {
    pub closed spec fn wf(self) -> bool {
        &&& self@.wf()
        &&& self.written == self@.bytes.len()
        &&& self.crc == stream_crc(self.no_crc, self@.bytes)
    }

    /// The state of a well-formed stream is well-formed.
    pub proof fn lemma_state_wf(&self)
        requires
            self.wf(),
        ensures
            self@.wf(),
    {
    }

    /// A stream that has sent nothing yet.
    pub fn new(id: u32, offset: u64, length: u64, block: usize, no_crc: bool) -> (r: RangeSender)
        requires
            offset + length <= u64::MAX,
        ensures
            r.wf(),
            r@ == (RangeTx { id, offset, length, block, no_crc, bytes: Seq::empty() }),
    {
        proof {
            law_crc_of_nothing(no_crc);
        }
        RangeSender {
            id,
            offset,
            length,
            block,
            no_crc,
            written: 0,
            crc: 0,
            bytes: Ghost(Seq::empty()),
        }
    }

    /// What the stream does next.
    pub fn next(&self) -> (s: SendStep)
        requires
            self.wf(),
        ensures
            s == self@.step(),
            s is Finish <==> self@.bytes.len() == self@.length,
            s is Finish ==> s->written == self@.bytes.len(),
    {
        let left: u64 = self.length - self.written;
        if left == 0 {
            SendStep::Finish { written: self.written, crc: self.crc }
        } else {
            let want: usize = if left < self.block as u64 {
                left as usize
            } else {
                self.block
            };
            SendStep::Read { at: self.offset + self.written, want }
        }
    }

    /// A read returned `data`, which the stream now sends. Where the read
    /// returned nothing, the input is too short.
    pub fn on_read(&mut self, data: &[u8]) -> (r: Result<(), ShortRead>)
        requires
            old(self).wf(),
            old(self)@.step() is Read,
            data@.len() <= old(self)@.step()->want,
        ensures
            final(self).wf(),
            r is Err <==> data@.len() == 0,
            r is Err ==> r->Err_0 == (ShortRead { id: old(self)@.id }),
            final(self)@ == (RangeTx { bytes: old(self)@.bytes + data@, ..old(self)@ }),
    {
        if data.len() == 0 {
            assert(self.bytes@ + data@ =~= self.bytes@);
            return Err(ShortRead { id: self.id });
        }
        self.crc = extend_stream_crc(self.no_crc, self.crc, data);
        self.written = self.written + data.len() as u64;
        self.bytes = Ghost(self.bytes@ + data@);
        Ok(())
    }
}

/// A stream reads its range in order and never beyond it.
pub proof fn law_range_is_read_in_order(tx: RangeTx)
    requires
        tx.wf(),
        tx.step() is Read,
    ensures
        tx.step()->at == tx.offset + tx.bytes.len(),
        tx.step()->at + tx.step()->want <= tx.offset + tx.length,
        tx.block > 0 ==> tx.step()->want > 0,
{
}

/// If the receiver's process wrote the bytes that the sender's stream sent,
/// both report the same count and the same CRC, however each of them cut the
/// bytes into pieces.
pub proof fn law_both_ends_report_the_same(tx: RangeTx, rx: RangeRx)
    requires
        tx.wf(),
        rx.wf(),
        tx.bytes == rx.bytes,
        tx.no_crc == rx.no_crc,
        tx.length == rx.length,
    ensures
        tx.step() is Finish <==> rx.step() is Finish,
        tx.step() is Finish ==> rx.step() == (RangeStep::Finish {
            written: tx.step()->written,
            crc: tx.step()->crc,
        }),
{
}

/// A stream goes on until it has sent as many bytes as its range is long, and
/// no further. What it reports then is how many bytes it has sent, and their
/// CRC. Each read asks for a whole block, or for all that is left.
pub proof fn law_range_is_sent_to_its_end(tx: RangeTx)
    requires
        tx.wf(),
    ensures
        tx.step() is Finish <==> tx.bytes.len() == tx.length,
        tx.step() is Read <==> tx.bytes.len() < tx.length,
        tx.step() is Finish ==> tx.step()->written == tx.bytes.len(),
        tx.step() is Finish && !tx.no_crc ==> tx.step()->crc == crc32c_of(tx.bytes),
        tx.step() is Finish && tx.no_crc ==> tx.step()->crc == 0,
        tx.step() is Read ==> {
            let want = tx.step()->want;
            &&& want <= tx.block
            &&& want <= tx.length - tx.bytes.len()
            &&& want == tx.block || want == tx.length - tx.bytes.len()
        },
{
}

/// A stream of which every read returned bytes of `source`, as many as `cuts`
/// says or as many as it asked for, after it has made those reads.
pub open spec fn reading(tx: RangeTx, source: Seq<u8>, cuts: Seq<nat>) -> RangeTx
    decreases cuts.len(),
{
    match tx.step() {
        SendStep::Read { at, want } => if cuts.len() == 0 {
            tx
        } else {
            let n: int = if cuts[0] < want {
                cuts[0] as int
            } else {
                want as int
            };
            reading(
                RangeTx { bytes: tx.bytes + source.subrange(at as int, at + n), ..tx },
                source,
                cuts.skip(1),
            )
        },
        SendStep::Finish { .. } => tx,
    }
}

/// However the reads cut the source into pieces, a stream that has ended has
/// sent the bytes of its range, all of them and in order; and it ends, once it
/// has made as many reads as its range has bytes.
pub proof fn law_stream_sends_its_range(tx: RangeTx, source: Seq<u8>, cuts: Seq<nat>)
    requires
        tx.wf(),
        tx.offset + tx.length <= source.len(),
        tx.bytes == source.subrange(tx.offset as int, tx.offset + tx.bytes.len()),
    ensures
        reading(tx, source, cuts).step() is Finish ==> reading(tx, source, cuts).bytes
            == source.subrange(tx.offset as int, tx.offset + tx.length),
        tx.block > 0 && cuts.len() >= tx.length - tx.bytes.len() && (forall|i: int|
            0 <= i < cuts.len() ==> #[trigger] cuts[i] > 0) ==> reading(
            tx,
            source,
            cuts,
        ).step() is Finish,
    decreases cuts.len(),
{
    match tx.step() {
        SendStep::Read { at, want } => if cuts.len() > 0 {
            let n: int = if cuts[0] < want {
                cuts[0] as int
            } else {
                want as int
            };
            let more = source.subrange(at as int, at + n);
            let next = RangeTx { bytes: tx.bytes + more, ..tx };
            assert(next.bytes =~= source.subrange(
                tx.offset as int,
                tx.offset + next.bytes.len() as int,
            ));
            assert forall|i: int| 0 <= i < cuts.skip(1).len() && (forall|k: int|
                0 <= k < cuts.len() ==> #[trigger] cuts[k] > 0) implies #[trigger] cuts.skip(1)[i]
                > 0 by {
                assert(cuts[i + 1] > 0);
            }
            law_stream_sends_its_range(next, source, cuts.skip(1));
            assert((forall|i: int| 0 <= i < cuts.len() ==> #[trigger] cuts[i] > 0) ==> cuts[0] > 0);
        },
        SendStep::Finish { .. } => {},
    }
}

/// What is told of a short input names the stream.
pub proof fn law_short_reads_are_named(id: u32)
    ensures
        (ShortRead { id }).text() == "short read stream "@ + dec(id as nat),
{
}

} // verus!
