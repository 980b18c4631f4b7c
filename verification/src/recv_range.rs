//! A data process of the receiver in range mode: it reads the bytes of one
//! range and writes each piece at its place.

use crate::crc::{crc32c_of, extend_stream_crc, law_crc_of_nothing, stream_crc};
use crate::output::{consecutive, joined, Placed};
use crate::text::{dec, push_dec};
use vstd::prelude::*;

verus! {

/// What a direct write's position and length must be multiples of.
pub const DIRECT_ALIGN: u64 = 4096;

/// The size of the buffer for buffered writes.
pub const BUFFERED_CHUNK: usize = 1048576;

/// The size of the buffer for direct writes.
pub const DIRECT_CHUNK: usize = 4194304;

/// Why a data process gives up on its range.
#[derive(Debug, Clone, Copy, PartialEq, Eq, Structural)]
pub enum RangeFail {
    /// The input ended before the range, or before its aligned part.
    ShortInput { got: u64, expected: u64 },
    /// The input ended inside a direct write, which cannot be shortened.
    ShortDirect { id: u32, filled: usize, wanted: usize },
    /// The input ended inside the unaligned end of the range.
    ShortTail { id: u32, filled: usize, wanted: usize },
}

impl RangeFail {
    /// The reason, as it is told to the control process.
    pub open spec fn text(self) -> Seq<char> {
        match self {
            RangeFail::ShortInput { got, expected } => "short input: got "@ + dec(got as nat)
                + ", expected "@ + dec(expected as nat),
            RangeFail::ShortDirect { id, filled, wanted } => "short read under O_DIRECT: got "@ + dec(
                filled as nat,
            ) + ", wanted "@ + dec(wanted as nat) + " (stream "@ + dec(id as nat) + ")"@,
            RangeFail::ShortTail { id, filled, wanted } => "short input on tail: got "@ + dec(
                filled as nat,
            ) + ", expected "@ + dec(wanted as nat) + " (stream "@ + dec(id as nat) + ")"@,
        }
    }

    pub fn reason(&self) -> (s: String)
        ensures
            s@ == self.text(),
    {
        let mut s: String = String::new();
        match *self {
            RangeFail::ShortInput { got, expected } => {
                s.append("short input: got ");
                push_dec(&mut s, got);
                s.append(", expected ");
                push_dec(&mut s, expected);
            },
            RangeFail::ShortDirect { id, filled, wanted } => {
                s.append("short read under O_DIRECT: got ");
                push_dec(&mut s, filled as u64);
                s.append(", wanted ");
                push_dec(&mut s, wanted as u64);
                s.append(" (stream ");
                push_dec(&mut s, id as u64);
                s.append(")");
            },
            RangeFail::ShortTail { id, filled, wanted } => {
                s.append("short input on tail: got ");
                push_dec(&mut s, filled as u64);
                s.append(", expected ");
                push_dec(&mut s, wanted as u64);
                s.append(" (stream ");
                push_dec(&mut s, id as u64);
                s.append(")");
            },
        }
        s
    }
}

/// What the data process does next.
#[derive(Debug, Clone, Copy, PartialEq, Eq, Structural)]
pub enum RangeStep {
    /// Read into the positions `from .. to` of the buffer.
    Read { from: usize, to: usize, tail: bool },
    /// Write the first `len` bytes of the buffer at `at`. The tail of a direct
    /// transfer goes through a second, buffered descriptor.
    Write { at: u64, len: usize, tail: bool },
    Fail(RangeFail),
    Finish { written: u64, crc: u32 },
}

/// The state of a data process: the assignment, the bytes written so far, and
/// how far the buffer is filled with what comes next.
pub struct RangeRx {
    pub id: u32,
    pub offset: u64,
    pub length: u64,
    pub direct: bool,
    pub no_crc: bool,
    /// The bytes written so far, from `offset` on.
    pub bytes: Seq<u8>,
    /// How many bytes of the next piece are in the buffer.
    pub filled: int,
    /// The last read for this piece returned nothing.
    pub eof: bool,
}

impl RangeRx {
    /// How many bytes of the range are written directly: all of them but for
    /// an unaligned end. Without direct writes there is no such end.
    pub open spec fn aligned(self) -> int {
        if self.direct {
            self.length - self.length as int % DIRECT_ALIGN as int
        } else {
            self.length as int
        }
    }

    /// The process is past the aligned part.
    pub open spec fn in_tail(self) -> bool {
        self.bytes.len() >= self.aligned()
    }

    /// How many bytes the next write has, if the input lasts.
    pub open spec fn target(self) -> int {
        let chunk = if self.direct {
            DIRECT_CHUNK as int
        } else {
            BUFFERED_CHUNK as int
        };
        let left = self.aligned() - self.bytes.len();
        if self.in_tail() {
            self.length - self.bytes.len()
        } else if left < chunk {
            left
        } else {
            chunk
        }
    }

    pub open spec fn wf(self) -> bool {
        &&& self.offset + self.length <= u64::MAX
        &&& self.bytes.len() <= self.length
        &&& 0 <= self.filled <= self.target()
        &&& self.direct && !self.in_tail() ==> self.bytes.len() as int % DIRECT_ALIGN as int == 0
        &&& self.in_tail() ==> self.bytes.len() == self.aligned() || self.bytes.len() == self.length
    }

    /// What comes next: fill the buffer, write it, and so on to the end of the
    /// range. Where the input ends early, a buffered write takes what there
    /// is; a direct write, and the tail, must be whole.
    pub open spec fn step(self) -> RangeStep {
        let n = self.bytes.len() as int;
        if n == self.length {
            RangeStep::Finish { written: self.length, crc: stream_crc(self.no_crc, self.bytes) }
        } else if self.filled < self.target() && !self.eof {
            RangeStep::Read {
                from: self.filled as usize,
                to: self.target() as usize,
                tail: self.in_tail(),
            }
        } else if self.in_tail() && self.filled != self.target() {
            RangeStep::Fail(
                RangeFail::ShortTail {
                    id: self.id,
                    filled: self.filled as usize,
                    wanted: self.target() as usize,
                },
            )
        } else if self.filled == 0 {
            RangeStep::Fail(
                RangeFail::ShortInput { got: n as u64, expected: self.aligned() as u64 },
            )
        } else if self.direct && self.filled != self.target() {
            RangeStep::Fail(
                RangeFail::ShortDirect {
                    id: self.id,
                    filled: self.filled as usize,
                    wanted: self.target() as usize,
                },
            )
        } else {
            RangeStep::Write {
                at: (self.offset + n) as u64,
                len: self.filled as usize,
                tail: self.in_tail(),
            }
        }
    }
}

/// A data process of the receiver, at work on one range.
pub struct RangeReceiver {
    id: u32,
    offset: u64,
    length: u64,
    direct: bool,
    no_crc: bool,
    aligned_len: u64,
    written: u64,
    crc: u32,
    filled: usize,
    eof: bool,
    bytes: Ghost<Seq<u8>>,
}

impl View for RangeReceiver {
    type V = RangeRx;

    closed spec fn view(&self) -> RangeRx {
        RangeRx {
            id: self.id,
            offset: self.offset,
            length: self.length,
            direct: self.direct,
            no_crc: self.no_crc,
            bytes: self.bytes@,
            filled: self.filled as int,
            eof: self.eof,
        }
    }
}

impl RangeReceiver {
    pub closed spec fn wf(self) -> bool {
        &&& self@.wf()
        &&& self.aligned_len == self@.aligned()
        &&& self.written == self@.bytes.len()
        &&& self.crc == stream_crc(self.no_crc, self@.bytes)
    }

    /// The state of a well-formed process is well-formed.
    pub proof fn lemma_state_wf(&self)
        requires
            self.wf(),
        ensures
            self@.wf(),
    {
    }

    /// A process that has written nothing yet.
    pub fn new(id: u32, offset: u64, length: u64, direct: bool, no_crc: bool) -> (r: RangeReceiver)
        requires
            offset + length <= u64::MAX,
        ensures
            r.wf(),
            r@ == (RangeRx {
                id,
                offset,
                length,
                direct,
                no_crc,
                bytes: Seq::empty(),
                filled: 0,
                eof: false,
            }),
    {
        let aligned_len: u64 = if direct {
            length - length % DIRECT_ALIGN
        } else {
            length
        };
        proof {
            law_crc_of_nothing(no_crc);
        }
        RangeReceiver {
            id,
            offset,
            length,
            direct,
            no_crc,
            aligned_len,
            written: 0,
            crc: 0,
            filled: 0,
            eof: false,
            bytes: Ghost(Seq::empty()),
        }
    }

    fn target(&self) -> (n: usize)
        requires
            self.wf(),
        ensures
            n == self@.target(),
    {
        let chunk: usize = if self.direct {
            DIRECT_CHUNK
        } else {
            BUFFERED_CHUNK
        };
        if self.written >= self.aligned_len {
            (self.length - self.written) as usize
        } else {
            let left: u64 = self.aligned_len - self.written;
            if left < chunk as u64 {
                left as usize
            } else {
                chunk
            }
        }
    }

    /// What the process does next.
    pub fn next(&self) -> (s: RangeStep)
        requires
            self.wf(),
        ensures
            s == self@.step(),
            s is Finish <==> self@.bytes.len() == self@.length,
            s is Finish ==> s->written == self@.bytes.len(),
    {
        let target: usize = self.target();
        let tail: bool = self.written >= self.aligned_len;
        if self.written == self.length {
            RangeStep::Finish { written: self.written, crc: self.crc }
        } else if self.filled < target && !self.eof {
            RangeStep::Read { from: self.filled, to: target, tail }
        } else if tail && self.filled != target {
            RangeStep::Fail(
                RangeFail::ShortTail { id: self.id, filled: self.filled, wanted: target },
            )
        } else if self.filled == 0 {
            RangeStep::Fail(
                RangeFail::ShortInput { got: self.written, expected: self.aligned_len },
            )
        } else if self.direct && self.filled != target {
            RangeStep::Fail(
                RangeFail::ShortDirect { id: self.id, filled: self.filled, wanted: target },
            )
        } else {
            RangeStep::Write { at: self.offset + self.written, len: self.filled, tail }
        }
    }

    /// A read returned `n` bytes; none means that the input has ended.
    pub fn on_read(&mut self, n: usize)
        requires
            old(self).wf(),
            old(self)@.step() is Read,
            n <= old(self)@.step()->Read_to - old(self)@.step()->Read_from,
        ensures
            final(self).wf(),
            final(self)@ == (RangeRx {
                filled: old(self)@.filled + n,
                eof: n == 0,
                ..old(self)@
            }),
    {
        self.filled = self.filled + n;
        self.eof = n == 0;
    }

    /// The bytes `data` of the buffer have been written where the last step
    /// said.
    pub fn on_written(&mut self, data: &[u8])
        requires
            old(self).wf(),
            old(self)@.step() is Write,
            data@.len() == old(self)@.step()->Write_len,
        ensures
            final(self).wf(),
            final(self)@ == (RangeRx {
                bytes: old(self)@.bytes + data@,
                filled: 0,
                eof: false,
                ..old(self)@
            }),
    {
        self.crc = extend_stream_crc(self.no_crc, self.crc, data);
        self.written = self.written + data.len() as u64;
        self.filled = 0;
        self.eof = false;
        self.bytes = Ghost(self.bytes@ + data@);
    }
}

/// A process gives up only when the input has ended.
pub proof fn law_range_fails_only_at_end_of_input(rx: RangeRx)
    requires
        rx.wf(),
        rx.step() is Fail,
    ensures
        rx.eof,
        rx.filled < rx.target(),
        rx.bytes.len() + rx.filled < rx.length,
{
}

/// A process never reads beyond its range, and each read asks for something.
pub proof fn law_range_reads_stay_inside(rx: RangeRx)
    requires
        rx.wf(),
        rx.step() is Read,
    ensures
        rx.step()->Read_from < rx.step()->Read_to,
        rx.bytes.len() + rx.step()->Read_to <= rx.length,
{
}

/// Where the range starts at a multiple of the alignment, every direct write
/// has an aligned position and an aligned length.
pub proof fn law_direct_writes_are_aligned(rx: RangeRx)
    requires
        rx.wf(),
        rx.direct,
        rx.offset as int % DIRECT_ALIGN as int == 0,
        rx.step() is Write,
        !rx.step()->Write_tail,
    ensures
        rx.step()->Write_at as int % DIRECT_ALIGN as int == 0,
        rx.step()->Write_len as int % DIRECT_ALIGN as int == 0,
{
}

/// The writes of a process place its chunks one after another, from the start
/// of its range.
pub proof fn law_range_writes_are_consecutive(rx: RangeRx, chunks: Seq<Seq<u8>>, data: Seq<u8>)
    requires
        rx.wf(),
        joined(chunks) == rx.bytes,
        rx.step() is Write,
        data.len() == rx.step()->Write_len,
    ensures
        joined(chunks.push(data)) == rx.bytes + data,
        consecutive(rx.offset as int, chunks.push(data)) == consecutive(
            rx.offset as int,
            chunks,
        ).push(Placed { at: rx.step()->Write_at as int, data }),
{
    assert(chunks.push(data).drop_last() =~= chunks);
}

/// A process goes on until it has written as many bytes as its range is long,
/// and no further. What it reports then is how many bytes it has written, and
/// their CRC.
pub proof fn law_range_is_written_to_its_end(rx: RangeRx)
    requires
        rx.wf(),
    ensures
        rx.step() is Finish <==> rx.bytes.len() == rx.length,
        rx.step() is Finish ==> rx.step()->written == rx.bytes.len(),
        rx.step() is Finish && !rx.no_crc ==> rx.step()->crc == crc32c_of(rx.bytes),
        rx.step() is Finish && rx.no_crc ==> rx.step()->crc == 0,
{
}

/// As long as its input lasts, a process reads on or writes. It reads behind
/// what is in its buffer, which holds one mebibyte, or four under direct
/// writes, and writes what is there, right behind what it has written.
pub proof fn law_range_goes_on_while_input_lasts(rx: RangeRx)
    requires
        rx.wf(),
    ensures
        !rx.eof && rx.bytes.len() < rx.length ==> rx.step() is Read || rx.step() is Write,
        rx.step() is Read ==> {
            let (from, to) = (rx.step()->Read_from, rx.step()->Read_to);
            &&& !rx.eof
            &&& from == rx.filled
            &&& from < to
            &&& rx.bytes.len() + to <= rx.length
            &&& to <= 0x40_0000
            &&& !rx.direct ==> to <= 0x10_0000
            &&& !rx.direct ==> to == 0x10_0000 || rx.bytes.len() + to == rx.length
            &&& rx.direct ==> to == 0x40_0000 || rx.length - rx.bytes.len() - to < 4096
        },
        rx.step() is Write ==> {
            let (at, len) = (rx.step()->Write_at, rx.step()->Write_len);
            &&& at == rx.offset + rx.bytes.len()
            &&& len == rx.filled
            &&& 0 < len
            &&& rx.bytes.len() + len <= rx.length
            &&& !rx.eof && !rx.direct ==> len == 0x10_0000 || rx.bytes.len() + len == rx.length
            &&& rx.direct ==> len == 0x40_0000 || rx.length - rx.bytes.len() - len < 4096
        },
{
}

/// At the end of its input, a process that is not done keeps what has come,
/// if its writes may be short, and otherwise gives up, saying how much it has
/// got. Direct writes may not be: they are whole blocks, or reach the end of
/// the range.
pub proof fn law_range_at_end_of_input(rx: RangeRx)
    requires
        rx.wf(),
        rx.eof,
        rx.bytes.len() < rx.length,
    ensures
        rx.filled == 0 ==> rx.step() is Fail,
        rx.filled > 0 && !rx.direct ==> rx.step() is Write,
        rx.direct && rx.step() is Write ==> rx.filled % 4096 == 0 || rx.bytes.len() + rx.filled
            == rx.length,
        rx.step() is Fail ==> match rx.step()->Fail_0 {
            RangeFail::ShortInput { got, expected } => {
                &&& got == rx.bytes.len()
                &&& rx.filled == 0
                &&& got < expected <= rx.length
                &&& !rx.direct ==> expected == rx.length
                &&& rx.direct ==> expected % 4096 == 0 && rx.length - expected < 4096
            },
            RangeFail::ShortDirect { id, filled, wanted } => {
                &&& rx.direct
                &&& id == rx.id
                &&& 0 < filled == rx.filled
                &&& filled < wanted
                &&& wanted % 4096 == 0
            },
            RangeFail::ShortTail { id, filled, wanted } => {
                &&& rx.direct
                &&& id == rx.id
                &&& filled == rx.filled
                &&& filled < wanted < 4096
                &&& rx.bytes.len() + wanted == rx.length
            },
        },
{
}

/// Only the end of a range that is no whole block goes through the second
/// descriptor, and it goes in one write.
pub proof fn law_tail_is_the_end_of_the_range(rx: RangeRx)
    requires
        rx.wf(),
    ensures
        rx.step() is Write && rx.step()->Write_tail ==> {
            &&& rx.direct
            &&& rx.step()->Write_len < 4096
            &&& rx.bytes.len() + rx.step()->Write_len == rx.length
        },
        rx.step() is Read && rx.step()->Read_tail ==> {
            &&& rx.direct
            &&& rx.length - rx.bytes.len() < 4096
            &&& rx.bytes.len() + rx.step()->Read_to == rx.length
        },
        rx.step() is Write && rx.direct && rx.length - rx.bytes.len() < 4096
            ==> rx.step()->Write_tail,
        rx.step() is Read && rx.direct && rx.length - rx.bytes.len() < 4096
            ==> rx.step()->Read_tail,
{
}

/// A process with what is in its buffer, and what is still to come.
pub struct RangeRun {
    pub rx: RangeRx,
    pub buf: Seq<u8>,
    pub input: Seq<u8>,
}

impl RangeRun {
    pub open spec fn wf(self) -> bool {
        &&& self.rx.wf()
        &&& self.buf.len() == self.rx.filled
        &&& self.rx.eof ==> self.input.len() == 0
    }

    /// The process after the reads that `cuts` allows: each returns as many
    /// bytes as `cuts` says, or as were asked for, or as there are.
    pub open spec fn after(self, cuts: Seq<nat>) -> RangeRun
        decreases cuts.len(), self.rx.filled,
    {
        match self.rx.step() {
            RangeStep::Read { from, to, .. } => if cuts.len() == 0 {
                self
            } else {
                let want = to - from;
                let most = if cuts[0] < want {
                    cuts[0] as int
                } else {
                    want
                };
                let n = if most < self.input.len() {
                    most
                } else {
                    self.input.len() as int
                };
                RangeRun {
                    rx: RangeRx { filled: self.rx.filled + n, eof: n == 0, ..self.rx },
                    buf: self.buf + self.input.take(n),
                    input: self.input.skip(n),
                }.after(cuts.skip(1))
            },
            RangeStep::Write { .. } => if self.rx.filled <= 0 {
                self
            } else {
                RangeRun {
                    rx: RangeRx {
                        bytes: self.rx.bytes + self.buf,
                        filled: 0,
                        eof: false,
                        ..self.rx
                    },
                    buf: Seq::empty(),
                    input: self.input,
                }.after(cuts)
            },
            _ => self,
        }
    }
}

/// However its reads cut the input into pieces, a process that has finished has
/// written the first bytes of its input, as many as its range is long, and one
/// that gives up has had fewer.
pub proof fn law_process_writes_its_range(run: RangeRun, cuts: Seq<nat>)
    requires
        run.wf(),
        forall|i: int| 0 <= i < cuts.len() ==> #[trigger] cuts[i] > 0,
    ensures
        ({
            let stream = run.rx.bytes + run.buf + run.input;
            let end = run.after(cuts).rx;
            &&& end.step() is Finish ==> end.bytes == stream.take(run.rx.length as int)
            &&& end.step() is Fail ==> stream.len() < run.rx.length
        }),
    decreases cuts.len(), run.rx.filled,
{
    let stream = run.rx.bytes + run.buf + run.input;
    match run.rx.step() {
        RangeStep::Read { from, to, .. } => if cuts.len() > 0 {
            let want = to - from;
            let most = if cuts[0] < want {
                cuts[0] as int
            } else {
                want
            };
            let n = if most < run.input.len() {
                most
            } else {
                run.input.len() as int
            };
            let next = RangeRun {
                rx: RangeRx { filled: run.rx.filled + n, eof: n == 0, ..run.rx },
                buf: run.buf + run.input.take(n),
                input: run.input.skip(n),
            };
            assert(next.rx.bytes + next.buf + next.input =~= stream);
            assert forall|i: int| 0 <= i < cuts.skip(1).len() implies #[trigger] cuts.skip(1)[i]
                > 0 by {
                assert(cuts[i + 1] > 0);
            }
            law_process_writes_its_range(next, cuts.skip(1));
        },
        RangeStep::Write { .. } => {
            let next = RangeRun {
                rx: RangeRx { bytes: run.rx.bytes + run.buf, filled: 0, eof: false, ..run.rx },
                buf: Seq::empty(),
                input: run.input,
            };
            assert(next.rx.bytes + next.buf + next.input =~= stream);
            law_process_writes_its_range(next, cuts);
        },
        RangeStep::Finish { .. } => {
            assert(stream.take(run.rx.length as int) =~= run.rx.bytes);
        },
        RangeStep::Fail(_) => {
            law_range_fails_only_at_end_of_input(run.rx);
        },
    }
}

/// What is told of a short input names how much came, how much was expected,
/// and the stream, in this order.
pub proof fn law_short_inputs_are_named(got: u64, expected: u64, id: u32, filled: usize, wanted: usize)
    ensures
        (RangeFail::ShortInput { got, expected }).text() == "short input: got "@ + dec(got as nat)
            + ", expected "@ + dec(expected as nat),
        (RangeFail::ShortDirect { id, filled, wanted }).text() == "short read under O_DIRECT: got "@
            + dec(filled as nat) + ", wanted "@ + dec(wanted as nat) + " (stream "@ + dec(id as nat)
            + ")"@,
        (RangeFail::ShortTail { id, filled, wanted }).text() == "short input on tail: got "@ + dec(
            filled as nat,
        ) + ", expected "@ + dec(wanted as nat) + " (stream "@ + dec(id as nat) + ")"@,
{
}

} // verus!
