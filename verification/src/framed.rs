//! Framed mode: an input of unknown size is cut into chunks, and each chunk
//! travels as a frame of its own, on whichever stream is free.

use crate::crc::{crc32c, crc32c_of, extend_stream_crc, law_crc_of_nothing, stream_crc};
use crate::output::{
    apply, consecutive, delivered, joined, law_framed_mode_delivers, lemma_consecutive, Placed,
};
use crate::proto::{
    decode_frame_hdr, encode_frame_hdr, frame_hdr, hdr_crc, hdr_length, hdr_offset,
    law_frame_hdr_bytes_round_trip, law_frame_hdr_round_trip, FRAME_HDR_LEN,
};
use crate::text::{dec, hex, push_dec, push_hex};
use vstd::prelude::*;

verus! {

/// A piece of the input, and where it belongs.
#[derive(Debug)]
pub struct Chunk {
    pub offset: u64,
    pub data: Vec<u8>,
}

impl Chunk {
    /// The write that puts the chunk where it belongs.
    pub open spec fn placed(self) -> Placed {
        Placed { at: self.offset as int, data: self.data@ }
    }
}

/// The CRC in the header of a frame with this payload.
pub open spec fn frame_crc(no_crc: bool, data: Seq<u8>) -> u32 {
    if no_crc {
        0
    } else {
        crc32c_of(data)
    }
}

/// A frame as it travels: its header, then its payload. The header has room
/// for the payload's length modulo 2^32.
pub open spec fn frame_bytes(no_crc: bool, w: Placed) -> Seq<u8> {
    frame_hdr(w.at as u64, (w.data.len() % 0x1_0000_0000) as u32, frame_crc(no_crc, w.data))
        + w.data
}

/// The frames of several writes, one after another.
pub open spec fn frames_bytes(no_crc: bool, ws: Seq<Placed>) -> Seq<u8>
    decreases ws.len(),
{
    if ws.len() == 0 {
        Seq::empty()
    } else {
        frame_bytes(no_crc, ws[0]) + frames_bytes(no_crc, ws.skip(1))
    }
}

/// The header of the frame that carries `chunk`.
pub fn frame_header(chunk: &Chunk, no_crc: bool) -> (hdr: [u8; FRAME_HDR_LEN])
    ensures
        hdr@ + chunk.data@ == frame_bytes(no_crc, chunk.placed()),
        hdr@ == frame_hdr(
            chunk.offset,
            (chunk.data@.len() % 0x1_0000_0000) as u32,
            frame_crc(no_crc, chunk.data@),
        ),
{
    let crc: u32 = if no_crc {
        0
    } else {
        crc32c(chunk.data.as_slice())
    };
    let length: u32 = (chunk.data.len() as u64 % 0x1_0000_0000) as u32;
    encode_frame_hdr(chunk.offset, length, crc)
}

// ---------------------------------------------------------------- producer

/// What the reader of the input does next.
#[derive(Debug, Clone, Copy, PartialEq, Eq, Structural)]
pub enum ProduceStep {
    /// Read into the positions `from .. to` of the buffer.
    Read { from: usize, to: usize },
    /// Hand the first `len` bytes of the buffer to the streams.
    Emit { len: usize },
    /// The input has ended, after `total` bytes.
    End { total: u64 },
}

/// The state of the reader: the bytes handed out so far, and how far the
/// buffer is filled with the next chunk.
pub struct ProducerState {
    pub block: usize,
    pub bytes: Seq<u8>,
    pub filled: int,
    pub eof: bool,
}

impl ProducerState {
    pub open spec fn wf(self) -> bool {
        &&& self.bytes.len() <= u64::MAX
        &&& 0 <= self.filled <= self.block
    }

    /// Every chunk but the last is a whole block.
    pub open spec fn step(self) -> ProduceStep {
        if self.filled < self.block && !self.eof {
            ProduceStep::Read { from: self.filled as usize, to: self.block }
        } else if self.filled == 0 {
            ProduceStep::End { total: self.bytes.len() as u64 }
        } else {
            ProduceStep::Emit { len: self.filled as usize }
        }
    }
}

/// Reads the input and cuts it into chunks.
pub struct Producer {
    block: usize,
    total: u64,
    filled: usize,
    eof: bool,
    bytes: Ghost<Seq<u8>>,
}

impl View for Producer {
    type V = ProducerState;

    closed spec fn view(&self) -> ProducerState {
        ProducerState {
            block: self.block,
            bytes: self.bytes@,
            filled: self.filled as int,
            eof: self.eof,
        }
    }
}

impl Producer {
    pub closed spec fn wf(self) -> bool {
        &&& self@.wf()
        &&& self.total == self@.bytes.len()
    }

    /// The state of a well-formed reader is well-formed.
    pub proof fn lemma_state_wf(&self)
        requires
            self.wf(),
        ensures
            self@.wf(),
    {
    }

    pub fn new(block: usize) -> (r: Producer)
        ensures
            r.wf(),
            r@ == (ProducerState { block, bytes: Seq::empty(), filled: 0, eof: false }),
    {
        Producer { block, total: 0, filled: 0, eof: false, bytes: Ghost(Seq::empty()) }
    }

    pub fn next(&self) -> (s: ProduceStep)
        requires
            self.wf(),
        ensures
            s == self@.step(),
            s is End ==> self@.filled == 0,
            s is End ==> s->total == self@.bytes.len(),
    {
        if self.filled < self.block && !self.eof {
            ProduceStep::Read { from: self.filled, to: self.block }
        } else if self.filled == 0 {
            ProduceStep::End { total: self.total }
        } else {
            ProduceStep::Emit { len: self.filled }
        }
    }

    /// A read returned `n` bytes; none means that the input has ended.
    pub fn on_read(&mut self, n: usize)
        requires
            old(self).wf(),
            old(self)@.step() is Read,
            n <= old(self)@.step()->to - old(self)@.step()->from,
        ensures
            final(self).wf(),
            final(self)@ == (ProducerState {
                filled: old(self)@.filled + n,
                eof: n == 0,
                ..old(self)@
            }),
    {
        self.filled = self.filled + n;
        self.eof = n == 0;
    }

    /// Turns the filled part of the buffer into the next chunk.
    pub fn emit(&mut self, buf: Vec<u8>) -> (chunk: Chunk)
        requires
            old(self).wf(),
            old(self)@.step() is Emit,
            buf@.len() >= old(self)@.step()->len,
            old(self)@.bytes.len() + old(self)@.step()->len <= u64::MAX,
        ensures
            final(self).wf(),
            chunk.offset == old(self)@.bytes.len(),
            chunk.data@ == buf@.take(old(self)@.filled),
            final(self)@ == (ProducerState {
                bytes: old(self)@.bytes + chunk.data@,
                filled: 0,
                eof: false,
                ..old(self)@
            }),
    {
        let mut data: Vec<u8> = buf;
        data.truncate(self.filled);
        assert(data@ =~= buf@.take(self.filled as int));
        let chunk: Chunk = Chunk { offset: self.total, data };
        self.total = self.total + self.filled as u64;
        self.filled = 0;
        self.eof = false;
        self.bytes = Ghost(self.bytes@ + chunk.data@);
        chunk
    }
}

/// The chunks that the reader hands out follow each other, from the start of
/// the input: joined, they are what it has read.
pub proof fn law_chunks_are_consecutive(p: ProducerState, chunks: Seq<Seq<u8>>, data: Seq<u8>)
    requires
        joined(chunks) == p.bytes,
    ensures
        joined(chunks.push(data)) == p.bytes + data,
        consecutive(0, chunks.push(data)) == consecutive(0, chunks).push(
            Placed { at: p.bytes.len() as int, data },
        ),
{
    assert(chunks.push(data).drop_last() =~= chunks);
}

/// The reader reads on until a block is full or the input has ended; hands out
/// what it has then, if it has anything; and ends only with nothing left in its
/// buffer, after the end of the input, with the number of bytes handed out. (A
/// block of no bytes is always full.)
pub proof fn law_reader_ends_with_nothing_left(p: ProducerState)
    requires
        p.wf(),
    ensures
        p.step() is Read <==> !p.eof && p.filled < p.block,
        p.step() is Read ==> p.step()->from == p.filled && p.step()->to == p.block,
        p.step() is Emit <==> p.filled > 0 && (p.eof || p.filled == p.block),
        p.step() is Emit ==> p.step()->len == p.filled,
        p.step() is End <==> p.filled == 0 && (p.eof || p.block == 0),
        p.step() is End ==> p.step()->total == p.bytes.len(),
{
}

/// The reader with what is in its buffer, the chunks that it has handed out,
/// and the input that is still to come.
pub struct ProducerRun {
    pub state: ProducerState,
    pub buf: Seq<u8>,
    pub chunks: Seq<Seq<u8>>,
    pub input: Seq<u8>,
}

impl ProducerRun {
    /// A reader that has read nothing.
    pub open spec fn start(block: usize, input: Seq<u8>) -> ProducerRun {
        ProducerRun {
            state: ProducerState { block, bytes: Seq::empty(), filled: 0, eof: false },
            buf: Seq::empty(),
            chunks: Seq::empty(),
            input,
        }
    }

    pub open spec fn wf(self) -> bool {
        &&& self.state.wf()
        &&& self.state.bytes.len() + self.buf.len() + self.input.len() <= u64::MAX
        &&& self.buf.len() == self.state.filled
        &&& self.state.eof ==> self.input.len() == 0
        &&& joined(self.chunks) == self.state.bytes
        &&& forall|i: int|
            0 <= i < self.chunks.len() ==> 0 < (#[trigger] self.chunks[i]).len()
                <= self.state.block
        &&& forall|i: int|
            0 <= i < self.chunks.len() && (#[trigger] self.chunks[i]).len() < self.state.block
                ==> i == self.chunks.len() - 1 && self.buf.len() == 0 && self.input.len() == 0
    }

    /// The reader after the reads that `cuts` allows: each returns as many
    /// bytes as `cuts` says, or as were asked for, or as there are.
    pub open spec fn after(self, cuts: Seq<nat>) -> ProducerRun
        decreases cuts.len(), self.state.filled,
    {
        match self.state.step() {
            ProduceStep::Read { from, to } => if cuts.len() == 0 {
                self
            } else {
                let want = to - from;
                let most = if cuts[0] < want {
                    cuts[0] as int
                } else {
                    want
                };
                let n = if most < self.input.len() {
                    most
                } else {
                    self.input.len() as int
                };
                ProducerRun {
                    state: ProducerState {
                        filled: self.state.filled + n,
                        eof: n == 0,
                        ..self.state
                    },
                    buf: self.buf + self.input.take(n),
                    chunks: self.chunks,
                    input: self.input.skip(n),
                }.after(cuts.skip(1))
            },
            ProduceStep::Emit { len } => if self.state.filled <= 0 {
                self
            } else {
                ProducerRun {
                    state: ProducerState {
                        bytes: self.state.bytes + self.buf.take(len as int),
                        filled: 0,
                        eof: false,
                        ..self.state
                    },
                    buf: Seq::empty(),
                    chunks: self.chunks.push(self.buf.take(len as int)),
                    input: self.input,
                }.after(cuts)
            },
            ProduceStep::End { .. } => self,
        }
    }
}

proof fn lemma_reader_goes_on(run: ProducerRun, cuts: Seq<nat>)
    requires
        run.wf(),
        run.state.block > 0,
        forall|i: int| 0 <= i < cuts.len() ==> #[trigger] cuts[i] > 0,
    ensures
        ({
            let all = run.state.bytes + run.buf + run.input;
            let end = run.after(cuts);
            &&& end.wf()
            &&& end.state.block == run.state.block
            &&& end.state.bytes + end.buf + end.input == all
            &&& end.state.step() is End ==> end.input.len() == 0
        }),
    decreases cuts.len(), run.state.filled,
{
    let all = run.state.bytes + run.buf + run.input;
    match run.state.step() {
        ProduceStep::Read { from, to } => if cuts.len() > 0 {
            let want = to - from;
            let most = if cuts[0] < want {
                cuts[0] as int
            } else {
                want
            };
            let n = if most < run.input.len() {
                most
            } else {
                run.input.len() as int
            };
            let next = ProducerRun {
                state: ProducerState { filled: run.state.filled + n, eof: n == 0, ..run.state },
                buf: run.buf + run.input.take(n),
                chunks: run.chunks,
                input: run.input.skip(n),
            };
            assert(next.state.bytes + next.buf + next.input =~= all);
            assert forall|i: int| 0 <= i < cuts.skip(1).len() implies #[trigger] cuts.skip(1)[i]
                > 0 by {
                assert(cuts[i + 1] > 0);
            }
            lemma_reader_goes_on(next, cuts.skip(1));
        },
        ProduceStep::Emit { len } => {
            let chunk = run.buf.take(len as int);
            assert(chunk =~= run.buf);
            let next = ProducerRun {
                state: ProducerState {
                    bytes: run.state.bytes + chunk,
                    filled: 0,
                    eof: false,
                    ..run.state
                },
                buf: Seq::empty(),
                chunks: run.chunks.push(chunk),
                input: run.input,
            };
            assert(next.state.bytes + next.buf + next.input =~= all);
            assert(next.chunks.drop_last() =~= run.chunks);
            lemma_reader_goes_on(next, cuts);
        },
        ProduceStep::End { .. } => {},
    }
}

/// However its reads cut the input into pieces, a reader that has ended has
/// handed out the whole input, in chunks that are whole blocks but for the
/// last, and counted its bytes.
pub proof fn law_reader_hands_out_the_whole_input(block: usize, input: Seq<u8>, cuts: Seq<nat>)
    requires
        block > 0,
        input.len() <= u64::MAX,
        forall|i: int| 0 <= i < cuts.len() ==> #[trigger] cuts[i] > 0,
    ensures
        ({
            let end = ProducerRun::start(block, input).after(cuts);
            end.state.step() is End ==> {
                &&& joined(end.chunks) == input
                &&& end.state.step()->total == input.len()
                &&& forall|i: int|
                    0 <= i < end.chunks.len() ==> 0 < (#[trigger] end.chunks[i]).len() <= block
                &&& forall|i: int|
                    0 <= i < end.chunks.len() - 1 ==> (#[trigger] end.chunks[i]).len() == block
            }
        }),
{
    let start = ProducerRun::start(block, input);
    let end = start.after(cuts);
    lemma_reader_goes_on(start, cuts);
    assert(start.state.bytes + start.buf + start.input =~= input);
    assert(end.state.step() is End ==> end.state.bytes + end.buf + end.input =~= end.state.bytes);
}

// ---------------------------------------------------------------- receiver

/// How a stream of frames ends.
pub enum FrameEnd {
    /// After a whole frame.
    Clean,
    /// Inside a header, of which `got` bytes came.
    TruncatedHeader { got: int },
    /// Inside a payload, of which `got` of `want` bytes came.
    ShortPayload { got: int, want: int },
    /// The payload does not have the CRC that its header says.
    BadCrc { offset: int, got_crc: u32, want_crc: u32 },
}

/// The payload has the CRC that the header says, or nobody asks.
pub open spec fn payload_ok(no_crc: bool, hdr: Seq<u8>, payload: Seq<u8>) -> bool {
    no_crc || crc32c_of(payload) == hdr_crc(hdr)
}

/// The writes that a stream of frames asks for, up to its end or to the first
/// frame that is not whole and sound.
pub open spec fn decode_frames(no_crc: bool, stream: Seq<u8>) -> (Seq<Placed>, FrameEnd)
    decreases stream.len(),
{
    let hdr = stream.take(16);
    let want = hdr_length(hdr) as int;
    if stream.len() == 0 {
        (Seq::empty(), FrameEnd::Clean)
    } else if stream.len() < 16 {
        (Seq::empty(), FrameEnd::TruncatedHeader { got: stream.len() as int })
    } else if stream.len() < 16 + want {
        (Seq::empty(), FrameEnd::ShortPayload { got: stream.len() - 16, want })
    } else {
        let payload = stream.subrange(16, 16 + want);
        if !payload_ok(no_crc, hdr, payload) {
            (
                Seq::empty(),
                FrameEnd::BadCrc {
                    offset: hdr_offset(hdr) as int,
                    got_crc: crc32c_of(payload),
                    want_crc: hdr_crc(hdr) as u32,
                },
            )
        } else {
            let rest = decode_frames(no_crc, stream.skip(16 + want));
            (seq![Placed { at: hdr_offset(hdr) as int, data: payload }] + rest.0, rest.1)
        }
    }
}

/// What comes after whole frames is decoded as if it came alone.
pub proof fn lemma_decode_after(no_crc: bool, a: Seq<u8>, b: Seq<u8>)
    requires
        decode_frames(no_crc, a).1 is Clean,
    ensures
        decode_frames(no_crc, a + b) == (
            decode_frames(no_crc, a).0 + decode_frames(no_crc, b).0,
            decode_frames(no_crc, b).1,
        ),
    decreases a.len(),
{
    if a.len() == 0 {
        assert(a + b =~= b);
        assert(decode_frames(no_crc, a).0 + decode_frames(no_crc, b).0 =~= decode_frames(
            no_crc,
            b,
        ).0);
    } else {
        let hdr = a.take(16);
        let want = hdr_length(hdr) as int;
        assert((a + b).take(16) =~= hdr);
        assert((a + b).subrange(16, 16 + want) =~= a.subrange(16, 16 + want));
        assert((a + b).skip(16 + want) =~= a.skip(16 + want) + b);
        lemma_decode_after(no_crc, a.skip(16 + want), b);
        assert(decode_frames(no_crc, a + b).0 =~= decode_frames(no_crc, a).0 + decode_frames(
            no_crc,
            b,
        ).0);
    }
}

/// What the frames of some writes decode to: those writes, in order. A payload
/// must be shorter than 4 GiB, for its header to hold its length.
pub proof fn law_frames_round_trip(no_crc: bool, ws: Seq<Placed>)
    requires
        forall|i: int|
            0 <= i < ws.len() ==> {
                &&& 0 <= (#[trigger] ws[i]).at <= u64::MAX
                &&& ws[i].data.len() < 0x1_0000_0000
            },
    ensures
        decode_frames(no_crc, frames_bytes(no_crc, ws)) == (ws, FrameEnd::Clean),
    decreases ws.len(),
{
    if ws.len() == 0 {
        assert(ws =~= Seq::empty());
    } else {
        let w = ws[0];
        let rest = ws.skip(1);
        assert forall|i: int| 0 <= i < rest.len() implies {
            &&& 0 <= (#[trigger] rest[i]).at <= u64::MAX
            &&& rest[i].data.len() < 0x1_0000_0000
        } by {
            assert(rest[i] == ws[i + 1]);
        }
        law_frames_round_trip(no_crc, rest);
        let crc = frame_crc(no_crc, w.data);
        let hdr = frame_hdr(w.at as u64, w.data.len() as u32, crc);
        law_frame_hdr_round_trip(w.at as u64, w.data.len() as u32, crc);
        let stream = frames_bytes(no_crc, ws);
        assert(stream == (hdr + w.data) + frames_bytes(no_crc, rest));
        assert(stream.take(16) =~= hdr);
        assert(stream.subrange(16, 16 + w.data.len() as int) =~= w.data);
        assert(stream.skip(16 + w.data.len() as int) =~= frames_bytes(no_crc, rest));
        assert(seq![w] + rest =~= ws);
    }
}

/// Why a data process gives up on its frames.
#[derive(Debug, Clone, Copy, PartialEq, Eq, Structural)]
pub enum FrameFail {
    TruncatedHeader { got: usize },
    ShortPayload { got: usize, want: usize },
    BadCrc { id: u32, offset: u64, length: u32, got_crc: u32, want_crc: u32 },
}

impl FrameFail {
    /// The control process is told of the failure. It learns of a short
    /// payload only by the process's exit.
    pub open spec fn is_reported(self) -> bool {
        !(self is ShortPayload)
    }

    pub fn reported(&self) -> (b: bool)
        ensures
            b == self.is_reported(),
            b <==> !(self is ShortPayload),
    {
        match self {
            FrameFail::ShortPayload { .. } => false,
            _ => true,
        }
    }

    pub open spec fn text(self) -> Seq<char> {
        match self {
            FrameFail::TruncatedHeader { got } => "truncated frame header ("@ + dec(got as nat)
                + " bytes)"@,
            FrameFail::ShortPayload { got, want } => "short frame payload: got "@ + dec(got as nat)
                + "/"@ + dec(want as nat),
            FrameFail::BadCrc { id, offset, length, got_crc, want_crc } => "crc mismatch stream "@ + dec(
                id as nat,
            ) + " @off "@ + dec(offset as nat) + " len "@ + dec(length as nat) + ": got 0x"@ + hex(
                got_crc as nat,
                8,
            ) + " want 0x"@ + hex(want_crc as nat, 8),
        }
    }

    pub fn reason(&self) -> (s: String)
        ensures
            s@ == self.text(),
    {
        let mut s: String = String::new();
        match *self {
            FrameFail::TruncatedHeader { got } => {
                s.append("truncated frame header (");
                push_dec(&mut s, got as u64);
                s.append(" bytes)");
            },
            FrameFail::ShortPayload { got, want } => {
                s.append("short frame payload: got ");
                push_dec(&mut s, got as u64);
                s.append("/");
                push_dec(&mut s, want as u64);
            },
            FrameFail::BadCrc { id, offset, length, got_crc, want_crc } => {
                s.append("crc mismatch stream ");
                push_dec(&mut s, id as u64);
                s.append(" @off ");
                push_dec(&mut s, offset);
                s.append(" len ");
                push_dec(&mut s, length as u64);
                s.append(": got 0x");
                push_hex(&mut s, got_crc, 8);
                s.append(" want 0x");
                push_hex(&mut s, want_crc, 8);
            },
        }
        s
    }
}

/// What a data process does next.
#[derive(Debug, Clone, Copy, PartialEq, Eq, Structural)]
pub enum FrameStep {
    /// Read up to `want` bytes of a header.
    ReadHeader { want: usize },
    /// Read into the positions `from .. to` of the payload buffer.
    ReadPayload { from: usize, to: usize },
    /// The payload is whole: check it, and write it.
    Check { len: usize },
    Fail(FrameFail),
    /// The stream has ended. `crc` is that of the payloads, one after another.
    Finish { written: u64, crc: u32 },
}

/// The state of a data process in framed mode.
pub struct FrameRx {
    pub id: u32,
    pub no_crc: bool,
    /// The bytes of the frames that are done with.
    pub whole: Seq<u8>,
    /// The writes that those frames asked for.
    pub writes: Seq<Placed>,
    /// The bytes written.
    pub written: int,
    /// What has come of the next frame's header.
    pub hdr: Seq<u8>,
    /// How many bytes have come of the next frame's payload.
    pub filled: int,
    /// The last read returned nothing.
    pub eof: bool,
}

/// The sizes of the writes, added up.
pub open spec fn placed_len(ws: Seq<Placed>) -> int
    decreases ws.len(),
{
    if ws.len() == 0 {
        0
    } else {
        placed_len(ws.drop_last()) + ws.last().data.len()
    }
}

/// The payloads of the writes, one after another.
pub open spec fn payloads(ws: Seq<Placed>) -> Seq<u8>
    decreases ws.len(),
{
    if ws.len() == 0 {
        Seq::empty()
    } else {
        payloads(ws.drop_last()) + ws.last().data
    }
}

impl FrameRx {
    pub open spec fn wf(self) -> bool {
        &&& decode_frames(self.no_crc, self.whole) == (self.writes, FrameEnd::Clean)
        &&& self.written == placed_len(self.writes)
        &&& 0 <= self.written <= u64::MAX
        &&& self.hdr.len() <= 16
        &&& self.hdr.len() < 16 ==> self.filled == 0
        &&& self.hdr.len() == 16 ==> 0 <= self.filled <= hdr_length(self.hdr)
    }

    pub open spec fn step(self) -> FrameStep {
        let want = hdr_length(self.hdr) as int;
        if self.hdr.len() < 16 {
            if !self.eof {
                FrameStep::ReadHeader { want: (16 - self.hdr.len()) as usize }
            } else if self.hdr.len() == 0 {
                FrameStep::Finish {
                    written: self.written as u64,
                    crc: stream_crc(self.no_crc, payloads(self.writes)),
                }
            } else {
                FrameStep::Fail(FrameFail::TruncatedHeader { got: self.hdr.len() as usize })
            }
        } else if self.filled == want {
            FrameStep::Check { len: want as usize }
        } else if !self.eof {
            FrameStep::ReadPayload { from: self.filled as usize, to: want as usize }
        } else {
            FrameStep::Fail(
                FrameFail::ShortPayload { got: self.filled as usize, want: want as usize },
            )
        }
    }
}

/// A data process of the receiver, at work on a stream of frames.
pub struct FrameReceiver {
    id: u32,
    no_crc: bool,
    written: u64,
    crc: u32,
    hdr: Vec<u8>,
    filled: usize,
    offset: u64,
    length: u32,
    want_crc: u32,
    eof: bool,
    whole: Ghost<Seq<u8>>,
    writes: Ghost<Seq<Placed>>,
}

impl View for FrameReceiver {
    type V = FrameRx;

    closed spec fn view(&self) -> FrameRx {
        FrameRx {
            id: self.id,
            no_crc: self.no_crc,
            whole: self.whole@,
            writes: self.writes@,
            written: self.written as int,
            hdr: self.hdr@,
            filled: self.filled as int,
            eof: self.eof,
        }
    }
}

impl FrameReceiver {
    pub closed spec fn wf(self) -> bool {
        &&& self@.wf()
        &&& self.crc == stream_crc(self.no_crc, payloads(self.writes@))
        &&& self.hdr@.len() == 16 ==> {
            &&& self.offset == hdr_offset(self.hdr@)
            &&& self.length == hdr_length(self.hdr@)
            &&& self.want_crc == hdr_crc(self.hdr@)
        }
    }

    /// The state of a well-formed process is well-formed.
    pub proof fn lemma_state_wf(&self)
        requires
            self.wf(),
        ensures
            self@.wf(),
    {
    }

    pub fn new(id: u32, no_crc: bool) -> (r: FrameReceiver)
        ensures
            r.wf(),
            r@ == (FrameRx {
                id,
                no_crc,
                whole: Seq::empty(),
                writes: Seq::empty(),
                written: 0,
                hdr: Seq::empty(),
                filled: 0,
                eof: false,
            }),
    {
        proof {
            law_crc_of_nothing(no_crc);
        }
        FrameReceiver {
            id,
            no_crc,
            written: 0,
            crc: 0,
            hdr: Vec::new(),
            filled: 0,
            offset: 0,
            length: 0,
            want_crc: 0,
            eof: false,
            whole: Ghost(Seq::empty()),
            writes: Ghost(Seq::empty()),
        }
    }

    pub fn next(&self) -> (s: FrameStep)
        requires
            self.wf(),
        ensures
            s == self@.step(),
            s is Finish <==> self@.hdr.len() == 0 && self@.eof,
            s is Finish ==> s->written == payloads(self@.writes).len(),
    {
        proof {
            lemma_payloads_len(self@.writes);
        }
        let got: usize = self.hdr.len();
        if got < FRAME_HDR_LEN {
            if !self.eof {
                FrameStep::ReadHeader { want: FRAME_HDR_LEN - got }
            } else if got == 0 {
                FrameStep::Finish { written: self.written, crc: self.crc }
            } else {
                FrameStep::Fail(FrameFail::TruncatedHeader { got })
            }
        } else {
            let want: usize = self.length as usize;
            if self.filled == want {
                FrameStep::Check { len: want }
            } else if !self.eof {
                FrameStep::ReadPayload { from: self.filled, to: want }
            } else {
                FrameStep::Fail(FrameFail::ShortPayload { got: self.filled, want })
            }
        }
    }

    /// A read returned `data` of a header; nothing means that the input has
    /// ended.
    pub fn on_header(&mut self, data: &[u8])
        requires
            old(self).wf(),
            old(self)@.step() is ReadHeader,
            data@.len() <= old(self)@.step()->want,
        ensures
            final(self).wf(),
            final(self)@ == (FrameRx {
                hdr: old(self)@.hdr + data@,
                eof: data@.len() == 0,
                ..old(self)@
            }),
    {
        let ghost before = self.hdr@;
        let mut i: usize = 0;
        while i < data.len()
            invariant
                i <= data@.len(),
                self.hdr@ == before + data@.take(i as int),
                self.id == old(self).id,
                self.no_crc == old(self).no_crc,
                self.written == old(self).written,
                self.crc == old(self).crc,
                self.filled == old(self).filled,
                self.eof == old(self).eof,
                self.whole == old(self).whole,
                self.writes == old(self).writes,
            decreases data@.len() - i,
        {
            self.hdr.push(data[i]);
            assert(before + data@.take(i + 1) =~= (before + data@.take(i as int)).push(
                data@[i as int],
            ));
            i = i + 1;
        }
        assert(data@.take(i as int) =~= data@);
        self.eof = data.len() == 0;
        if self.hdr.len() == FRAME_HDR_LEN {
            let h: [u8; FRAME_HDR_LEN] = [
                self.hdr[0],
                self.hdr[1],
                self.hdr[2],
                self.hdr[3],
                self.hdr[4],
                self.hdr[5],
                self.hdr[6],
                self.hdr[7],
                self.hdr[8],
                self.hdr[9],
                self.hdr[10],
                self.hdr[11],
                self.hdr[12],
                self.hdr[13],
                self.hdr[14],
                self.hdr[15],
            ];
            assert(h@ =~= self.hdr@);
            let (offset, length, crc): (u64, u32, u32) = decode_frame_hdr(&h);
            self.offset = offset;
            self.length = length;
            self.want_crc = crc;
        }
    }

    /// A read returned `n` bytes of the payload; none means that the input has
    /// ended.
    pub fn on_payload(&mut self, n: usize)
        requires
            old(self).wf(),
            old(self)@.step() is ReadPayload,
            n <= old(self)@.step()->to - old(self)@.step()->from,
        ensures
            final(self).wf(),
            final(self)@ == (FrameRx {
                filled: old(self)@.filled + n,
                eof: n == 0,
                ..old(self)@
            }),
    {
        self.filled = self.filled + n;
        self.eof = n == 0;
    }

    /// Where the whole payload belongs, if it has the CRC that its header says.
    pub fn check(&self, payload: &[u8]) -> (r: Result<u64, FrameFail>)
        requires
            self.wf(),
            self@.step() is Check,
            payload@.len() == self@.step()->len,
        ensures
            r is Ok <==> payload_ok(self@.no_crc, self@.hdr, payload@),
            r is Ok <==> self@.no_crc || crc32c_of(payload@) == hdr_crc(self@.hdr),
            r is Ok ==> r->Ok_0 == hdr_offset(self@.hdr),
            r is Err ==> r->Err_0 == (FrameFail::BadCrc {
                id: self@.id,
                offset: hdr_offset(self@.hdr) as u64,
                length: hdr_length(self@.hdr) as u32,
                got_crc: crc32c_of(payload@),
                want_crc: hdr_crc(self@.hdr) as u32,
            }),
    {
        let got_crc: u32 = if self.no_crc {
            self.want_crc
        } else {
            crc32c(payload)
        };
        if got_crc != self.want_crc {
            Err(
                FrameFail::BadCrc {
                    id: self.id,
                    offset: self.offset,
                    length: self.length,
                    got_crc,
                    want_crc: self.want_crc,
                },
            )
        } else {
            Ok(self.offset)
        }
    }

    /// The payload, which has passed the check, has been written.
    pub fn on_written(&mut self, payload: &[u8])
        requires
            old(self).wf(),
            old(self)@.step() is Check,
            payload@.len() == old(self)@.step()->len,
            payload_ok(old(self)@.no_crc, old(self)@.hdr, payload@),
            old(self)@.written + payload@.len() <= u64::MAX,
        ensures
            final(self).wf(),
            final(self)@ == (FrameRx {
                whole: old(self)@.whole + old(self)@.hdr + payload@,
                writes: old(self)@.writes.push(
                    Placed { at: hdr_offset(old(self)@.hdr) as int, data: payload@ },
                ),
                written: old(self)@.written + payload@.len(),
                hdr: Seq::empty(),
                filled: 0,
                eof: false,
                ..old(self)@
            }),
    {
        proof {
            lemma_decode_one(self@, payload@);
            let w = Placed { at: hdr_offset(self.hdr@) as int, data: payload@ };
            let before = self.writes@;
            assert(before.push(w).drop_last() =~= before);
            assert(payloads(before.push(w)) == payloads(before) + payload@);
        }
        self.crc = extend_stream_crc(self.no_crc, self.crc, payload);
        self.whole = Ghost(self.whole@ + self.hdr@ + payload@);
        self.writes = Ghost(
            self.writes@.push(Placed { at: hdr_offset(self.hdr@) as int, data: payload@ }),
        );
        self.written = self.written + self.length as u64;
        self.hdr = Vec::new();
        self.filled = 0;
        self.eof = false;
    }
}

/// One more whole frame is one more write.
proof fn lemma_decode_one(rx: FrameRx, payload: Seq<u8>)
    requires
        rx.wf(),
        rx.hdr.len() == 16,
        payload.len() == hdr_length(rx.hdr),
        payload_ok(rx.no_crc, rx.hdr, payload),
    ensures
        decode_frames(rx.no_crc, rx.whole + rx.hdr + payload) == (
            rx.writes.push(Placed { at: hdr_offset(rx.hdr) as int, data: payload }),
            FrameEnd::Clean,
        ),
        placed_len(rx.writes.push(Placed { at: hdr_offset(rx.hdr) as int, data: payload }))
            == rx.written + payload.len(),
{
    let one = rx.hdr + payload;
    let w = Placed { at: hdr_offset(rx.hdr) as int, data: payload };
    assert(rx.whole + rx.hdr + payload =~= rx.whole + one);
    lemma_decode_after(rx.no_crc, rx.whole, one);
    assert(one.take(16) =~= rx.hdr);
    assert(one.subrange(16, 16 + payload.len() as int) =~= payload);
    assert(one.skip(16 + payload.len() as int) =~= Seq::empty());
    assert(decode_frames(rx.no_crc, Seq::empty()).0 =~= Seq::empty());
    assert(decode_frames(rx.no_crc, one).0 =~= seq![w]);
    assert(rx.writes + seq![w] =~= rx.writes.push(w));
    assert(rx.writes.push(w).drop_last() =~= rx.writes);
}

/// A data process makes exactly the writes that its stream asks for: when its
/// input ends, it finishes or fails as the stream ends, and what it has
/// written is what the stream decodes to. `pending` is what has come of the
/// next frame's payload.
pub proof fn law_process_follows_its_stream(rx: FrameRx, pending: Seq<u8>)
    requires
        rx.wf(),
        pending.len() == rx.filled,
        rx.eof,
    ensures
        rx.step() is Finish ==> decode_frames(rx.no_crc, rx.whole + rx.hdr + pending) == (
            rx.writes,
            FrameEnd::Clean,
        ) && rx.step()->written == placed_len(rx.writes) && rx.step()->crc == stream_crc(
            rx.no_crc,
            payloads(rx.writes),
        ),
        rx.step() is Fail ==> decode_frames(rx.no_crc, rx.whole + rx.hdr + pending) == (
            rx.writes,
            match rx.step()->Fail_0 {
                FrameFail::TruncatedHeader { got } => FrameEnd::TruncatedHeader { got: got as int },
                FrameFail::ShortPayload { got, want } => FrameEnd::ShortPayload {
                    got: got as int,
                    want: want as int,
                },
                FrameFail::BadCrc { offset, got_crc, want_crc, .. } => FrameEnd::BadCrc {
                    offset: offset as int,
                    got_crc,
                    want_crc,
                },
            },
        ),
{
    let rest = rx.hdr + pending;
    assert(rx.whole + rx.hdr + pending =~= rx.whole + rest);
    lemma_decode_after(rx.no_crc, rx.whole, rest);
    if rx.hdr.len() == 16 {
        law_frame_hdr_bytes_round_trip(rx.hdr);
        assert(rest.take(16) =~= rx.hdr);
    }
    if rx.step() is Finish || rx.step() is Fail {
        assert(rx.writes + decode_frames(rx.no_crc, rest).0 =~= rx.writes);
    }
}

/// A process whose stream was the frames of `ws`, and nothing else, has written
/// all of them, and reports their bytes and the CRC of their payloads, one after
/// another.
pub proof fn law_whole_stream_is_reported(rx: FrameRx, ws: Seq<Placed>)
    requires
        rx.wf(),
        forall|i: int|
            0 <= i < ws.len() ==> {
                &&& 0 <= (#[trigger] ws[i]).at <= u64::MAX
                &&& ws[i].data.len() < 0x1_0000_0000
            },
        rx.whole == frames_bytes(rx.no_crc, ws),
        rx.hdr.len() == 0,
        rx.eof,
    ensures
        rx.writes == ws,
        rx.step() is Finish,
        rx.step()->written == placed_len(ws),
        rx.step()->crc == stream_crc(rx.no_crc, payloads(ws)),
{
    law_frames_round_trip(rx.no_crc, ws);
}

/// A frame whose payload fails the check ends its stream: nothing after it is
/// written.
pub proof fn law_bad_payload_ends_its_stream(rx: FrameRx, payload: Seq<u8>, after: Seq<u8>)
    requires
        rx.wf(),
        rx.step() is Check,
        payload.len() == rx.step()->len,
        !payload_ok(rx.no_crc, rx.hdr, payload),
    ensures
        decode_frames(rx.no_crc, rx.whole + (rx.hdr + payload + after)).0 == rx.writes,
        decode_frames(rx.no_crc, rx.whole + (rx.hdr + payload + after)).1 is BadCrc,
{
    let rest = rx.hdr + payload + after;
    lemma_decode_after(rx.no_crc, rx.whole, rest);
    law_frame_hdr_bytes_round_trip(rx.hdr);
    assert(rest.take(16) =~= rx.hdr);
    assert(rest.subrange(16, 16 + payload.len() as int) =~= payload);
    assert(rx.writes + decode_frames(rx.no_crc, rest).0 =~= rx.writes);
}

/// A framed transfer delivers its source: the input is cut into chunks, each
/// chunk travels as a frame on one of the streams (`lanes`), in whatever order
/// the streams took them, each data process writes what its stream decodes to,
/// and the writes of all of them reach the output in any order.
pub proof fn law_framed_transfer_delivers(
    no_crc: bool,
    file: Seq<u8>,
    source: Seq<u8>,
    chunks: Seq<Seq<u8>>,
    lanes: Seq<Seq<Placed>>,
    ws: Seq<Placed>,
)
    requires
        joined(chunks) == source,
        source.len() <= u64::MAX,
        forall|i: int| 0 <= i < chunks.len() ==> (#[trigger] chunks[i]).len() < 0x1_0000_0000,
        forall|i: int, w: Placed|
            0 <= i < lanes.len() && #[trigger] lanes[i].contains(w) ==> consecutive(
                0,
                chunks,
            ).contains(w),
        forall|w: Placed| #[trigger]
            consecutive(0, chunks).contains(w) ==> exists|i: int|
                0 <= i < lanes.len() && (#[trigger] lanes[i]).contains(w),
        forall|j: int|
            0 <= j < ws.len() ==> exists|i: int|
                0 <= i < lanes.len() && decode_frames(
                    no_crc,
                    frames_bytes(no_crc, #[trigger] lanes[i]),
                ).0.contains(#[trigger] ws[j]),
        forall|i: int, w: Placed|
            0 <= i < lanes.len() && #[trigger] decode_frames(
                no_crc,
                frames_bytes(no_crc, lanes[i]),
            ).0.contains(w) ==> ws.contains(w),
    ensures
        apply(file, ws) == delivered(file, source),
{
    let all = consecutive(0, chunks);
    lemma_consecutive(0, chunks);
    assert forall|i: int| 0 <= i < lanes.len() implies decode_frames(
        no_crc,
        frames_bytes(no_crc, #[trigger] lanes[i]),
    ).0 == lanes[i] by {
        assert forall|k: int| 0 <= k < lanes[i].len() implies {
            &&& 0 <= (#[trigger] lanes[i][k]).at <= u64::MAX
            &&& lanes[i][k].data.len() < 0x1_0000_0000
        } by {
            let w = lanes[i][k];
            assert(lanes[i].contains(w));
            let m = all.index_of(w);
            assert(all[m] == w);
            assert(w.data == chunks[m]);
        }
        law_frames_round_trip(no_crc, lanes[i]);
    }
    assert forall|j: int| 0 <= j < ws.len() implies all.contains(#[trigger] ws[j]) by {
        let i = choose|i: int|
            0 <= i < lanes.len() && decode_frames(
                no_crc,
                frames_bytes(no_crc, #[trigger] lanes[i]),
            ).0.contains(ws[j]);
        assert(lanes[i].contains(ws[j]));
    }
    assert forall|w: Placed| #[trigger] all.contains(w) implies ws.contains(w) by {
        let i = choose|i: int| 0 <= i < lanes.len() && (#[trigger] lanes[i]).contains(w);
        assert(decode_frames(no_crc, frames_bytes(no_crc, lanes[i])).0.contains(w));
    }
    law_framed_mode_delivers(file, source, chunks, ws);
}

proof fn lemma_payloads_len(ws: Seq<Placed>)
    ensures
        payloads(ws).len() == placed_len(ws),
    decreases ws.len(),
{
    if ws.len() > 0 {
        lemma_payloads_len(ws.drop_last());
    }
}

/// A process reads headers and payloads to their ends, checks each payload that
/// is whole, finishes only where its input ends between two frames, and gives
/// up where it ends inside one. What it reports is how many bytes it has
/// written, and their CRC.
pub proof fn law_frames_are_read_to_their_ends(rx: FrameRx)
    requires
        rx.wf(),
    ensures
        rx.step() is ReadHeader <==> rx.hdr.len() < 16 && !rx.eof,
        rx.step() is ReadHeader ==> rx.step()->want == 16 - rx.hdr.len(),
        rx.step() is ReadPayload <==> rx.hdr.len() == 16 && !rx.eof && rx.filled < hdr_length(
            rx.hdr,
        ),
        rx.step() is ReadPayload ==> rx.step()->from == rx.filled && rx.step()->to == hdr_length(
            rx.hdr,
        ),
        rx.step() is Check <==> rx.hdr.len() == 16 && rx.filled == hdr_length(rx.hdr),
        rx.step() is Check ==> rx.step()->len == rx.filled,
        rx.step() is Finish <==> rx.hdr.len() == 0 && rx.eof,
        rx.step() is Finish ==> rx.step()->written == payloads(rx.writes).len(),
        rx.step() is Finish && !rx.no_crc ==> rx.step()->crc == crc32c_of(payloads(rx.writes)),
        rx.step() is Finish && rx.no_crc ==> rx.step()->crc == 0,
        rx.step() is Fail <==> rx.eof && (0 < rx.hdr.len() < 16 || (rx.hdr.len() == 16
            && rx.filled < hdr_length(rx.hdr))),
        rx.step() is Fail ==> match rx.step()->Fail_0 {
            FrameFail::TruncatedHeader { got } => got == rx.hdr.len() && got < 16,
            FrameFail::ShortPayload { got, want } => {
                &&& got == rx.filled
                &&& want == hdr_length(rx.hdr)
                &&& rx.hdr.len() == 16
            },
            FrameFail::BadCrc { .. } => false,
        },
{
    lemma_payloads_len(rx.writes);
    if rx.hdr.len() == 16 {
        law_frame_hdr_bytes_round_trip(rx.hdr);
    }
}

/// A frame holds where its payload belongs, how long it is and its CRC, and
/// behind these the payload itself.
pub proof fn law_frame_says_what_it_carries(no_crc: bool, w: Placed)
    requires
        0 <= w.at <= u64::MAX,
        w.data.len() < 0x1_0000_0000,
    ensures
        frame_bytes(no_crc, w).len() == 16 + w.data.len(),
        hdr_offset(frame_bytes(no_crc, w).take(16)) == w.at,
        hdr_length(frame_bytes(no_crc, w).take(16)) == w.data.len(),
        !no_crc ==> hdr_crc(frame_bytes(no_crc, w).take(16)) == crc32c_of(w.data),
        no_crc ==> hdr_crc(frame_bytes(no_crc, w).take(16)) == 0,
        frame_bytes(no_crc, w).skip(16) == w.data,
{
    let crc = frame_crc(no_crc, w.data);
    let hdr = frame_hdr(w.at as u64, w.data.len() as u32, crc);
    law_frame_hdr_round_trip(w.at as u64, w.data.len() as u32, crc);
    assert(frame_bytes(no_crc, w) == hdr + w.data);
    assert(frame_bytes(no_crc, w).take(16) =~= hdr);
    assert(frame_bytes(no_crc, w).skip(16) =~= w.data);
}

/// A payload that was changed on the way, so that its CRC is another, is not
/// written, and nothing behind it is.
pub proof fn law_changed_payload_is_refused(w: Placed, changed: Seq<u8>, after: Seq<u8>)
    requires
        0 <= w.at <= u64::MAX,
        w.data.len() < 0x1_0000_0000,
        changed.len() == w.data.len(),
        crc32c_of(changed) != crc32c_of(w.data),
    ensures
        ({
            let stream = frame_bytes(false, w).take(16) + changed + after;
            &&& decode_frames(false, stream).0.len() == 0
            &&& decode_frames(false, stream).1 == (FrameEnd::BadCrc {
                offset: w.at,
                got_crc: crc32c_of(changed),
                want_crc: crc32c_of(w.data),
            })
        }),
{
    law_frame_says_what_it_carries(false, w);
    let hdr = frame_bytes(false, w).take(16);
    let stream = hdr + changed + after;
    assert(stream.take(16) =~= hdr);
    let want = hdr_length(hdr) as int;
    assert(want == changed.len());
    assert(stream.subrange(16, 16 + want) =~= changed);
    assert(hdr_crc(hdr) == crc32c_of(w.data));
    assert(!payload_ok(false, hdr, changed));
    assert(hdr_crc(hdr) as u32 == crc32c_of(w.data));
    assert(hdr_offset(hdr) as int == w.at);
    assert(decode_frames(false, stream) == (
        Seq::<Placed>::empty(),
        FrameEnd::BadCrc {
            offset: hdr_offset(hdr) as int,
            got_crc: crc32c_of(changed),
            want_crc: hdr_crc(hdr) as u32,
        },
    ));
}

/// With CRCs switched off, a payload is written whatever it is.
pub proof fn law_without_crcs_nothing_is_refused(w: Placed, changed: Seq<u8>)
    requires
        0 <= w.at <= u64::MAX,
        w.data.len() < 0x1_0000_0000,
        changed.len() == w.data.len(),
    ensures
        decode_frames(true, frame_bytes(true, w).take(16) + changed) == (
            seq![Placed { at: w.at, data: changed }],
            FrameEnd::Clean,
        ),
{
    law_frame_says_what_it_carries(true, w);
    let hdr = frame_bytes(true, w).take(16);
    let stream = hdr + changed;
    assert(stream.take(16) =~= hdr);
    assert(stream.subrange(16, 16 + changed.len() as int) =~= changed);
    assert(stream.skip(16 + changed.len() as int) =~= Seq::empty());
    assert(decode_frames(true, Seq::empty()).0 =~= Seq::empty());
    assert(seq![Placed { at: w.at, data: changed }] + Seq::empty() =~= seq![
        Placed { at: w.at, data: changed },
    ]);
}

/// What is told of a bad frame names the stream, where the frame belongs, how
/// long it is, and both CRCs, the one that was computed first.
pub proof fn law_bad_frames_are_named(
    id: u32,
    offset: u64,
    length: u32,
    got_crc: u32,
    want_crc: u32,
    got: usize,
    want: usize,
)
    ensures
        (FrameFail::TruncatedHeader { got }).text() == "truncated frame header ("@ + dec(got as nat)
            + " bytes)"@,
        (FrameFail::ShortPayload { got, want }).text() == "short frame payload: got "@ + dec(
            got as nat,
        ) + "/"@ + dec(want as nat),
        (FrameFail::BadCrc { id, offset, length, got_crc, want_crc }).text()
            == "crc mismatch stream "@ + dec(id as nat) + " @off "@ + dec(offset as nat) + " len "@
            + dec(length as nat) + ": got 0x"@ + hex(got_crc as nat, 8) + " want 0x"@ + hex(
            want_crc as nat,
            8,
        ),
{
}

/// Whatever the length of a payload, its header holds that length modulo
/// `2^32`, and the payload follows whole.
pub proof fn law_frame_lengths_wrap(no_crc: bool, w: Placed)
    requires
        0 <= w.at <= u64::MAX,
    ensures
        hdr_offset(frame_bytes(no_crc, w).take(16)) == w.at,
        hdr_length(frame_bytes(no_crc, w).take(16)) == w.data.len() % 0x1_0000_0000,
        frame_bytes(no_crc, w).skip(16) == w.data,
{
    let crc = frame_crc(no_crc, w.data);
    let len = (w.data.len() % 0x1_0000_0000) as u32;
    let hdr = frame_hdr(w.at as u64, len, crc);
    law_frame_hdr_round_trip(w.at as u64, len, crc);
    assert(frame_bytes(no_crc, w) == hdr + w.data);
    assert(frame_bytes(no_crc, w).take(16) =~= hdr);
    assert(frame_bytes(no_crc, w).skip(16) =~= w.data);
}

} // verus!
