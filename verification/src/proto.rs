//! The messages of the transfer protocol, and the header of a data frame.
//!
//! [`CtrlMsg`] travels on the SSH control channel between the sender and the
//! receiver's control process; [`RvMsg`] on the receiver's local rendezvous
//! socket, between the control process and its data processes. Both travel as
//! lines of text. Only the data frames of framed mode are binary.

use vstd::prelude::*;

verus! {

/// What a manifest must start with.
pub const MAGIC: &'static str = "DDNG1";

/// A read that returns data, but less than this many bytes, counts as starved:
/// the reader was waiting for the network.
pub const STARVE_THRESHOLD: usize = 65536;

#[derive(Debug, Clone, Copy, PartialEq, Eq, Structural)]
pub enum Mode {
    /// Seekable input of known size: one fixed byte range per stream, no framing.
    Range,
    /// Input of unknown size: each frame carries its offset, length and CRC.
    Framed,
}

/// What the sender tells the receiver before any data flows.
#[derive(Debug)]
pub struct Manifest {
    pub magic: String,
    pub token: String,
    pub mode: Mode,
    pub n_streams: u32,
    /// 0 in framed mode, where the size is unknown.
    pub total_size: u64,
    pub block_size: u64,
    pub output_path: String,
    /// The receiver flushes the output to disk before it acknowledges.
    pub sync: bool,
    /// The receiver bypasses the page cache (range mode only).
    pub direct: bool,
    /// Neither side computes or compares CRCs.
    pub no_crc: bool,
    /// Empty in framed mode.
    pub ranges: Vec<Range>,
}

/// The bytes `offset .. offset + length` of the input.
#[derive(Debug, Clone, Copy, PartialEq, Eq, Structural)]
pub struct Range {
    pub offset: u64,
    pub length: u64,
}

/// What one data process of the receiver measured.
#[derive(Debug, Clone, Copy, PartialEq, Eq, Structural)]
pub struct RecvStreamStats {
    pub stream_id: u32,
    pub bytes: u64,
    pub net_recv_ns: u64,
    pub dst_write_ns: u64,
    pub wall_ns: u64,
    pub read_starved_ns: u64,
    pub read_calls: u64,
    pub read_short_calls: u64,
}

/// Messages on the control channel.
#[derive(Debug)]
pub enum CtrlMsg {
    Ready,
    /// Sender to receiver, at the end of the transfer. In range mode, the
    /// CRC32C of what each stream sent; in framed mode, no CRCs.
    SenderReport { stream_crcs: Vec<u32>, total_bytes: u64 },
    /// Receiver to sender, before `Done`: the sums over all streams, but for
    /// `wall_ns`, which is the longest stream's.
    RecvStats {
        net_recv_ns: u64,
        dst_write_ns: u64,
        wall_ns: u64,
        read_starved_ns: u64,
        read_calls: u64,
        read_short_calls: u64,
        per_stream: Vec<RecvStreamStats>,
    },
    Done { bytes: u64 },
    Abort { reason: String },
}

/// Messages on the rendezvous socket.
#[derive(Debug)]
pub enum RvMsg {
    Hello { stream_id: u32 },
    AssignRange { output_path: String, offset: u64, length: u64, direct: bool, no_crc: bool },
    AssignFramed { output_path: String, no_crc: bool },
    /// What a data process wrote, with its measurements. `crc` is the CRC32C of
    /// the bytes written; in framed mode, of the payloads in the order in which
    /// they came. It is 0 in a transfer without CRCs.
    Done {
        stream_id: u32,
        bytes: u64,
        crc: u32,
        net_recv_ns: u64,
        dst_write_ns: u64,
        wall_ns: u64,
        read_starved_ns: u64,
        read_calls: u64,
        read_short_calls: u64,
    },
    Failed { stream_id: u32, reason: String },
}

/// The size of a frame header: the offset (8 bytes), the payload's length (4)
/// and the payload's CRC32C (4), each little endian.
pub const FRAME_HDR_LEN: usize = 16;

/// The lowest `width` base-256 digits of `n`, least significant first.
pub open spec fn le_bytes(n: nat, width: nat) -> Seq<u8>
    decreases width,
{
    if width == 0 {
        Seq::empty()
    } else {
        seq![(n % 256) as u8] + le_bytes(n / 256, (width - 1) as nat)
    }
}

/// The number whose base-256 digits are `bytes`, least significant first.
pub open spec fn le_value(bytes: Seq<u8>) -> nat
    decreases bytes.len(),
{
    if bytes.len() == 0 {
        0
    } else {
        bytes[0] as nat + 256 * le_value(bytes.skip(1))
    }
}

/// The bytes of a frame header.
pub open spec fn frame_hdr(offset: u64, length: u32, crc: u32) -> Seq<u8> {
    le_bytes(offset as nat, 8) + le_bytes(length as nat, 4) + le_bytes(crc as nat, 4)
}

/// The offset that a header's bytes hold.
pub open spec fn hdr_offset(hdr: Seq<u8>) -> nat {
    le_value(hdr.subrange(0, 8))
}

/// The payload length that a header's bytes hold.
pub open spec fn hdr_length(hdr: Seq<u8>) -> nat {
    le_value(hdr.subrange(8, 12))
}

/// The payload's CRC32C that a header's bytes hold.
pub open spec fn hdr_crc(hdr: Seq<u8>) -> nat {
    le_value(hdr.subrange(12, 16))
}

/// `le_bytes` gives as many bytes as it is asked for, and `le_value` reads the
/// number back, if it fits.
pub proof fn lemma_le_value_of_bytes(n: nat, width: nat)
    requires
        n < vstd::arithmetic::power::pow(256, width),
    ensures
        le_bytes(n, width).len() == width,
        le_value(le_bytes(n, width)) == n,
    decreases width,
{
    vstd::arithmetic::power::lemma_pow0(256);
    if width > 0 {
        let w = (width - 1) as nat;
        assert(vstd::arithmetic::power::pow(256, width) == 256 * vstd::arithmetic::power::pow(256, w)) by {
            reveal(vstd::arithmetic::power::pow);
        }
        lemma_le_value_of_bytes(n / 256, w);
        assert(le_bytes(n, width).skip(1) =~= le_bytes(n / 256, w));
    }
}

/// `le_bytes` gives back the bytes of the number that `le_value` read.
pub proof fn lemma_le_bytes_of_value(bytes: Seq<u8>)
    ensures
        le_bytes(le_value(bytes), bytes.len()) == bytes,
        le_value(bytes) < vstd::arithmetic::power::pow(256, bytes.len()),
    decreases bytes.len(),
{
    vstd::arithmetic::power::lemma_pow0(256);
    if bytes.len() > 0 {
        let w = (bytes.len() - 1) as nat;
        let rest = bytes.skip(1);
        lemma_le_bytes_of_value(rest);
        assert(vstd::arithmetic::power::pow(256, bytes.len()) == 256 * vstd::arithmetic::power::pow(256, w)) by {
            reveal(vstd::arithmetic::power::pow);
        }
        let n = le_value(bytes);
        assert(n / 256 == le_value(rest) && n % 256 == bytes[0] as nat);
        assert(le_bytes(n, bytes.len()) =~= seq![bytes[0]] + rest);
        assert(seq![bytes[0]] + rest =~= bytes);
    }
}

/// The bytes of a number of up to eight bytes, spelled out.
proof fn lemma_le_bytes_unfold(n: nat)
    ensures
        le_bytes(n, 4) == seq![
            (n % 256) as u8,
            ((n / 0x100) % 256) as u8,
            ((n / 0x1_0000) % 256) as u8,
            ((n / 0x100_0000) % 256) as u8,
        ],
        le_bytes(n, 8) == seq![
            (n % 256) as u8,
            ((n / 0x100) % 256) as u8,
            ((n / 0x1_0000) % 256) as u8,
            ((n / 0x100_0000) % 256) as u8,
            ((n / 0x1_0000_0000) % 256) as u8,
            ((n / 0x100_0000_0000) % 256) as u8,
            ((n / 0x1_0000_0000_0000) % 256) as u8,
            ((n / 0x100_0000_0000_0000) % 256) as u8,
        ],
{
    reveal_with_fuel(le_bytes, 9);
    assert(n / 256 / 256 == n / 0x1_0000);
    assert(n / 0x1_0000 / 256 == n / 0x100_0000);
    assert(n / 0x100_0000 / 256 == n / 0x1_0000_0000);
    assert(n / 0x1_0000_0000 / 256 == n / 0x100_0000_0000);
    assert(n / 0x100_0000_0000 / 256 == n / 0x1_0000_0000_0000);
    assert(n / 0x1_0000_0000_0000 / 256 == n / 0x100_0000_0000_0000);
}

/// The number in up to eight bytes, spelled out.
proof fn lemma_le_value_unfold(b: Seq<u8>)
    ensures
        b.len() == 4 ==> le_value(b) == b[0] + 0x100 * b[1] + 0x1_0000 * b[2] + 0x100_0000 * b[3],
        b.len() == 8 ==> le_value(b) == b[0] + 0x100 * b[1] + 0x1_0000 * b[2] + 0x100_0000 * b[3]
            + 0x1_0000_0000 * b[4] + 0x100_0000_0000 * b[5] + 0x1_0000_0000_0000 * b[6]
            + 0x100_0000_0000_0000 * b[7],
{
    reveal_with_fuel(le_value, 9);
    if b.len() == 4 || b.len() == 8 {
        assert(b.skip(1).skip(1) =~= b.skip(2));
        assert(b.skip(2).skip(1) =~= b.skip(3));
        assert(b.skip(3).skip(1) =~= b.skip(4));
    }
    if b.len() == 8 {
        assert(b.skip(4).skip(1) =~= b.skip(5));
        assert(b.skip(5).skip(1) =~= b.skip(6));
        assert(b.skip(6).skip(1) =~= b.skip(7));
        assert(b.skip(7).skip(1) =~= b.skip(8));
    }
}

/// The header of a frame whose payload belongs at `offset`.
pub fn encode_frame_hdr(offset: u64, length: u32, crc: u32) -> (b: [u8; FRAME_HDR_LEN])
    ensures
        b@ == frame_hdr(offset, length, crc),
{
    let b: [u8; FRAME_HDR_LEN] = [
        (offset % 0x100) as u8,
        ((offset / 0x100) % 0x100) as u8,
        ((offset / 0x1_0000) % 0x100) as u8,
        ((offset / 0x100_0000) % 0x100) as u8,
        ((offset / 0x1_0000_0000) % 0x100) as u8,
        ((offset / 0x100_0000_0000) % 0x100) as u8,
        ((offset / 0x1_0000_0000_0000) % 0x100) as u8,
        ((offset / 0x100_0000_0000_0000) % 0x100) as u8,
        (length % 0x100) as u8,
        ((length / 0x100) % 0x100) as u8,
        ((length / 0x1_0000) % 0x100) as u8,
        ((length / 0x100_0000) % 0x100) as u8,
        (crc % 0x100) as u8,
        ((crc / 0x100) % 0x100) as u8,
        ((crc / 0x1_0000) % 0x100) as u8,
        ((crc / 0x100_0000) % 0x100) as u8,
    ];
    proof {
        lemma_le_bytes_unfold(offset as nat);
        lemma_le_bytes_unfold(length as nat);
        lemma_le_bytes_unfold(crc as nat);
        assert(b@ =~= frame_hdr(offset, length, crc));
    }
    b
}

/// The offset, payload length and payload CRC that a frame header holds.
pub fn decode_frame_hdr(b: &[u8; FRAME_HDR_LEN]) -> (r: (u64, u32, u32))
    ensures
        r.0 == hdr_offset(b@),
        r.1 == hdr_length(b@),
        r.2 == hdr_crc(b@),
{
    proof {
        lemma_le_value_unfold(b@.subrange(0, 8));
        lemma_le_value_unfold(b@.subrange(8, 12));
        lemma_le_value_unfold(b@.subrange(12, 16));
    }
    let offset: u64 = b[0] as u64 + 0x100 * (b[1] as u64) + 0x1_0000 * (b[2] as u64)
        + 0x100_0000 * (b[3] as u64) + 0x1_0000_0000 * (b[4] as u64) + 0x100_0000_0000 * (
    b[5] as u64) + 0x1_0000_0000_0000 * (b[6] as u64) + 0x100_0000_0000_0000 * (b[7] as u64);
    let length: u32 = b[8] as u32 + 0x100 * (b[9] as u32) + 0x1_0000 * (b[10] as u32)
        + 0x100_0000 * (b[11] as u32);
    let crc: u32 = b[12] as u32 + 0x100 * (b[13] as u32) + 0x1_0000 * (b[14] as u32)
        + 0x100_0000 * (b[15] as u32);
    (offset, length, crc)
}

/// Decoding an encoded header gives back the offset, the length and the CRC.
pub proof fn law_frame_hdr_round_trip(offset: u64, length: u32, crc: u32)
    ensures
        frame_hdr(offset, length, crc).len() == FRAME_HDR_LEN,
        hdr_offset(frame_hdr(offset, length, crc)) == offset,
        hdr_length(frame_hdr(offset, length, crc)) == length,
        hdr_crc(frame_hdr(offset, length, crc)) == crc,
{
    assert(vstd::arithmetic::power::pow(256, 4) == 0x1_0000_0000 && vstd::arithmetic::power::pow(
        256,
        8,
    ) == 0x1_0000_0000_0000_0000) by {
        reveal_with_fuel(vstd::arithmetic::power::pow, 9);
    }
    lemma_le_value_of_bytes(offset as nat, 8);
    lemma_le_value_of_bytes(length as nat, 4);
    lemma_le_value_of_bytes(crc as nat, 4);
    let h = frame_hdr(offset, length, crc);
    assert(h.subrange(0, 8) =~= le_bytes(offset as nat, 8));
    assert(h.subrange(8, 12) =~= le_bytes(length as nat, 4));
    assert(h.subrange(12, 16) =~= le_bytes(crc as nat, 4));
}

/// Every sixteen bytes are the header of what they decode to: no two headers
/// mean the same frame.
pub proof fn law_frame_hdr_bytes_round_trip(hdr: Seq<u8>)
    requires
        hdr.len() == FRAME_HDR_LEN,
    ensures
        hdr_offset(hdr) <= u64::MAX,
        hdr_length(hdr) <= u32::MAX,
        hdr_crc(hdr) <= u32::MAX,
        frame_hdr(hdr_offset(hdr) as u64, hdr_length(hdr) as u32, hdr_crc(hdr) as u32) == hdr,
{
    assert(vstd::arithmetic::power::pow(256, 4) == 0x1_0000_0000 && vstd::arithmetic::power::pow(
        256,
        8,
    ) == 0x1_0000_0000_0000_0000) by {
        reveal_with_fuel(vstd::arithmetic::power::pow, 9);
    }
    lemma_le_bytes_of_value(hdr.subrange(0, 8));
    lemma_le_bytes_of_value(hdr.subrange(8, 12));
    lemma_le_bytes_of_value(hdr.subrange(12, 16));
    assert(hdr.subrange(0, 8) + hdr.subrange(8, 12) + hdr.subrange(12, 16) =~= hdr);
}

/// Byte `i` of a header is digit `i` to the base 256: of the offset for the
/// first eight, of the length for the next four, of the CRC for the last four.
pub proof fn law_frame_hdr_layout(offset: u64, length: u32, crc: u32)
    ensures
        ({
            let h = frame_hdr(offset, length, crc);
            &&& h.len() == 16
            &&& offset == h[0] + 0x100 * h[1] + 0x1_0000 * h[2] + 0x100_0000 * h[3]
                + 0x1_0000_0000 * h[4] + 0x100_0000_0000 * h[5] + 0x1_0000_0000_0000 * h[6]
                + 0x100_0000_0000_0000 * h[7]
            &&& length == h[8] + 0x100 * h[9] + 0x1_0000 * h[10] + 0x100_0000 * h[11]
            &&& crc == h[12] + 0x100 * h[13] + 0x1_0000 * h[14] + 0x100_0000 * h[15]
        }),
{
    let h = frame_hdr(offset, length, crc);
    law_frame_hdr_round_trip(offset, length, crc);
    lemma_le_value_unfold(h.subrange(0, 8));
    lemma_le_value_unfold(h.subrange(8, 12));
    lemma_le_value_unfold(h.subrange(12, 16));
}

} // verus!
