//! The sender: what it plans before the transfer, what it tells the receiver,
//! and what it makes of the receiver's answers.

use crate::proto::{CtrlMsg, Manifest, Mode, Range, RecvStreamStats, MAGIC};
use crate::ranges::{
    compute_ranges, compute_ranges_aligned, law_tiles_add_up, share, share_before, tiles,
    total_length,
};
use crate::recv_range::DIRECT_ALIGN;
use crate::text::{dec, digit, digit_text, push_dec, str_eq};
use rand::RngCore;
use vstd::prelude::*;

verus! {

/// What the user asked for.
pub struct SendOpts {
    /// The input, or `-` for standard input.
    pub input: String,
    pub remote: String,
    pub streams: u32,
    pub block_size: u64,
    pub remote_bin: String,
    pub ssh_bin: String,
    pub extra_ssh: Vec<String>,
    pub stream_delay_ms: u64,
    pub no_ssh_defaults: bool,
    pub sync: bool,
    pub verbose: u8,
    pub quiet: bool,
    pub direct: bool,
    pub no_crc: bool,
    pub stats: bool,
}

/// How many streams there are if the user does not say.
pub const DEFAULT_STREAMS: u32 = 4;

/// What the input turned out to be.
#[derive(Debug, Clone, Copy, PartialEq, Eq, Structural)]
pub enum InputKind {
    Stdin,
    Fifo,
    File { size: u64 },
    Device { size: u64 },
    Other,
}

/// How the input is sent.
#[derive(Debug)]
pub struct Plan {
    pub mode: Mode,
    /// 0 in framed mode.
    pub total_size: u64,
    /// One for each stream; none in framed mode.
    pub ranges: Vec<Range>,
}

/// Why the input cannot be sent as asked.
#[derive(Debug, Clone, Copy, PartialEq, Eq, Structural)]
pub enum PlanError {
    DirectStdin,
    DirectFifo,
    WrongInput,
    BlockSize,
}

impl PlanError {
    pub open spec fn text(self) -> Seq<char> {
        match self {
            PlanError::DirectStdin =>
                "--direct requires a seekable input (regular file or block device), not stdin"@,
            PlanError::DirectFifo =>
                "--direct requires a seekable input (regular file or block device), not a FIFO"@,
            PlanError::WrongInput =>
                "input must be a regular file, block device, FIFO, or '-' for stdin"@,
            PlanError::BlockSize => "--direct requires --block-size to be a multiple of "@ + dec(
                DIRECT_ALIGN as nat,
            ),
        }
    }

    /// What a user is told.
    pub fn reason(&self) -> (s: String)
        ensures
            s@ == self.text(),
    {
        let mut s: String = String::new();
        match self {
            PlanError::DirectStdin => s.append(
                "--direct requires a seekable input (regular file or block device), not stdin",
            ),
            PlanError::DirectFifo => s.append(
                "--direct requires a seekable input (regular file or block device), not a FIFO",
            ),
            PlanError::WrongInput => s.append(
                "input must be a regular file, block device, FIFO, or '-' for stdin",
            ),
            PlanError::BlockSize => {
                s.append("--direct requires --block-size to be a multiple of ");
                push_dec(&mut s, DIRECT_ALIGN);
            },
        }
        assert(s@ == self.text());
        s
    }
}

/// Why the input cannot be sent as asked, if it cannot.
pub open spec fn plan_error(kind: InputKind, block_size: u64, direct: bool) -> Option<PlanError> {
    match kind {
        InputKind::Stdin if direct => Some(PlanError::DirectStdin),
        InputKind::Fifo if direct => Some(PlanError::DirectFifo),
        InputKind::Other => Some(PlanError::WrongInput),
        InputKind::File { .. } if direct && block_size % DIRECT_ALIGN != 0 => Some(
            PlanError::BlockSize,
        ),
        InputKind::Device { .. } if direct && block_size % DIRECT_ALIGN != 0 => Some(
            PlanError::BlockSize,
        ),
        _ => None,
    }
}

/// The size of an input that has one.
pub open spec fn known_size(kind: InputKind) -> Option<u64> {
    match kind {
        InputKind::File { size } => Some(size),
        InputKind::Device { size } => Some(size),
        _ => None,
    }
}

/// The ranges are as even as they can be: to the byte, or to the block where
/// the page cache is bypassed, with the rest of the last block in the last
/// range.
pub open spec fn split(ranges: Seq<Range>, total: int, n: int, direct: bool) -> bool {
    let unit = if direct {
        DIRECT_ALIGN as int
    } else {
        1
    };
    &&& ranges.len() == n
    &&& forall|i: int|
        0 <= i < n ==> {
            &&& (#[trigger] ranges[i]).offset == share_before(total / unit, n, i) * unit
            &&& ranges[i].length == share(total / unit, n, i) * unit + if i == n - 1 {
                total % unit
            } else {
                0
            }
        }
}

/// The input is standard input.
pub fn is_stdin(input: &str) -> (b: bool)
    ensures
        b == (input@ == "-"@),
{
    str_eq(input, "-")
}

/// Decides how an input is sent: in ranges where its size is known, in frames
/// where it is not.
pub fn plan(kind: InputKind, streams: u32, block_size: u64, direct: bool) -> (r: Result<
    Plan,
    PlanError,
>)
    requires
        known_size(kind) is Some && plan_error(kind, block_size, direct) is None ==> streams > 0,
    ensures
        match r {
            Err(e) => plan_error(kind, block_size, direct) == Some(e),
            Ok(p) => {
                &&& plan_error(kind, block_size, direct) is None
                &&& match known_size(kind) {
                    None => p.mode == Mode::Framed && p.total_size == 0 && p.ranges@.len() == 0,
                    Some(size) => {
                        &&& p.mode == Mode::Range
                        &&& p.total_size == size
                        &&& split(p.ranges@, size as int, streams as int, direct)
                        &&& tiles(p.ranges@, size as int)
                    },
                }
            },
        },
        kind is Stdin || kind is Fifo ==> (r is Ok <==> !direct),
        kind is File || kind is Device ==> (r is Ok <==> !direct || block_size % 4096 == 0),
        kind is Other ==> r is Err,
        r is Ok ==> (r->Ok_0.mode == Mode::Range <==> kind is File || kind is Device),
        r is Ok && kind is File ==> r->Ok_0.total_size == kind->File_size,
        r is Ok && kind is Device ==> r->Ok_0.total_size == kind->Device_size,
        r is Ok && r->Ok_0.mode == Mode::Range ==> {
            let ranges = r->Ok_0.ranges@;
            &&& ranges.len() == streams
            &&& ranges[0].offset == 0
            &&& ranges[streams - 1].offset + ranges[streams - 1].length == r->Ok_0.total_size
            &&& forall|i: int, j: int|
                #![trigger ranges[i], ranges[j]]
                0 <= i && j == i + 1 && j < streams ==> ranges[j].offset == ranges[i].offset
                    + ranges[i].length
            &&& !direct ==> forall|i: int, j: int|
                0 <= i <= j < streams ==> (#[trigger] ranges[j]).length <= (
                #[trigger] ranges[i]).length <= ranges[j].length + 1
            &&& direct ==> forall|i: int|
                0 <= i < streams ==> (#[trigger] ranges[i]).offset % 4096 == 0
            &&& direct ==> forall|i: int|
                0 <= i < streams - 1 ==> (#[trigger] ranges[i]).length % 4096 == 0
            &&& direct ==> forall|i: int, j: int|
                0 <= i <= j < streams - 1 ==> (#[trigger] ranges[j]).length <= (
                #[trigger] ranges[i]).length <= ranges[j].length + 4096
        },
{
    let total: u64 = match kind {
        InputKind::Stdin => {
            return if direct {
                Err(PlanError::DirectStdin)
            } else {
                Ok(Plan { mode: Mode::Framed, total_size: 0, ranges: Vec::new() })
            };
        },
        InputKind::Fifo => {
            return if direct {
                Err(PlanError::DirectFifo)
            } else {
                Ok(Plan { mode: Mode::Framed, total_size: 0, ranges: Vec::new() })
            };
        },
        InputKind::File { size } => size,
        InputKind::Device { size } => size,
        InputKind::Other => {
            return Err(PlanError::WrongInput);
        },
    };
    if direct {
        if block_size % DIRECT_ALIGN != 0 {
            return Err(PlanError::BlockSize);
        }
        let ranges: Vec<Range> = compute_ranges_aligned(total, streams, DIRECT_ALIGN);
        Ok(Plan { mode: Mode::Range, total_size: total, ranges })
    } else {
        let ranges: Vec<Range> = compute_ranges(total, streams);
        proof {
            assert forall|i: int| 0 <= i < streams implies {
                &&& (#[trigger] ranges@[i]).offset == share_before(
                    total as int / 1,
                    streams as int,
                    i,
                ) * 1
                &&& ranges@[i].length == share(total as int / 1, streams as int, i) * 1
            } by {
                assert(ranges@[i].offset == share_before(total as int, streams as int, i));
            }
        }
        Ok(Plan { mode: Mode::Range, total_size: total, ranges })
    }
}

// ------------------------------------------------------------------- token

/// Each byte as two hexadecimal digits.
pub open spec fn token_text(bytes: Seq<u8>) -> Seq<char>
    decreases bytes.len(),
{
    if bytes.len() == 0 {
        Seq::empty()
    } else {
        let b = bytes.last() as int;
        token_text(bytes.drop_last()).push(digit(b / 16)).push(digit(b % 16))
    }
}

/// Writes bytes as hexadecimal digits.
pub fn token_from(bytes: &[u8; 16]) -> (t: String)
    ensures
        t@ == token_text(bytes@),
{
    let mut t: String = String::new();
    let mut i: usize = 0;
    assert(bytes@.take(0) == Seq::<u8>::empty());
    while i < 16
        invariant
            i <= 16,
            t@ == token_text(bytes@.take(i as int)),
        decreases 16 - i,
    {
        let b: u8 = bytes[i];
        t.append(digit_text(b / 16));
        t.append(digit_text(b % 16));
        i = i + 1;
        assert(bytes@.take(i as int).drop_last() == bytes@.take(i - 1));
        assert(t@ == token_text(bytes@.take(i as int)));
    }
    assert(bytes@.take(16) == bytes@);
    t
}

/// Sixteen bytes from the generator of the `rand` crate, by `RngCore::fill_bytes`
/// on its `thread_rng`. They are random: nothing is said of their values.
#[verifier::external_body]
pub(crate) fn random_bytes() -> (b: [u8; 16])
{
    let mut b: [u8; 16] = [0u8; 16];
    rand::thread_rng().fill_bytes(&mut b);
    b
}

/// A name for this transfer: sixteen random bytes, as hexadecimal digits.
pub fn new_token() -> (t: String)
    ensures
        exists|bytes: Seq<u8>| bytes.len() == 16 && t@ == #[trigger] token_text(bytes),
{
    let b: [u8; 16] = random_bytes();
    assert(b@.len() == 16);
    token_from(&b)
}

/// Different bytes make different tokens, and every token is twice as long as
/// its bytes.
pub proof fn law_tokens_are_distinct(a: Seq<u8>, b: Seq<u8>)
    ensures
        token_text(a).len() == 2 * a.len(),
        a != b ==> token_text(a) != token_text(b),
    decreases a.len(),
{
    lemma_token_len(a);
    lemma_token_len(b);
    if token_text(a) == token_text(b) {
        assert(a.len() == b.len());
        if a.len() > 0 {
            let (ta, tb) = (token_text(a), token_text(b));
            law_tokens_are_distinct(a.drop_last(), b.drop_last());
            assert(ta.take(ta.len() - 2) == token_text(a.drop_last()));
            assert(tb.take(tb.len() - 2) == token_text(b.drop_last()));
            let (x, y) = (a.last() as int, b.last() as int);
            let n = ta.len() as int;
            assert(ta[n - 2] == digit(x / 16) && tb[n - 2] == digit(y / 16));
            assert(ta[n - 1] == digit(x % 16) && tb[n - 1] == digit(y % 16));
            assert(x / 16 == y / 16 && x % 16 == y % 16);
            assert(a == a.drop_last().push(a.last()));
            assert(b == b.drop_last().push(b.last()));
        } else {
            assert(a == b);
        }
    }
}

proof fn lemma_token_len(b: Seq<u8>)
    ensures
        token_text(b).len() == 2 * b.len(),
    decreases b.len(),
{
    if b.len() > 0 {
        lemma_token_len(b.drop_last());
    }
}

// ----------------------------------------------------------- to the receiver

/// What the receiver is told before any data flows.
pub fn manifest(opts: &SendOpts, plan: Plan, token: String, output_path: String) -> (m: Manifest)
    ensures
        m.magic@ == MAGIC@,
        m.magic@ == "DDNG1"@,
        m.token == token,
        m.mode == plan.mode,
        m.n_streams == opts.streams,
        m.total_size == plan.total_size,
        m.block_size == opts.block_size,
        m.output_path == output_path,
        m.sync == opts.sync,
        m.direct == opts.direct,
        m.no_crc == opts.no_crc,
        m.ranges == plan.ranges,
{
    Manifest {
        magic: MAGIC.to_owned(),
        token,
        mode: plan.mode,
        n_streams: opts.streams,
        total_size: plan.total_size,
        block_size: opts.block_size,
        output_path,
        sync: opts.sync,
        direct: opts.direct,
        no_crc: opts.no_crc,
        ranges: plan.ranges,
    }
}

/// What the streams of range mode sent, in all.
pub open spec fn sent_bytes(results: Seq<(u64, u32)>) -> int
    decreases results.len(),
{
    if results.len() == 0 {
        0
    } else {
        sent_bytes(results.drop_last()) + results.last().0
    }
}

/// What the streams of range mode sent does not fit into 64 bits.
pub fn overflows(results: &Vec<(u64, u32)>) -> (b: bool)
    ensures
        b == (sent_bytes(results@) > u64::MAX),
{
    let mut total: u64 = 0;
    let mut i: usize = 0;
    assert(sent_bytes(results@.take(0)) == 0);
    while i < results.len()
        invariant
            i <= results@.len(),
            total == sent_bytes(results@.take(i as int)),
        decreases results@.len() - i,
    {
        assert(results@.take(i + 1).drop_last() == results@.take(i as int));
        match total.checked_add(results[i].0) {
            None => {
                proof {
                    lemma_sent_grows(results@, i + 1);
                }
                return true;
            },
            Some(t) => {
                total = t;
            },
        }
        i = i + 1;
    }
    assert(results@.take(i as int) == results@);
    false
}

proof fn lemma_sent_grows(results: Seq<(u64, u32)>, k: int)
    requires
        0 <= k <= results.len(),
    ensures
        sent_bytes(results.take(k)) <= sent_bytes(results),
    decreases results.len(),
{
    if k == results.len() {
        assert(results.take(k) == results);
    } else {
        lemma_sent_grows(results.drop_last(), k);
        assert(results.drop_last().take(k) == results.take(k));
    }
}

/// The sender's report in range mode: the bytes of all streams, and the CRC of
/// each.
pub fn range_report(results: &Vec<(u64, u32)>) -> (m: CtrlMsg)
    requires
        sent_bytes(results@) <= u64::MAX,
    ensures
        m is SenderReport,
        m->total_bytes == sent_bytes(results@),
        m->stream_crcs@.len() == results@.len(),
        forall|i: int| 0 <= i < results@.len() ==> #[trigger] m->stream_crcs@[i] == results@[i].1,
{
    let mut total: u64 = 0;
    let mut crcs: Vec<u32> = Vec::new();
    let mut i: usize = 0;
    assert(sent_bytes(results@.take(0)) == 0);
    while i < results.len()
        invariant
            i <= results@.len(),
            sent_bytes(results@) <= u64::MAX,
            total == sent_bytes(results@.take(i as int)),
            crcs@.len() == i,
            forall|j: int| 0 <= j < i ==> #[trigger] crcs@[j] == results@[j].1,
        decreases results@.len() - i,
    {
        assert(results@.take(i + 1).drop_last() == results@.take(i as int));
        proof {
            lemma_sent_grows(results@, i + 1);
        }
        total = total + results[i].0;
        crcs.push(results[i].1);
        i = i + 1;
    }
    assert(results@.take(i as int) == results@);
    CtrlMsg::SenderReport { stream_crcs: crcs, total_bytes: total }
}

/// The sender's report in framed mode: the bytes that were read, and no CRCs,
/// since every frame carries its own.
pub fn framed_report(total: u64) -> (m: CtrlMsg)
    ensures
        m is SenderReport,
        m->total_bytes == total,
        m->stream_crcs@.len() == 0,
{
    CtrlMsg::SenderReport { stream_crcs: Vec::new(), total_bytes: total }
}

/// Streams that have each sent their whole range have sent the whole input.
pub proof fn law_whole_ranges_are_the_whole_input(
    ranges: Seq<Range>,
    total: int,
    results: Seq<(u64, u32)>,
)
    requires
        tiles(ranges, total),
        results.len() == ranges.len(),
        forall|i: int| 0 <= i < ranges.len() ==> (#[trigger] results[i]).0 == ranges[i].length,
    ensures
        sent_bytes(results) == total,
{
    lemma_sent_lengths(ranges, results);
    law_tiles_add_up(ranges, total);
}

proof fn lemma_sent_lengths(ranges: Seq<Range>, results: Seq<(u64, u32)>)
    requires
        results.len() == ranges.len(),
        forall|i: int| 0 <= i < ranges.len() ==> (#[trigger] results[i]).0 == ranges[i].length,
    ensures
        sent_bytes(results) == total_length(ranges),
    decreases ranges.len(),
{
    if ranges.len() > 0 {
        lemma_sent_lengths(ranges.drop_last(), results.drop_last());
    }
}

/// How long the sender waits before it opens stream `i`: not before the first.
pub fn delay_before(i: usize, stream_delay_ms: u64) -> (ms: Option<u64>)
    ensures
        ms == if i > 0 && stream_delay_ms > 0 {
            Some(stream_delay_ms)
        } else {
            None
        },
{
    if i > 0 && stream_delay_ms > 0 {
        Some(stream_delay_ms)
    } else {
        None
    }
}

// --------------------------------------------------------- from the receiver

/// What the receiver measured.
#[derive(Debug)]
pub struct RemoteStats {
    pub net_recv_ns: u64,
    pub dst_write_ns: u64,
    pub wall_ns: u64,
    pub read_starved_ns: u64,
    pub read_calls: u64,
    pub read_short_calls: u64,
    pub per_stream: Vec<RecvStreamStats>,
}

/// Why the sender gives up after an answer of the receiver, or for want of one.
#[derive(Debug)]
pub enum SendError {
    RemoteAborted { reason: String },
    Unexpected(CtrlMsg),
    UnexpectedAfterWriteError(CtrlMsg),
    /// The receiver acknowledged another number of bytes than the input has.
    SizeMismatch { ack: u64, expected: u64 },
    /// The same, after the sender's report could not be written.
    SizeMismatchAfterWriteError { ack: u64, expected: u64 },
    /// The sender's report could not be written, and nothing that the receiver
    /// said explains it.
    WriteFailed,
    /// The receiver's last line could not be read.
    ReadFailed,
    /// The receiver's last line is no message.
    NoMessage,
}

impl SendError {
    /// What a user is told. `detail` is the cause of a failed read or write, or
    /// the message that was not expected, as a user sees it.
    pub open spec fn text(self, detail: Seq<char>) -> Seq<char> {
        match self {
            SendError::RemoteAborted { reason } => "remote aborted: "@ + reason@,
            SendError::Unexpected(_) => "unexpected ctrl msg: "@ + detail,
            SendError::UnexpectedAfterWriteError(_) => "unexpected ctrl msg after write failure: "@
                + detail,
            SendError::SizeMismatch { ack, expected } => "size mismatch: ack "@ + dec(ack as nat)
                + ", expected "@ + dec(expected as nat),
            SendError::SizeMismatchAfterWriteError { ack, expected } =>
                "size mismatch after ctrl write error ("@ + detail + "): ack "@ + dec(ack as nat)
                + ", expected "@ + dec(expected as nat),
            SendError::WriteFailed => detail,
            SendError::ReadFailed => detail,
            SendError::NoMessage => detail,
        }
    }

    /// What a user is told.
    pub fn reason(&self, detail: &str) -> (s: String)
        ensures
            s@ == self.text(detail@),
    {
        let mut s: String = String::new();
        match self {
            SendError::RemoteAborted { reason } => {
                s.append("remote aborted: ");
                s.append(reason.as_str());
            },
            SendError::Unexpected(_) => {
                s.append("unexpected ctrl msg: ");
                s.append(detail);
            },
            SendError::UnexpectedAfterWriteError(_) => {
                s.append("unexpected ctrl msg after write failure: ");
                s.append(detail);
            },
            SendError::SizeMismatch { ack, expected } => {
                s.append("size mismatch: ack ");
                push_dec(&mut s, *ack);
                s.append(", expected ");
                push_dec(&mut s, *expected);
            },
            SendError::SizeMismatchAfterWriteError { ack, expected } => {
                s.append("size mismatch after ctrl write error (");
                s.append(detail);
                s.append("): ack ");
                push_dec(&mut s, *ack);
                s.append(", expected ");
                push_dec(&mut s, *expected);
            },
            SendError::WriteFailed => s.append(detail),
            SendError::ReadFailed => s.append(detail),
            SendError::NoMessage => s.append(detail),
        }
        assert(s@ == self.text(detail@));
        s
    }
}

/// The receiver's first answer: only `Ready` lets the transfer start.
pub open spec fn answer_to_manifest(msg: CtrlMsg) -> Result<(), SendError> {
    match msg {
        CtrlMsg::Ready => Ok(()),
        CtrlMsg::Abort { reason } => Err(SendError::RemoteAborted { reason }),
        other => Err(SendError::Unexpected(other)),
    }
}

/// Takes the receiver's first answer.
pub fn on_ready(msg: CtrlMsg) -> (r: Result<(), SendError>)
    ensures
        r == answer_to_manifest(msg),
        r is Ok <==> msg is Ready,
        msg is Abort ==> r == Err::<(), SendError>(
            SendError::RemoteAborted { reason: msg->reason },
        ),
        msg !is Ready && msg !is Abort ==> r == Err::<(), SendError>(SendError::Unexpected(msg)),
{
    match msg {
        CtrlMsg::Ready => Ok(()),
        CtrlMsg::Abort { reason } => Err(SendError::RemoteAborted { reason }),
        other => Err(SendError::Unexpected(other)),
    }
}

/// The measurements in a message.
pub open spec fn stats_in(msg: CtrlMsg) -> RemoteStats {
    RemoteStats {
        net_recv_ns: msg->net_recv_ns,
        dst_write_ns: msg->dst_write_ns,
        wall_ns: msg->wall_ns,
        read_starved_ns: msg->read_starved_ns,
        read_calls: msg->read_calls,
        read_short_calls: msg->read_short_calls,
        per_stream: msg->per_stream,
    }
}

/// Takes a message that follows the sender's report. Measurements are kept,
/// and the sender reads on; any other message is handed back as the last.
pub fn on_reply(stats: &mut Option<RemoteStats>, msg: CtrlMsg) -> (last: Option<CtrlMsg>)
    ensures
        msg is RecvStats ==> last is None && *final(stats) == Some(stats_in(msg)),
        msg !is RecvStats ==> last == Some(msg) && *final(stats) == *old(stats),
        msg is RecvStats ==> {
            let kept = final(stats)->Some_0;
            &&& *final(stats) is Some
            &&& kept.net_recv_ns == msg->net_recv_ns
            &&& kept.dst_write_ns == msg->dst_write_ns
            &&& kept.wall_ns == msg->wall_ns
            &&& kept.read_starved_ns == msg->read_starved_ns
            &&& kept.read_calls == msg->read_calls
            &&& kept.read_short_calls == msg->read_short_calls
            &&& kept.per_stream == msg->per_stream
        },
{
    match msg {
        CtrlMsg::RecvStats {
            net_recv_ns,
            dst_write_ns,
            wall_ns,
            read_starved_ns,
            read_calls,
            read_short_calls,
            per_stream,
        } => {
            *stats = Some(
                RemoteStats {
                    net_recv_ns,
                    dst_write_ns,
                    wall_ns,
                    read_starved_ns,
                    read_calls,
                    read_short_calls,
                    per_stream,
                },
            );
            None
        },
        other => Some(other),
    }
}

/// What came last from the receiver.
#[derive(Debug)]
pub enum LastReply {
    Message(CtrlMsg),
    /// A line that is no message.
    NoMessage,
    /// No line at all.
    ReadFailed,
}

/// The receiver has acknowledged the transfer.
#[derive(Debug, Clone, Copy, PartialEq, Eq, Structural)]
pub struct Acked {
    pub bytes: u64,
    /// How the control connection ends still counts. It does not where the
    /// receiver acknowledged before it could be sent the report.
    pub check_exit: bool,
}

/// How the transfer ended.
pub open spec fn outcome(
    mode: Mode,
    total_size: u64,
    report_written: bool,
    last: LastReply,
) -> Result<Acked, SendError> {
    match last {
        LastReply::Message(CtrlMsg::Done { bytes }) => if mode == Mode::Range && bytes
            != total_size {
            if report_written {
                Err(SendError::SizeMismatch { ack: bytes, expected: total_size })
            } else {
                Err(SendError::SizeMismatchAfterWriteError { ack: bytes, expected: total_size })
            }
        } else {
            Ok(Acked { bytes, check_exit: report_written })
        },
        LastReply::Message(CtrlMsg::Abort { reason }) => Err(SendError::RemoteAborted { reason }),
        LastReply::Message(other) => if report_written {
            Err(SendError::Unexpected(other))
        } else {
            Err(SendError::UnexpectedAfterWriteError(other))
        },
        LastReply::NoMessage => if report_written {
            Err(SendError::NoMessage)
        } else {
            Err(SendError::WriteFailed)
        },
        LastReply::ReadFailed => if report_written {
            Err(SendError::ReadFailed)
        } else {
            Err(SendError::WriteFailed)
        },
    }
}

/// Decides how the transfer ended. Where the sender's report could not be
/// written, what the receiver said last still counts: it may have refused the
/// transfer, or have acknowledged it already.
pub fn verdict(mode: Mode, total_size: u64, report_written: bool, last: LastReply) -> (r: Result<
    Acked,
    SendError,
>)
    ensures
        r == outcome(mode, total_size, report_written, last),
        r is Ok <==> {
            &&& last is Message
            &&& last->Message_0 is Done
            &&& mode == Mode::Framed || last->Message_0->Done_bytes == total_size
        },
        r is Ok ==> {
            &&& r->Ok_0.bytes == last->Message_0->Done_bytes
            &&& r->Ok_0.check_exit == report_written
        },
        last is Message && last->Message_0 is Abort ==> r == Err::<Acked, SendError>(
            SendError::RemoteAborted { reason: last->Message_0->reason },
        ),
{
    let msg: CtrlMsg = match last {
        LastReply::Message(msg) => msg,
        LastReply::NoMessage => {
            return Err(
                if report_written {
                    SendError::NoMessage
                } else {
                    SendError::WriteFailed
                },
            );
        },
        LastReply::ReadFailed => {
            return Err(
                if report_written {
                    SendError::ReadFailed
                } else {
                    SendError::WriteFailed
                },
            );
        },
    };
    match msg {
        CtrlMsg::Done { bytes } => {
            if mode == Mode::Range && bytes != total_size {
                if report_written {
                    Err(SendError::SizeMismatch { ack: bytes, expected: total_size })
                } else {
                    Err(SendError::SizeMismatchAfterWriteError { ack: bytes, expected: total_size })
                }
            } else {
                Ok(Acked { bytes, check_exit: report_written })
            }
        },
        CtrlMsg::Abort { reason } => Err(SendError::RemoteAborted { reason }),
        other => if report_written {
            Err(SendError::Unexpected(other))
        } else {
            Err(SendError::UnexpectedAfterWriteError(other))
        },
    }
}

/// The sender succeeds only where the receiver acknowledged, and in range mode
/// only where it acknowledged every byte of the input.
pub proof fn law_success_is_acknowledged(
    mode: Mode,
    total_size: u64,
    report_written: bool,
    last: LastReply,
)
    requires
        outcome(mode, total_size, report_written, last) is Ok,
    ensures
        last == LastReply::Message(
            CtrlMsg::Done { bytes: outcome(mode, total_size, report_written, last)->Ok_0.bytes },
        ),
        mode == Mode::Range ==> outcome(mode, total_size, report_written, last)->Ok_0.bytes
            == total_size,
{
}

/// A receiver that refuses the transfer is always heard, with its reason,
/// whether or not the sender could still write its report.
pub proof fn law_refusal_is_reported(
    mode: Mode,
    total_size: u64,
    report_written: bool,
    reason: String,
)
    ensures
        outcome(
            mode,
            total_size,
            report_written,
            LastReply::Message(CtrlMsg::Abort { reason }),
        ) == Err::<Acked, SendError>(SendError::RemoteAborted { reason }),
{
}

// ------------------------------------------------------------- for the user

impl SendOpts {
    /// The progress of the transfer is shown.
    pub fn shows_progress(&self) -> (b: bool)
        ensures
            b == (self.verbose >= 1 && !self.quiet),
    {
        self.verbose >= 1 && !self.quiet
    }

    /// What happens is summed up for the user.
    pub fn shows_summary(&self) -> (b: bool)
        ensures
            b == (self.verbose >= 1),
    {
        self.verbose >= 1
    }

    /// The messages on the control channel are shown.
    pub fn shows_messages(&self) -> (b: bool)
        ensures
            b == (self.verbose >= 3),
    {
        self.verbose >= 3
    }
}

/// The name of a mode.
pub open spec fn mode_name(mode: Mode) -> Seq<char> {
    match mode {
        Mode::Range => "Range"@,
        Mode::Framed => "Framed"@,
    }
}

/// What a user is told when the transfer starts.
pub open spec fn start_text(opts: SendOpts, mode: Mode, total_size: u64) -> Seq<char> {
    "[send] mode="@ + mode_name(mode) + " "@ + (if opts.input@ == "-"@ {
        "<stdin>"@
    } else {
        opts.input@
    }) + " -> "@ + opts.remote@ + "  size="@ + (if mode == Mode::Range {
        dec(total_size as nat)
    } else {
        "?"@
    }) + "  streams="@ + dec(opts.streams as nat)
}

/// The line that a transfer starts with.
pub fn start_line(opts: &SendOpts, mode: Mode, total_size: u64) -> (s: String)
    ensures
        s@ == start_text(*opts, mode, total_size),
{
    let mut s: String = String::new();
    s.append("[send] mode=");
    match mode {
        Mode::Range => s.append("Range"),
        Mode::Framed => s.append("Framed"),
    }
    s.append(" ");
    if is_stdin(opts.input.as_str()) {
        s.append("<stdin>");
    } else {
        s.append(opts.input.as_str());
    }
    s.append(" -> ");
    s.append(opts.remote.as_str());
    s.append("  size=");
    match mode {
        Mode::Range => push_dec(&mut s, total_size),
        Mode::Framed => s.append("?"),
    }
    s.append("  streams=");
    push_dec(&mut s, opts.streams as u64);
    assert(s@ == start_text(*opts, mode, total_size));
    s
}

/// The line for the wait at the end.
pub fn waiting_line(sync: bool) -> (s: &'static str)
    ensures
        s@ == if sync {
            "[send] all bytes sent; waiting for remote fsync..."@
        } else {
            "[send] all bytes sent; waiting for remote finalize..."@
        },
{
    if sync {
        "[send] all bytes sent; waiting for remote fsync..."
    } else {
        "[send] all bytes sent; waiting for remote finalize..."
    }
}

/// An input of known size, file or device alike, is refused only if direct
/// writes are asked for and the block size is no multiple of 4096; one of
/// unknown size only if direct writes are asked for. Anything else is refused.
pub proof fn law_refused_only_for_a_reason(
    kind: InputKind,
    block_size: u64,
    direct: bool,
)
    ensures
        kind is File || kind is Device ==> (plan_error(kind, block_size, direct) is None <==> !direct
            || block_size % 4096 == 0),
        kind is Stdin || kind is Fifo ==> (plan_error(kind, block_size, direct) is None
            <==> !direct),
        kind is Other ==> plan_error(kind, block_size, direct) == Some(PlanError::WrongInput),
        kind is Stdin && direct ==> plan_error(kind, block_size, direct) == Some(
            PlanError::DirectStdin,
        ),
        kind is Fifo && direct ==> plan_error(kind, block_size, direct) == Some(
            PlanError::DirectFifo,
        ),
        (kind is File || kind is Device) && plan_error(kind, block_size, direct) is Some
            ==> plan_error(kind, block_size, direct) == Some(PlanError::BlockSize),
        kind is File ==> known_size(kind) == Some(kind->File_size),
        kind is Device ==> known_size(kind) == Some(kind->Device_size),
        kind is Stdin || kind is Fifo || kind is Other ==> known_size(kind) is None,
{
}

/// The ranges of a plan are even: no two lengths differ by more than one byte,
/// or, with direct writes, by more than one block, but for the end of the last
/// range. With direct writes every offset is a multiple of 4096.
pub proof fn law_plans_are_even(ranges: Seq<Range>, total: int, n: int, direct: bool)
    requires
        split(ranges, total, n, direct),
        n > 0,
        total >= 0,
    ensures
        ranges.len() == n,
        !direct ==> forall|i: int, j: int|
            0 <= i <= j < n ==> (#[trigger] ranges[j]).length <= (#[trigger] ranges[i]).length
                <= ranges[j].length + 1,
        direct ==> forall|i: int|
            0 <= i < n ==> (#[trigger] ranges[i]).offset as int % 4096 == 0,
        direct ==> forall|i: int|
            0 <= i < n - 1 ==> (#[trigger] ranges[i]).length as int % 4096 == 0,
        direct ==> forall|i: int, j: int|
            0 <= i <= j < n - 1 ==> (#[trigger] ranges[j]).length <= (#[trigger] ranges[i]).length
                <= ranges[j].length + 4096,
        direct ==> forall|i: int|
            0 <= i < n ==> (#[trigger] ranges[n - 1]).length < (#[trigger] ranges[i]).length + 4096,
{
    let unit: int = if direct {
        4096
    } else {
        1
    };
    let k = total / unit;
    assert forall|i: int, j: int| 0 <= i <= j < n implies share(k, n, j) * unit <= #[trigger] share(
        k,
        n,
        i,
    ) * unit <= #[trigger] share(k, n, j) * unit + unit by {
        crate::ranges::law_split_is_even(k, n, i, j);
        let (a, b) = (share(k, n, i), share(k, n, j));
        assert(b * unit <= a * unit <= b * unit + unit) by (nonlinear_arith)
            requires
                b <= a <= b + 1,
                unit > 0,
        ;
    }
    assert forall|i: int, j: int| 0 <= i <= j < n && !direct implies (#[trigger] ranges[j]).length
        <= (#[trigger] ranges[i]).length <= ranges[j].length + 1 by {
        assert(share(k, n, j) * unit <= share(k, n, i) * unit <= share(k, n, j) * unit + unit);
    }
    if direct {
        assert forall|i: int| 0 <= i < n implies (#[trigger] ranges[i]).offset as int % 4096
            == 0 by {
            assert((share_before(k, n, i) * 4096) % 4096 == 0);
        }
        assert forall|i: int| 0 <= i < n - 1 implies (#[trigger] ranges[i]).length as int % 4096
            == 0 by {
            assert((share(k, n, i) * 4096) % 4096 == 0);
        }
        assert forall|i: int, j: int|
            0 <= i <= j < n - 1 implies (#[trigger] ranges[j]).length <= (
        #[trigger] ranges[i]).length <= ranges[j].length + 4096 by {
            assert(share(k, n, j) * unit <= share(k, n, i) * unit <= share(k, n, j) * unit + unit);
        }
        assert forall|i: int| 0 <= i < n implies (#[trigger] ranges[n - 1]).length < (
        #[trigger] ranges[i]).length + 4096 by {
            assert(share(k, n, n - 1) * unit <= share(k, n, i) * unit <= share(k, n, n - 1) * unit
                + unit);
            assert(total % 4096 < 4096);
        }
    }
}

/// The sender succeeds exactly where the receiver acknowledged, in range mode
/// with the size of the input: with the number that was acknowledged, and with
/// the end of the connection counting where the report was written. Each other
/// reply has its own error.
pub proof fn law_every_reply_is_judged(
    mode: Mode,
    total_size: u64,
    report_written: bool,
    last: LastReply,
)
    ensures
        ({
            let r = outcome(mode, total_size, report_written, last);
            &&& r is Ok <==> {
                &&& last is Message
                &&& last->Message_0 is Done
                &&& mode == Mode::Framed || last->Message_0->Done_bytes == total_size
            }
            &&& r is Ok ==> {
                &&& r->Ok_0.bytes == last->Message_0->Done_bytes
                &&& r->Ok_0.check_exit == report_written
            }
            &&& last is Message && last->Message_0 is Done && r is Err ==> r->Err_0
                == if report_written {
                SendError::SizeMismatch {
                    ack: last->Message_0->Done_bytes,
                    expected: total_size,
                }
            } else {
                SendError::SizeMismatchAfterWriteError {
                    ack: last->Message_0->Done_bytes,
                    expected: total_size,
                }
            }
            &&& last is Message && last->Message_0 !is Done && last->Message_0 !is Abort ==> r
                == Err::<Acked, SendError>(
                if report_written {
                    SendError::Unexpected(last->Message_0)
                } else {
                    SendError::UnexpectedAfterWriteError(last->Message_0)
                },
            )
            &&& last is NoMessage && report_written ==> r == Err::<Acked, SendError>(
                SendError::NoMessage,
            )
            &&& last is ReadFailed && report_written ==> r == Err::<Acked, SendError>(
                SendError::ReadFailed,
            )
            &&& last !is Message && !report_written ==> r == Err::<Acked, SendError>(
                SendError::WriteFailed,
            )
        }),
{
}

/// A transfer starts only on `Ready`; a refusal is heard with its reason.
pub proof fn law_only_ready_starts_a_transfer(msg: CtrlMsg)
    ensures
        answer_to_manifest(msg) is Ok <==> msg is Ready,
        msg is Abort ==> answer_to_manifest(msg) == Err::<(), SendError>(
            SendError::RemoteAborted { reason: msg->reason },
        ),
        msg !is Ready && msg !is Abort ==> answer_to_manifest(msg) == Err::<(), SendError>(
            SendError::Unexpected(msg),
        ),
{
}

/// What is sent adds up: of two groups of streams together, and of one stream
/// alone.
pub proof fn law_sent_bytes_add_up(a: Seq<(u64, u32)>, b: Seq<(u64, u32)>, r: (u64, u32))
    ensures
        sent_bytes(a + b) == sent_bytes(a) + sent_bytes(b),
        sent_bytes(seq![r]) == r.0,
        sent_bytes(Seq::empty()) == 0,
    decreases b.len(),
{
    assert(seq![r].drop_last() == Seq::<(u64, u32)>::empty());
    assert(sent_bytes(Seq::<(u64, u32)>::empty()) == 0);
    assert(sent_bytes(seq![r]) == sent_bytes(seq![r].drop_last()) + seq![r].last().0);
    if b.len() == 0 {
        assert(a + b == a);
    } else {
        law_sent_bytes_add_up(a, b.drop_last(), r);
        assert((a + b).drop_last() == a + b.drop_last());
    }
}

/// A byte of a token can be read off its two digits, wherever it stands: the
/// high half first.
pub proof fn law_token_digits(bytes: Seq<u8>, i: int)
    requires
        0 <= i < bytes.len(),
    ensures
        token_text(bytes).len() == 2 * bytes.len(),
        token_text(bytes)[2 * i] == digit(bytes[i] as int / 16),
        token_text(bytes)[2 * i + 1] == digit(bytes[i] as int % 16),
    decreases bytes.len(),
{
    lemma_token_len(bytes);
    lemma_token_len(bytes.drop_last());
    if i < bytes.len() - 1 {
        law_token_digits(bytes.drop_last(), i);
    }
}

/// What a user is told of a failed transfer names what went wrong: the reason
/// that the receiver gave, the message that it sent, or how many bytes it
/// acknowledged and how many there are, in this order.
pub proof fn law_failures_are_named(
    reason: String,
    msg: CtrlMsg,
    ack: u64,
    expected: u64,
    detail: Seq<char>,
)
    ensures
        (SendError::RemoteAborted { reason }).text(detail) == "remote aborted: "@ + reason@,
        SendError::Unexpected(msg).text(detail) == "unexpected ctrl msg: "@ + detail,
        SendError::UnexpectedAfterWriteError(msg).text(detail)
            == "unexpected ctrl msg after write failure: "@ + detail,
        (SendError::SizeMismatch { ack, expected }).text(detail) == "size mismatch: ack "@ + dec(
            ack as nat,
        ) + ", expected "@ + dec(expected as nat),
        (SendError::SizeMismatchAfterWriteError { ack, expected }).text(detail)
            == "size mismatch after ctrl write error ("@ + detail + "): ack "@ + dec(ack as nat)
            + ", expected "@ + dec(expected as nat),
        SendError::WriteFailed.text(detail) == detail,
        SendError::ReadFailed.text(detail) == detail,
        SendError::NoMessage.text(detail) == detail,
        PlanError::BlockSize.text() == "--direct requires --block-size to be a multiple of "@ + dec(
            4096,
        ),
{
}

/// The line that a transfer starts with says what goes where, how much of it
/// where that is known, and over how many streams.
pub proof fn law_start_line_says_what_is_sent(opts: SendOpts, mode: Mode, total_size: u64)
    ensures
        ({
            let from = if opts.input@ == "-"@ {
                "<stdin>"@
            } else {
                opts.input@
            };
            let s = start_text(opts, mode, total_size);
            &&& mode == Mode::Range ==> s == "[send] mode="@ + "Range"@ + " "@ + from + " -> "@
                + opts.remote@ + "  size="@ + dec(total_size as nat) + "  streams="@ + dec(
                opts.streams as nat,
            )
            &&& mode == Mode::Framed ==> s == "[send] mode="@ + "Framed"@ + " "@ + from + " -> "@
                + opts.remote@ + "  size="@ + "?"@ + "  streams="@ + dec(opts.streams as nat)
        }),
{
}

} // verus!
