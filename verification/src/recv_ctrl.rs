//! The control process of the receiver: it hands out the work, collects what
//! the data processes report, and decides whether the transfer holds.

use crate::proto::{CtrlMsg, Manifest, Mode, Range, RecvStreamStats, RvMsg, MAGIC};
use crate::ranges::{law_tiles_add_up, tiles, total_length};
use crate::text::{dec, hex, push_dec, push_hex, str_eq};
use std::collections::HashMap;
use vstd::prelude::*;

verus! {

broadcast use vstd::std_specs::hash::group_hash_axioms;

/// What stands for the CRC of a stream that never reported one.
pub const MISSING_CRC: u32 = 0xdead_beef;

/// Why the control process refuses the transfer. The sender is told.
#[derive(Debug)]
pub enum AbortReason {
    /// A stream did not write as many bytes as its range has.
    WrongCount { stream_id: u32, bytes: u64, expected: u64 },
    /// A data process gave up.
    StreamFailed { stream_id: u32, reason: String },
    /// The sender reported CRCs for another number of streams.
    CrcCount { count: usize, n: u32 },
    /// The bytes that a stream sent are not those that it wrote.
    CrcMismatch { stream_id: u32, sent_crc: u32, recv_crc: u32 },
    /// The sender sent another number of bytes than the manifest says.
    SenderTotal { sender: u64, manifest: u64 },
    /// The frames that arrived do not add up to what was sent.
    FramedTotal { sender: u64, received: u64 },
}

impl AbortReason {
    pub open spec fn text(self) -> Seq<char> {
        match self {
            AbortReason::WrongCount { stream_id, bytes, expected } => "stream "@ + dec(
                stream_id as nat,
            ) + ": wrote "@ + dec(bytes as nat) + ", expected "@ + dec(expected as nat),
            AbortReason::StreamFailed { stream_id, reason } => "stream "@ + dec(stream_id as nat)
                + " failed: "@ + reason@,
            AbortReason::CrcCount { count, n } => "sender crc count "@ + dec(count as nat) + " != "@
                + dec(n as nat),
            AbortReason::CrcMismatch { stream_id, sent_crc, recv_crc } => "crc mismatch on stream "@
                + dec(stream_id as nat) + ": sender=0x"@ + hex(sent_crc as nat, 8) + " recv=0x"@ + hex(
                recv_crc as nat,
                8,
            ),
            AbortReason::SenderTotal { sender, manifest } => "sender total "@ + dec(sender as nat)
                + " != manifest total "@ + dec(manifest as nat),
            AbortReason::FramedTotal { sender, received } => "framed size mismatch: sender "@ + dec(
                sender as nat,
            ) + ", received "@ + dec(received as nat),
        }
    }

    /// The reason, as the sender is told.
    pub fn reason(&self) -> (s: String)
        ensures
            s@ == self.text(),
    {
        let mut s: String = String::new();
        match self {
            AbortReason::WrongCount { stream_id, bytes, expected } => {
                s.append("stream ");
                push_dec(&mut s, *stream_id as u64);
                s.append(": wrote ");
                push_dec(&mut s, *bytes);
                s.append(", expected ");
                push_dec(&mut s, *expected);
            },
            AbortReason::StreamFailed { stream_id, reason } => {
                s.append("stream ");
                push_dec(&mut s, *stream_id as u64);
                s.append(" failed: ");
                s.append(reason.as_str());
            },
            AbortReason::CrcCount { count, n } => {
                s.append("sender crc count ");
                push_dec(&mut s, *count as u64);
                s.append(" != ");
                push_dec(&mut s, *n as u64);
            },
            AbortReason::CrcMismatch { stream_id, sent_crc, recv_crc } => {
                s.append("crc mismatch on stream ");
                push_dec(&mut s, *stream_id as u64);
                s.append(": sender=0x");
                push_hex(&mut s, *sent_crc, 8);
                s.append(" recv=0x");
                push_hex(&mut s, *recv_crc, 8);
            },
            AbortReason::SenderTotal { sender, manifest } => {
                s.append("sender total ");
                push_dec(&mut s, *sender);
                s.append(" != manifest total ");
                push_dec(&mut s, *manifest);
            },
            AbortReason::FramedTotal { sender, received } => {
                s.append("framed size mismatch: sender ");
                push_dec(&mut s, *sender);
                s.append(", received ");
                push_dec(&mut s, *received);
            },
        }
        s
    }

    /// The message that tells the sender.
    pub fn message(&self) -> (m: CtrlMsg)
        ensures
            m is Abort,
            m->reason@ == self.text(),
    {
        CtrlMsg::Abort { reason: self.reason() }
    }
}

/// Why the control process stops without a word to the sender.
#[derive(Debug)]
pub enum CtrlError {
    BadMagic { magic: String },
    /// The target device has `size` bytes and needs `need`.
    DeviceTooSmall { size: u64, need: u64 },
    /// A data process opened with something else than its name.
    ExpectedHello(RvMsg),
    /// A data process asked for work that there is not.
    NoAssignment { stream_id: u32 },
    /// A data process ended with something else than a report.
    UnexpectedReport(RvMsg),
    SenderAborted { reason: String },
    /// The sender ended with something else than its report.
    UnexpectedCtrl(CtrlMsg),
}

impl CtrlError {
    /// What is told of it. `detail` is the path of the target device, or the
    /// message that was not expected, as a user sees it.
    pub open spec fn text(self, detail: Seq<char>) -> Seq<char> {
        match self {
            CtrlError::BadMagic { magic } => "bad magic: "@ + magic@,
            CtrlError::DeviceTooSmall { size, need } => "target block device "@ + detail + " is "@
                + dec(size as nat) + " bytes; need "@ + dec(need as nat),
            CtrlError::ExpectedHello(_) => "expected Hello, got "@ + detail,
            CtrlError::NoAssignment { stream_id } => "no assignment for stream "@ + dec(
                stream_id as nat,
            ),
            CtrlError::UnexpectedReport(_) => "unexpected rv msg: "@ + detail,
            CtrlError::SenderAborted { reason } => "sender aborted: "@ + reason@,
            CtrlError::UnexpectedCtrl(_) => "unexpected ctrl msg: "@ + detail,
        }
    }

    /// What is told of it.
    pub fn reason(&self, detail: &str) -> (s: String)
        ensures
            s@ == self.text(detail@),
    {
        let mut s: String = String::new();
        match self {
            CtrlError::BadMagic { magic } => {
                s.append("bad magic: ");
                s.append(magic.as_str());
            },
            CtrlError::DeviceTooSmall { size, need } => {
                s.append("target block device ");
                s.append(detail);
                s.append(" is ");
                push_dec(&mut s, *size);
                s.append(" bytes; need ");
                push_dec(&mut s, *need);
            },
            CtrlError::ExpectedHello(_) => {
                s.append("expected Hello, got ");
                s.append(detail);
            },
            CtrlError::NoAssignment { stream_id } => {
                s.append("no assignment for stream ");
                push_dec(&mut s, *stream_id as u64);
            },
            CtrlError::UnexpectedReport(_) => {
                s.append("unexpected rv msg: ");
                s.append(detail);
            },
            CtrlError::SenderAborted { reason } => {
                s.append("sender aborted: ");
                s.append(reason.as_str());
            },
            CtrlError::UnexpectedCtrl(_) => {
                s.append("unexpected ctrl msg: ");
                s.append(detail);
            },
        }
        assert(s@ == self.text(detail@));
        s
    }
}

/// Either way the transfer ends here.
#[derive(Debug)]
pub enum ReportFail {
    Abort(AbortReason),
    Error(CtrlError),
}

/// What a data process reported.
#[derive(Debug, Clone, Copy, PartialEq, Eq, Structural)]
pub struct StreamReport {
    pub stats: RecvStreamStats,
    pub crc: u32,
}

/// What several reports come to: sums, but for the longest time on the wall.
pub struct Totals {
    pub bytes: int,
    pub net_recv_ns: int,
    pub dst_write_ns: int,
    pub wall_ns: int,
    pub read_starved_ns: int,
    pub read_calls: int,
    pub read_short_calls: int,
}

impl Totals {
    /// Every sum fits into 64 bits.
    pub open spec fn fits(self) -> bool {
        &&& self.bytes <= u64::MAX
        &&& self.net_recv_ns <= u64::MAX
        &&& self.dst_write_ns <= u64::MAX
        &&& self.read_starved_ns <= u64::MAX
        &&& self.read_calls <= u64::MAX
        &&& self.read_short_calls <= u64::MAX
    }

    /// The totals with one more report.
    pub open spec fn plus(self, r: RecvStreamStats) -> Totals {
        Totals {
            bytes: self.bytes + r.bytes,
            net_recv_ns: self.net_recv_ns + r.net_recv_ns,
            dst_write_ns: self.dst_write_ns + r.dst_write_ns,
            wall_ns: if r.wall_ns > self.wall_ns {
                r.wall_ns as int
            } else {
                self.wall_ns
            },
            read_starved_ns: self.read_starved_ns + r.read_starved_ns,
            read_calls: self.read_calls + r.read_calls,
            read_short_calls: self.read_short_calls + r.read_short_calls,
        }
    }
}

pub open spec fn totals(reports: Seq<StreamReport>) -> Totals
    decreases reports.len(),
{
    if reports.len() == 0 {
        Totals {
            bytes: 0,
            net_recv_ns: 0,
            dst_write_ns: 0,
            wall_ns: 0,
            read_starved_ns: 0,
            read_calls: 0,
            read_short_calls: 0,
        }
    } else {
        totals(reports.drop_last()).plus(reports.last().stats)
    }
}

/// The CRC that each stream reported last.
pub open spec fn reported_crcs(reports: Seq<StreamReport>) -> Map<u32, u32>
    decreases reports.len(),
{
    if reports.len() == 0 {
        Map::empty()
    } else {
        reported_crcs(reports.drop_last()).insert(reports.last().stats.stream_id, reports.last().crc)
    }
}

/// The CRC that counts for a stream.
pub open spec fn crc_of_stream(reports: Seq<StreamReport>, id: u32) -> u32 {
    if reported_crcs(reports).dom().contains(id) {
        reported_crcs(reports)[id]
    } else {
        MISSING_CRC
    }
}

/// The range that each stream is given: stream `i` gets `ranges[i]`.
pub open spec fn assignments(ranges: Seq<Range>) -> Map<u32, Range>
    decreases ranges.len(),
{
    if ranges.len() == 0 {
        Map::empty()
    } else {
        assignments(ranges.drop_last()).insert((ranges.len() - 1) as u32, ranges.last())
    }
}

/// The ranges that a manifest hands out; none in framed mode.
pub open spec fn assigned(m: Manifest) -> Map<u32, Range> {
    if m.mode == Mode::Range {
        assignments(m.ranges@)
    } else {
        Map::empty()
    }
}

/// What the control process does next.
#[derive(Debug, Clone, Copy, PartialEq, Eq, Structural)]
pub enum CtrlStep {
    /// Give work to one more data process.
    Accept,
    /// Take the report of the data process that was given work as number
    /// `peer`.
    Collect { peer: usize },
    /// All have reported: compare that with the sender's report.
    Compare,
    /// Cut the output to its length, and flush it to disk if that was asked.
    Finalize,
    /// Tell the sender that the transfer is done.
    Acknowledge,
    /// The transfer is given up.
    Ended,
}

/// A sender's report that agrees with those of the data processes.
pub struct Accepted {
    pub crcs: Seq<u32>,
    pub total: u64,
}

/// The state of the control process: the manifest, how many data processes
/// were given work, the reports that have come in, whether the transfer was
/// given up, the sender's report, once it is found to agree, and whether the
/// output is finalized.
pub struct CtrlState {
    pub manifest: Manifest,
    pub started: int,
    pub reports: Seq<StreamReport>,
    pub ended: bool,
    pub accepted: Option<Accepted>,
    pub finalized: bool,
}

impl CtrlState {
    /// First every stream is given work, then every stream reports, then the
    /// sender does.
    pub open spec fn step(self) -> CtrlStep {
        let n = self.manifest.n_streams;
        if self.ended {
            CtrlStep::Ended
        } else if self.started < n {
            CtrlStep::Accept
        } else if self.reports.len() < n {
            CtrlStep::Collect { peer: self.reports.len() as usize }
        } else if self.accepted is None {
            CtrlStep::Compare
        } else if !self.finalized {
            CtrlStep::Finalize
        } else {
            CtrlStep::Acknowledge
        }
    }

    /// The report is about a stream that there is, and says that it wrote its
    /// whole range.
    pub open spec fn is_whole(self, r: StreamReport) -> bool {
        let table = assignments(self.manifest.ranges@);
        &&& table.dom().contains(r.stats.stream_id)
        &&& r.stats.bytes == table[r.stats.stream_id].length
    }

    /// What holds in every state: there are no more reports than streams; in
    /// range mode each of them is about a whole range, unless the transfer was
    /// given up; and what was accepted agrees with the reports of all streams.
    pub open spec fn wf(self) -> bool {
        &&& 0 <= self.started <= self.manifest.n_streams
        &&& self.reports.len() <= self.manifest.n_streams
        &&& totals(self.reports).fits()
        &&& !self.ended && self.manifest.mode == Mode::Range ==> forall|k: int|
            0 <= k < self.reports.len() ==> self.is_whole(#[trigger] self.reports[k])
        &&& match self.accepted {
            Some(Accepted { crcs, total }) => {
                &&& !self.ended
                &&& self.started == self.manifest.n_streams
                &&& self.reports.len() == self.manifest.n_streams
                &&& verified(self, crcs, total)
            },
            None => !self.finalized,
        }
    }
}

/// What the output needs before any data is written to it.
#[derive(Debug, Clone, Copy, PartialEq, Eq, Structural)]
pub struct OutputPlan {
    /// Drop what the output held.
    pub truncate: bool,
    /// Allocate this many bytes.
    pub preallocate: Option<u64>,
    /// Make sure that the output has this many bytes.
    pub at_least: Option<u64>,
}

/// What is left to do to the output once all data is written.
#[derive(Debug, Clone, Copy, PartialEq, Eq, Structural)]
pub struct FinalPlan {
    /// Cut the output to this many bytes.
    pub length: Option<u64>,
    /// Flush the output to disk.
    pub sync: bool,
}

/// The control process of the receiver.
pub struct CtrlSession {
    manifest: Manifest,
    started: u32,
    ended: bool,
    finalized: bool,
    assignments: HashMap<u32, Range>,
    recv_crcs: HashMap<u32, u32>,
    total_bytes: u64,
    net_recv_ns: u64,
    dst_write_ns: u64,
    wall_ns: u64,
    read_starved_ns: u64,
    read_calls: u64,
    read_short_calls: u64,
    per_stream: Vec<RecvStreamStats>,
    agreed: bool,
    reports: Ghost<Seq<StreamReport>>,
    accepted: Ghost<Option<Accepted>>,
}

impl View for CtrlSession {
    type V = CtrlState;

    closed spec fn view(&self) -> CtrlState {
        CtrlState {
            manifest: self.manifest,
            started: self.started as int,
            reports: self.reports@,
            ended: self.ended,
            accepted: self.accepted@,
            finalized: self.finalized,
        }
    }
}

impl CtrlSession {
    pub closed spec fn wf(self) -> bool {
        let t = totals(self.reports@);
        &&& self@.wf()
        &&& self.agreed == (self.accepted@ is Some)
        &&& self.assignments@ == assigned(self.manifest)
        &&& self.recv_crcs@ == reported_crcs(self.reports@)
        &&& self.total_bytes == t.bytes
        &&& self.net_recv_ns == t.net_recv_ns
        &&& self.dst_write_ns == t.dst_write_ns
        &&& self.wall_ns == t.wall_ns
        &&& self.read_starved_ns == t.read_starved_ns
        &&& self.read_calls == t.read_calls
        &&& self.read_short_calls == t.read_short_calls
        &&& self.per_stream@.len() == self.reports@.len()
        &&& forall|i: int|
            0 <= i < self.reports@.len() ==> #[trigger] self.per_stream@[i]
                == self.reports@[i].stats
    }

    /// The state of a well-formed session is well-formed.
    pub proof fn lemma_state_wf(&self)
        requires
            self.wf(),
        ensures
            self@.wf(),
    {
    }

    /// Starts on a manifest, if it is one of this protocol.
    pub fn open(manifest: Manifest) -> (r: Result<CtrlSession, CtrlError>)
        ensures
            r is Ok <==> manifest.magic@ == MAGIC@,
            r is Ok <==> manifest.magic@ == "DDNG1"@,
            r is Ok ==> r->Ok_0.wf() && r->Ok_0@ == (CtrlState {
                manifest,
                started: 0,
                reports: Seq::empty(),
                ended: false,
                accepted: None,
                finalized: false,
            }),
            r is Err ==> r->Err_0 == (CtrlError::BadMagic { magic: manifest.magic }),
    {
        if !str_eq(manifest.magic.as_str(), MAGIC) {
            return Err(CtrlError::BadMagic { magic: manifest.magic });
        }
        let mut table: HashMap<u32, Range> = HashMap::new();
        if manifest.mode == Mode::Range {
            let mut i: usize = 0;
            while i < manifest.ranges.len()
                invariant
                    i <= manifest.ranges@.len(),
                    table@ == assignments(manifest.ranges@.take(i as int)),
                decreases manifest.ranges@.len() - i,
            {
                let ghost more = manifest.ranges@.take(i + 1);
                assert(more.drop_last() =~= manifest.ranges@.take(i as int));
                table.insert(i as u32, manifest.ranges[i]);
                i = i + 1;
            }
            assert(manifest.ranges@.take(i as int) =~= manifest.ranges@);
        }
        Ok(
            CtrlSession {
                manifest,
                started: 0,
                ended: false,
                finalized: false,
                assignments: table,
                recv_crcs: HashMap::new(),
                total_bytes: 0,
                net_recv_ns: 0,
                dst_write_ns: 0,
                wall_ns: 0,
                read_starved_ns: 0,
                read_calls: 0,
                read_short_calls: 0,
                per_stream: Vec::new(),
                agreed: false,
                reports: Ghost(Seq::empty()),
                accepted: Ghost(None),
            },
        )
    }

    /// How the output is prepared. A device keeps what it holds and must be
    /// large enough; a file starts empty, with its space allocated where the
    /// size is known.
    pub fn output_plan(&self, is_device: bool) -> (p: OutputPlan)
        requires
            self.wf(),
        ensures
            p == output_plan(self@.manifest, is_device),
            p.truncate == !is_device,
    {
        let size: Option<u64> = if self.manifest.mode == Mode::Range && self.manifest.total_size > 0 {
            Some(self.manifest.total_size)
        } else {
            None
        };
        if is_device {
            OutputPlan { truncate: false, preallocate: None, at_least: size }
        } else {
            OutputPlan { truncate: true, preallocate: size, at_least: None }
        }
    }

    /// What the control process does next.
    pub fn next(&self) -> (s: CtrlStep)
        requires
            self.wf(),
        ensures
            s == self@.step(),
    {
        let n: u32 = self.manifest.n_streams;
        let reported: usize = self.per_stream.len();
        if self.ended {
            CtrlStep::Ended
        } else if self.started < n {
            CtrlStep::Accept
        } else if (reported as u64) < n as u64 {
            CtrlStep::Collect { peer: reported }
        } else if !self.agreed {
            CtrlStep::Compare
        } else if !self.finalized {
            CtrlStep::Finalize
        } else {
            CtrlStep::Acknowledge
        }
    }

    /// Answers a data process that has opened with `msg`: with its work, where
    /// it named a stream that there is work for.
    pub fn on_hello(&mut self, msg: RvMsg) -> (r: Result<RvMsg, CtrlError>)
        requires
            old(self).wf(),
            old(self)@.step() is Accept,
        ensures
            final(self).wf(),
            final(self)@ == (CtrlState {
                started: old(self)@.started + 1,
                ended: r is Err,
                ..old(self)@
            }),
            r == answer_to_hello(old(self)@.manifest, msg),
    {
        self.started = self.started + 1;
        let r: Result<RvMsg, CtrlError> = self.work_for(msg);
        self.ended = r.is_err();
        r
    }

    fn work_for(&self, msg: RvMsg) -> (r: Result<RvMsg, CtrlError>)
        requires
            self.assignments@ == assigned(self.manifest),
        ensures
            r == answer_to_hello(self.manifest, msg),
    {
        let stream_id: u32 = match msg {
            RvMsg::Hello { stream_id } => stream_id,
            other => {
                return Err(CtrlError::ExpectedHello(other));
            },
        };
        match self.manifest.mode {
            Mode::Range => match self.assignments.get(&stream_id) {
                Some(range) => Ok(
                    RvMsg::AssignRange {
                        output_path: self.manifest.output_path.clone(),
                        offset: range.offset,
                        length: range.length,
                        direct: self.manifest.direct,
                        no_crc: self.manifest.no_crc,
                    },
                ),
                None => Err(CtrlError::NoAssignment { stream_id }),
            },
            Mode::Framed => Ok(
                RvMsg::AssignFramed {
                    output_path: self.manifest.output_path.clone(),
                    no_crc: self.manifest.no_crc,
                },
            ),
        }
    }

    /// The session can take this report: its stream is one that was given
    /// work, and the sums with it still fit into 64 bits.
    pub fn can_take(&self, msg: &RvMsg) -> (b: bool)
        requires
            self.wf(),
        ensures
            b == can_take(self@, *msg),
    {
        match msg {
            RvMsg::Done {
                stream_id,
                bytes,
                crc,
                net_recv_ns,
                dst_write_ns,
                wall_ns,
                read_starved_ns,
                read_calls,
                read_short_calls,
            } => {
                proof {
                    let r = report_of(*msg);
                    assert(self.reports@.push(r).drop_last() =~= self.reports@);
                }
                let known: bool = match self.manifest.mode {
                    Mode::Range => self.assignments.contains_key(stream_id),
                    Mode::Framed => true,
                };
                known && self.total_bytes.checked_add(*bytes).is_some()
                    && self.net_recv_ns.checked_add(*net_recv_ns).is_some()
                    && self.dst_write_ns.checked_add(*dst_write_ns).is_some()
                    && self.read_starved_ns.checked_add(*read_starved_ns).is_some()
                    && self.read_calls.checked_add(*read_calls).is_some()
                    && self.read_short_calls.checked_add(*read_short_calls).is_some()
            },
            _ => true,
        }
    }

    /// Takes the report that a data process ends with. In range mode, a stream
    /// that did not write its whole range ends the transfer; so does one that
    /// failed, in either mode.
    pub fn on_report(&mut self, msg: RvMsg) -> (r: Result<(), ReportFail>)
        requires
            old(self).wf(),
            old(self)@.step() is Collect,
            can_take(old(self)@, msg),
        ensures
            final(self).wf(),
            final(self)@ == (CtrlState {
                reports: if msg is Done {
                    old(self)@.reports.push(report_of(msg))
                } else {
                    old(self)@.reports
                },
                ended: r is Err,
                ..old(self)@
            }),
            r == answer_to_report(old(self)@.manifest, msg),
    {
        match msg {
            RvMsg::Done {
                stream_id,
                bytes,
                crc,
                net_recv_ns,
                dst_write_ns,
                wall_ns,
                read_starved_ns,
                read_calls,
                read_short_calls,
            } => {
                let ghost before = self.reports@;
                let ghost report = report_of(msg);
                proof {
                    assert(before.push(report).drop_last() =~= before);
                }
                self.total_bytes = self.total_bytes + bytes;
                self.net_recv_ns = self.net_recv_ns + net_recv_ns;
                self.dst_write_ns = self.dst_write_ns + dst_write_ns;
                self.read_starved_ns = self.read_starved_ns + read_starved_ns;
                self.read_calls = self.read_calls + read_calls;
                self.read_short_calls = self.read_short_calls + read_short_calls;
                if wall_ns > self.wall_ns {
                    self.wall_ns = wall_ns;
                }
                self.recv_crcs.insert(stream_id, crc);
                self.per_stream.push(
                    RecvStreamStats {
                        stream_id,
                        bytes,
                        net_recv_ns,
                        dst_write_ns,
                        wall_ns,
                        read_starved_ns,
                        read_calls,
                        read_short_calls,
                    },
                );
                self.reports = Ghost(before.push(report));
                match self.manifest.mode {
                    Mode::Range => match self.assignments.get(&stream_id) {
                        Some(range) => {
                            let expected: u64 = range.length;
                            if bytes != expected {
                                self.ended = true;
                                Err(
                                    ReportFail::Abort(
                                        AbortReason::WrongCount { stream_id, bytes, expected },
                                    ),
                                )
                            } else {
                                Ok(())
                            }
                        },
                        None => Ok(()),
                    },
                    Mode::Framed => Ok(()),
                }
            },
            RvMsg::Failed { stream_id, reason } => {
                self.ended = true;
                Err(ReportFail::Abort(AbortReason::StreamFailed { stream_id, reason }))
            },
            other => {
                self.ended = true;
                Err(ReportFail::Error(CtrlError::UnexpectedReport(other)))
            },
        }
    }

    /// Compares what the sender sent with what the data processes wrote.
    ///
    /// In range mode the sender must report a CRC for each stream, each must be
    /// the one that the stream's data process reported, and the total must be
    /// the manifest's. The first that does not hold is the reason for refusal.
    /// In framed mode, where every frame has been checked by itself, the totals
    /// must agree.
    pub fn verify(&mut self, sender_crcs: &Vec<u32>, sender_total: u64) -> (r: Result<
        (),
        AbortReason,
    >)
        requires
            old(self).wf(),
            old(self)@.step() is Compare,
        ensures
            final(self).wf(),
            final(self)@ == (CtrlState {
                ended: r is Err,
                accepted: if r is Ok {
                    Some(Accepted { crcs: sender_crcs@, total: sender_total })
                } else {
                    None
                },
                ..old(self)@
            }),
            r is Ok <==> verified(old(self)@, sender_crcs@, sender_total),
            r is Err ==> refusal(old(self)@, sender_crcs@, sender_total, r->Err_0),
            r is Ok && old(self)@.manifest.mode == Mode::Range ==> {
                &&& sender_total == old(self)@.manifest.total_size
                &&& sender_crcs@.len() == old(self)@.manifest.n_streams
                &&& forall|k: int|
                    is_last_report(old(self)@.reports, k) && #[trigger]
                    old(self)@.reports[k].stats.stream_id < old(self)@.manifest.n_streams
                        ==> old(self)@.reports[k].crc
                        == sender_crcs@[old(self)@.reports[k].stats.stream_id as int]
            },
    {
        proof {
            if verified(self@, sender_crcs@, sender_total) && self@.manifest.mode == Mode::Range {
                law_accepted_crcs_are_the_reported_ones(self@, sender_crcs@, sender_total);
            }
        }
        let r: Result<(), AbortReason> = self.compare(sender_crcs, sender_total);
        match &r {
            Ok(()) => {
                self.agreed = true;
                self.accepted = Ghost(
                    Some(Accepted { crcs: sender_crcs@, total: sender_total }),
                );
            },
            Err(_) => {
                self.ended = true;
            },
        }
        r
    }

    fn compare(&self, sender_crcs: &Vec<u32>, sender_total: u64) -> (r: Result<(), AbortReason>)
        requires
            self.wf(),
        ensures
            r is Ok <==> verified(self@, sender_crcs@, sender_total),
            r is Err ==> refusal(self@, sender_crcs@, sender_total, r->Err_0),
    {
        match self.manifest.mode {
            Mode::Range => {
                let n: u32 = self.manifest.n_streams;
                if sender_crcs.len() as u64 != n as u64 {
                    return Err(AbortReason::CrcCount { count: sender_crcs.len(), n });
                }
                let mut i: u32 = 0;
                while i < n
                    invariant
                        self.wf(),
                        self.manifest.mode == Mode::Range,
                        n == self.manifest.n_streams,
                        sender_crcs@.len() == n,
                        i <= n,
                        forall|j: int|
                            0 <= j < i ==> #[trigger] sender_crcs@[j] == crc_of_stream(
                                self.reports@,
                                j as u32,
                            ),
                    decreases n - i,
                {
                    let s: u32 = sender_crcs[i as usize];
                    let r: u32 = match self.recv_crcs.get(&i) {
                        Some(crc) => *crc,
                        None => MISSING_CRC,
                    };
                    if s != r {
                        assert(!verified(self@, sender_crcs@, sender_total)) by {
                            assert(sender_crcs@[i as int] != crc_of_stream(self.reports@, i));
                        }
                        return Err(
                            AbortReason::CrcMismatch { stream_id: i, sent_crc: s, recv_crc: r },
                        );
                    }
                    i = i + 1;
                }
                if sender_total != self.manifest.total_size {
                    return Err(
                        AbortReason::SenderTotal {
                            sender: sender_total,
                            manifest: self.manifest.total_size,
                        },
                    );
                }
                Ok(())
            },
            Mode::Framed => {
                if sender_total != self.total_bytes {
                    Err(
                        AbortReason::FramedTotal {
                            sender: sender_total,
                            received: self.total_bytes,
                        },
                    )
                } else {
                    Ok(())
                }
            },
        }
    }

    /// What is left to do to the output. Frames may have left a file of any
    /// length, which is cut to the bytes that were sent; a device, and a file
    /// of known size, keep theirs.
    pub fn final_plan(&self, is_device: bool) -> (p: FinalPlan)
        requires
            self.wf(),
        ensures
            p.length is Some <==> self@.manifest.mode == Mode::Framed && !is_device,
            p.length is Some ==> p.length->0 == totals(self@.reports).bytes,
            p.sync == self@.manifest.sync,
    {
        let length: Option<u64> = match self.manifest.mode {
            Mode::Framed => if is_device {
                None
            } else {
                Some(self.total_bytes)
            },
            Mode::Range => None,
        };
        FinalPlan { length, sync: self.manifest.sync }
    }

    /// The output has been finalized.
    pub fn on_finalized(&mut self)
        requires
            old(self).wf(),
            old(self)@.step() is Finalize,
        ensures
            final(self).wf(),
            final(self)@ == (CtrlState { finalized: true, ..old(self)@ }),
    {
        self.finalized = true;
    }

    /// The last two messages to the sender: the measurements, and the
    /// acknowledgement.
    pub fn finish(self) -> (r: (CtrlMsg, CtrlMsg))
        requires
            self.wf(),
            self@.step() is Acknowledge,
        ensures
            r.0 is RecvStats,
            r.0->net_recv_ns == totals(self@.reports).net_recv_ns,
            r.0->dst_write_ns == totals(self@.reports).dst_write_ns,
            r.0->wall_ns == totals(self@.reports).wall_ns,
            r.0->read_starved_ns == totals(self@.reports).read_starved_ns,
            r.0->read_calls == totals(self@.reports).read_calls,
            r.0->read_short_calls == totals(self@.reports).read_short_calls,
            r.0->per_stream@.len() == self@.reports.len(),
            forall|i: int|
                0 <= i < self@.reports.len() ==> #[trigger] r.0->per_stream@[i]
                    == self@.reports[i].stats,
            r.1 is Done,
            r.1->bytes == totals(self@.reports).bytes,
    {
        (
            CtrlMsg::RecvStats {
                net_recv_ns: self.net_recv_ns,
                dst_write_ns: self.dst_write_ns,
                wall_ns: self.wall_ns,
                read_starved_ns: self.read_starved_ns,
                read_calls: self.read_calls,
                read_short_calls: self.read_short_calls,
                per_stream: self.per_stream,
            },
            CtrlMsg::Done { bytes: self.total_bytes },
        )
    }
}

pub open spec fn output_plan(m: Manifest, is_device: bool) -> OutputPlan {
    let size = if m.mode == Mode::Range && m.total_size > 0 {
        Some(m.total_size)
    } else {
        None
    };
    if is_device {
        OutputPlan { truncate: false, preallocate: None, at_least: size }
    } else {
        OutputPlan { truncate: true, preallocate: size, at_least: None }
    }
}

/// What a data process that opens with `msg` is answered.
pub open spec fn answer_to_hello(m: Manifest, msg: RvMsg) -> Result<RvMsg, CtrlError> {
    match msg {
        RvMsg::Hello { stream_id } => if m.mode == Mode::Framed {
            Ok(RvMsg::AssignFramed { output_path: m.output_path, no_crc: m.no_crc })
        } else if assignments(m.ranges@).dom().contains(stream_id) {
            let range = assignments(m.ranges@)[stream_id];
            Ok(
                RvMsg::AssignRange {
                    output_path: m.output_path,
                    offset: range.offset,
                    length: range.length,
                    direct: m.direct,
                    no_crc: m.no_crc,
                },
            )
        } else {
            Err(CtrlError::NoAssignment { stream_id })
        },
        other => Err(CtrlError::ExpectedHello(other)),
    }
}

/// The report in a data process's last message.
pub open spec fn report_of(msg: RvMsg) -> StreamReport {
    StreamReport {
        stats: RecvStreamStats {
            stream_id: msg->Done_stream_id,
            bytes: msg->Done_bytes,
            net_recv_ns: msg->Done_net_recv_ns,
            dst_write_ns: msg->Done_dst_write_ns,
            wall_ns: msg->Done_wall_ns,
            read_starved_ns: msg->Done_read_starved_ns,
            read_calls: msg->Done_read_calls,
            read_short_calls: msg->Done_read_short_calls,
        },
        crc: msg->Done_crc,
    }
}

pub open spec fn can_take(s: CtrlState, msg: RvMsg) -> bool {
    msg is Done ==> {
        &&& s.manifest.mode == Mode::Range ==> assignments(s.manifest.ranges@).dom().contains(
            msg->Done_stream_id,
        )
        &&& totals(s.reports.push(report_of(msg))).fits()
    }
}

/// Whether the transfer goes on after a data process's last message.
pub open spec fn answer_to_report(m: Manifest, msg: RvMsg) -> Result<(), ReportFail> {
    match msg {
        RvMsg::Done { stream_id, bytes, .. } => {
            let expected = assignments(m.ranges@)[stream_id].length;
            if m.mode == Mode::Range && bytes != expected {
                Err(ReportFail::Abort(AbortReason::WrongCount { stream_id, bytes, expected }))
            } else {
                Ok(())
            }
        },
        RvMsg::Failed { stream_id, reason } => Err(
            ReportFail::Abort(AbortReason::StreamFailed { stream_id, reason }),
        ),
        other => Err(ReportFail::Error(CtrlError::UnexpectedReport(other))),
    }
}

/// The CRCs of the first `k` streams are the same on both sides.
pub open spec fn crcs_agree(s: CtrlState, sender_crcs: Seq<u32>, k: int) -> bool {
    forall|i: int|
        0 <= i < k ==> #[trigger] sender_crcs[i] == crc_of_stream(s.reports, i as u32)
}

/// What the sender reports agrees with what the data processes wrote.
pub open spec fn verified(s: CtrlState, sender_crcs: Seq<u32>, sender_total: u64) -> bool {
    if s.manifest.mode == Mode::Range {
        &&& sender_crcs.len() == s.manifest.n_streams
        &&& crcs_agree(s, sender_crcs, s.manifest.n_streams as int)
        &&& sender_total == s.manifest.total_size
    } else {
        sender_total == totals(s.reports).bytes
    }
}

/// `why` is the first thing that does not agree.
pub open spec fn refusal(
    s: CtrlState,
    sender_crcs: Seq<u32>,
    sender_total: u64,
    why: AbortReason,
) -> bool {
    let n = s.manifest.n_streams;
    match why {
        AbortReason::CrcCount { count, n: m } => {
            &&& s.manifest.mode == Mode::Range
            &&& count == sender_crcs.len()
            &&& m == n
            &&& count != n
        },
        AbortReason::CrcMismatch { stream_id, sent_crc, recv_crc } => {
            &&& s.manifest.mode == Mode::Range
            &&& sender_crcs.len() == n
            &&& stream_id < n
            &&& crcs_agree(s, sender_crcs, stream_id as int)
            &&& sent_crc == sender_crcs[stream_id as int]
            &&& recv_crc == crc_of_stream(s.reports, stream_id)
            &&& sent_crc != recv_crc
        },
        AbortReason::SenderTotal { sender, manifest } => {
            &&& s.manifest.mode == Mode::Range
            &&& sender_crcs.len() == n
            &&& crcs_agree(s, sender_crcs, n as int)
            &&& sender == sender_total
            &&& manifest == s.manifest.total_size
            &&& sender != manifest
        },
        AbortReason::FramedTotal { sender, received } => {
            &&& s.manifest.mode == Mode::Framed
            &&& sender == sender_total
            &&& received == totals(s.reports).bytes
            &&& sender != received
        },
        _ => false,
    }
}

/// The sender's last message: its report, if that is what it is.
pub fn on_sender_report(msg: CtrlMsg) -> (r: Result<(Vec<u32>, u64), CtrlError>)
    ensures
        match msg {
            CtrlMsg::SenderReport { stream_crcs, total_bytes } => r == Ok::<
                (Vec<u32>, u64),
                CtrlError,
            >((stream_crcs, total_bytes)),
            CtrlMsg::Abort { reason } => r == Err::<(Vec<u32>, u64), CtrlError>(
                CtrlError::SenderAborted { reason },
            ),
            other => r == Err::<(Vec<u32>, u64), CtrlError>(CtrlError::UnexpectedCtrl(other)),
        },
{
    match msg {
        CtrlMsg::SenderReport { stream_crcs, total_bytes } => Ok((stream_crcs, total_bytes)),
        CtrlMsg::Abort { reason } => Err(CtrlError::SenderAborted { reason }),
        other => Err(CtrlError::UnexpectedCtrl(other)),
    }
}

/// Whether a target device of `size` bytes is large enough.
pub fn check_device(size: u64, need: u64) -> (r: Result<(), CtrlError>)
    ensures
        r is Ok <==> size >= need,
        r is Err ==> r->Err_0 == (CtrlError::DeviceTooSmall { size, need }),
{
    if size < need {
        Err(CtrlError::DeviceTooSmall { size, need })
    } else {
        Ok(())
    }
}

/// Stream `i` is given the range `ranges[i]`, and there are no others.
pub proof fn law_stream_gets_its_range(ranges: Seq<Range>)
    requires
        ranges.len() <= 0x1_0000_0000,
    ensures
        forall|id: u32| #[trigger]
            assignments(ranges).dom().contains(id) <==> id < ranges.len(),
        forall|id: u32| id < ranges.len() ==> #[trigger] assignments(ranges)[id] == ranges[id as int],
    decreases ranges.len(),
{
    if ranges.len() > 0 {
        let before = ranges.drop_last();
        law_stream_gets_its_range(before);
        let last = (ranges.len() - 1) as u32;
        assert(assignments(ranges) == assignments(before).insert(last, ranges.last()));
        assert forall|id: u32| #[trigger] assignments(ranges).dom().contains(id) <==> id
            < ranges.len() by {
            assert(assignments(before).dom().contains(id) <==> id < before.len());
        }
        assert forall|id: u32| id < ranges.len() implies #[trigger] assignments(ranges)[id]
            == ranges[id as int] by {
            if id != last {
                assert(assignments(before)[id] == before[id as int]);
            }
        }
    }
}

/// The streams that reported are those whose CRC is known.
pub proof fn lemma_reported(reports: Seq<StreamReport>, id: u32)
    ensures
        reported_crcs(reports).dom().contains(id) <==> exists|k: int|
            0 <= k < reports.len() && (#[trigger] reports[k]).stats.stream_id == id,
    decreases reports.len(),
{
    if reports.len() > 0 {
        let before = reports.drop_last();
        lemma_reported(before, id);
        if exists|k: int| 0 <= k < before.len() && (#[trigger] before[k]).stats.stream_id == id {
            let k = choose|k: int|
                0 <= k < before.len() && (#[trigger] before[k]).stats.stream_id == id;
            assert(reports[k].stats.stream_id == id);
        }
        if reports.last().stats.stream_id == id {
            assert(reports[reports.len() - 1].stats.stream_id == id);
        } else if exists|k: int|
            0 <= k < reports.len() && (#[trigger] reports[k]).stats.stream_id == id {
            let k = choose|k: int|
                0 <= k < reports.len() && (#[trigger] reports[k]).stats.stream_id == id;
            assert(before[k].stats.stream_id == id);
        }
    }
}

/// Taking one report away takes its bytes away.
proof fn lemma_bytes_without(reports: Seq<StreamReport>, k: int)
    requires
        0 <= k < reports.len(),
    ensures
        totals(reports).bytes == totals(reports.remove(k)).bytes + reports[k].stats.bytes,
    decreases reports.len(),
{
    let rest = reports.remove(k);
    if k == reports.len() - 1 {
        assert(rest =~= reports.drop_last());
    } else {
        lemma_bytes_without(reports.drop_last(), k);
        assert(rest.drop_last() =~= reports.drop_last().remove(k));
        assert(rest.last() == reports.last());
    }
}

/// Some report is about stream `i`, and says that it wrote `length` bytes.
pub open spec fn has_report(reports: Seq<StreamReport>, i: int, length: u64) -> bool {
    exists|k: int|
        0 <= k < reports.len() && (#[trigger] reports[k]).stats.stream_id == i
            && reports[k].stats.bytes == length
}

/// As many reports as ranges, one for each of them and each of the right
/// length, add up to the lengths of the ranges.
pub proof fn lemma_one_report_each(ranges: Seq<Range>, reports: Seq<StreamReport>)
    requires
        reports.len() == ranges.len(),
        forall|i: int|
            0 <= i < ranges.len() ==> has_report(reports, i, (#[trigger] ranges[i]).length),
    ensures
        totals(reports).bytes == total_length(ranges),
    decreases ranges.len(),
{
    if ranges.len() > 0 {
        let last = ranges.len() - 1;
        assert(has_report(reports, last, ranges[last].length));
        let k = choose|k: int|
            0 <= k < reports.len() && (#[trigger] reports[k]).stats.stream_id == last
                && reports[k].stats.bytes == ranges[last].length;
        let rest = reports.remove(k);
        let fewer = ranges.drop_last();
        assert forall|i: int| 0 <= i < fewer.len() implies has_report(
            rest,
            i,
            (#[trigger] fewer[i]).length,
        ) by {
            assert(has_report(reports, i, ranges[i].length));
            let m = choose|m: int|
                0 <= m < reports.len() && (#[trigger] reports[m]).stats.stream_id == i
                    && reports[m].stats.bytes == ranges[i].length;
            let j = if m < k {
                m
            } else {
                m - 1
            };
            assert(rest[j] == reports[m]);
        }
        lemma_one_report_each(fewer, rest);
        lemma_bytes_without(reports, k);
    }
}

/// The sender is told that a transfer is done only where the output was
/// finalized, every stream has reported, and what the sender reported agrees.
pub proof fn law_only_verified_transfers_are_acknowledged(s: CtrlState)
    requires
        s.wf(),
        s.step() is Acknowledge,
    ensures
        s.finalized,
        s.reports.len() == s.manifest.n_streams,
        s.accepted is Some,
        verified(s, s.accepted->0.crcs, s.accepted->0.total),
{
}

/// A transfer that was given up goes nowhere: no step follows, and so it is
/// never acknowledged.
pub proof fn law_refused_transfers_are_over(s: CtrlState)
    requires
        s.wf(),
        s.ended,
    ensures
        s.step() is Ended,
        s.accepted is None,
{
}

/// A range transfer that is acknowledged has written every byte of the source,
/// and the sender is acknowledged exactly that many, where the manifest's
/// ranges tile the source. Where a stream has not reported and the sender's CRC
/// for it happens to be the one that stands for a missing report, nothing is
/// said.
pub proof fn law_acknowledged_range_transfer_is_whole(s: CtrlState)
    requires
        s.wf(),
        s.step() is Acknowledge,
        s.manifest.mode == Mode::Range,
        tiles(s.manifest.ranges@, s.manifest.total_size as int),
        s.manifest.ranges@.len() == s.manifest.n_streams,
        forall|i: int|
            0 <= i < s.manifest.n_streams && #[trigger] s.accepted->0.crcs[i] == MISSING_CRC
                ==> reported_crcs(s.reports).dom().contains(i as u32),
    ensures
        totals(s.reports).bytes == s.manifest.total_size,
{
    let ranges = s.manifest.ranges@;
    let crcs = s.accepted->0.crcs;
    law_stream_gets_its_range(ranges);
    assert forall|i: int| 0 <= i < ranges.len() implies has_report(
        s.reports,
        i,
        (#[trigger] ranges[i]).length,
    ) by {
        let id = i as u32;
        assert(crcs[i] == crc_of_stream(s.reports, id));
        assert(reported_crcs(s.reports).dom().contains(id));
        lemma_reported(s.reports, id);
        let k = choose|k: int|
            0 <= k < s.reports.len() && (#[trigger] s.reports[k]).stats.stream_id == id;
        assert(s.is_whole(s.reports[k]));
        assert(assignments(ranges)[id] == ranges[id as int]);
        assert(s.reports[k].stats.bytes == ranges[i].length);
    }
    lemma_one_report_each(ranges, s.reports);
    law_tiles_add_up(ranges, s.manifest.total_size as int);
}

/// The report at `k` is the last one about its stream.
pub open spec fn is_last_report(reports: Seq<StreamReport>, k: int) -> bool {
    &&& 0 <= k < reports.len()
    &&& forall|j: int|
        k < j < reports.len() ==> (#[trigger] reports[j]).stats.stream_id
            != reports[k].stats.stream_id
}

/// No report is about stream `id`.
pub open spec fn never_reported(reports: Seq<StreamReport>, id: int) -> bool {
    forall|j: int| 0 <= j < reports.len() ==> (#[trigger] reports[j]).stats.stream_id != id
}

proof fn lemma_last_report_counts(reports: Seq<StreamReport>, k: int)
    requires
        is_last_report(reports, k),
    ensures
        crc_of_stream(reports, reports[k].stats.stream_id) == reports[k].crc,
    decreases reports.len(),
{
    let before = reports.drop_last();
    if k < reports.len() - 1 {
        assert(reports[reports.len() - 1].stats.stream_id != reports[k].stats.stream_id);
        assert forall|j: int| k < j < before.len() implies (#[trigger] before[j]).stats.stream_id
            != before[k].stats.stream_id by {
            assert(reports[j].stats.stream_id != reports[k].stats.stream_id);
        }
        lemma_last_report_counts(before, k);
        lemma_reported(before, reports[k].stats.stream_id);
        assert(before[k].stats.stream_id == reports[k].stats.stream_id);
    }
}

proof fn lemma_no_report_counts(reports: Seq<StreamReport>, id: u32)
    requires
        never_reported(reports, id as int),
    ensures
        crc_of_stream(reports, id) == MISSING_CRC,
{
    lemma_reported(reports, id);
}

proof fn lemma_some_report_is_last(reports: Seq<StreamReport>, id: int)
    requires
        !never_reported(reports, id),
    ensures
        exists|k: int| is_last_report(reports, k) && #[trigger] reports[k].stats.stream_id == id,
    decreases reports.len(),
{
    let last = reports.len() - 1;
    if reports[last].stats.stream_id == id {
        assert(is_last_report(reports, last));
    } else {
        let before = reports.drop_last();
        let j = choose|j: int|
            0 <= j < reports.len() && (#[trigger] reports[j]).stats.stream_id == id;
        assert(before[j].stats.stream_id == id);
        lemma_some_report_is_last(before, id);
        let k = choose|k: int|
            is_last_report(before, k) && #[trigger] before[k].stats.stream_id == id;
        assert forall|j: int| k < j < reports.len() implies (#[trigger] reports[j]).stats.stream_id
            != reports[k].stats.stream_id by {
            if j < before.len() {
                assert(before[j].stats.stream_id != before[k].stats.stream_id);
            }
        }
        assert(is_last_report(reports, k));
        assert(reports[k].stats.stream_id == id);
    }
}

/// A range transfer is accepted only if the sender reports one CRC for each
/// stream, each is the CRC in that stream's last report, and the sender's total
/// is the manifest's. A stream that never reported has a CRC that stands for
/// that.
pub proof fn law_accepted_crcs_are_the_reported_ones(
    s: CtrlState,
    sender_crcs: Seq<u32>,
    sender_total: u64,
)
    requires
        s.manifest.mode == Mode::Range,
        verified(s, sender_crcs, sender_total),
    ensures
        sender_total == s.manifest.total_size,
        sender_crcs.len() == s.manifest.n_streams,
        forall|k: int|
            is_last_report(s.reports, k) && #[trigger] s.reports[k].stats.stream_id
                < s.manifest.n_streams ==> s.reports[k].crc
                == sender_crcs[s.reports[k].stats.stream_id as int],
        forall|i: int|
            0 <= i < s.manifest.n_streams && never_reported(s.reports, i) ==> #[trigger]
            sender_crcs[i] == 0xdead_beef,
{
    assert forall|k: int|
        is_last_report(s.reports, k) && #[trigger] s.reports[k].stats.stream_id
            < s.manifest.n_streams implies s.reports[k].crc
        == sender_crcs[s.reports[k].stats.stream_id as int] by {
        lemma_last_report_counts(s.reports, k);
        let i = s.reports[k].stats.stream_id as int;
        assert(sender_crcs[i] == crc_of_stream(s.reports, i as u32));
    }
    assert forall|i: int|
        0 <= i < s.manifest.n_streams && never_reported(s.reports, i) implies #[trigger]
    sender_crcs[i] == 0xdead_beef by {
        lemma_no_report_counts(s.reports, i as u32);
        assert(sender_crcs[i] == crc_of_stream(s.reports, i as u32));
    }
}

/// A range transfer in which every stream's last report has the sender's CRC,
/// one for each stream, and the sender's total is the manifest's, is accepted.
pub proof fn law_agreeing_crcs_are_accepted(
    s: CtrlState,
    sender_crcs: Seq<u32>,
    sender_total: u64,
)
    requires
        s.manifest.mode == Mode::Range,
        sender_total == s.manifest.total_size,
        sender_crcs.len() == s.manifest.n_streams,
        forall|i: int|
            0 <= i < s.manifest.n_streams ==> !#[trigger] never_reported(s.reports, i),
        forall|k: int|
            is_last_report(s.reports, k) && #[trigger] s.reports[k].stats.stream_id
                < s.manifest.n_streams ==> s.reports[k].crc
                == sender_crcs[s.reports[k].stats.stream_id as int],
    ensures
        verified(s, sender_crcs, sender_total),
{
    assert forall|i: int| 0 <= i < sender_crcs.len() implies #[trigger] sender_crcs[i]
        == crc_of_stream(s.reports, i as u32) by {
        assert(!never_reported(s.reports, i));
        lemma_some_report_is_last(s.reports, i);
        let k = choose|k: int|
            is_last_report(s.reports, k) && #[trigger] s.reports[k].stats.stream_id == i;
        lemma_last_report_counts(s.reports, k);
    }
}

/// A framed transfer is accepted if and only if the sender has sent as many
/// bytes as the data processes have written. The sums over all reports are
/// sums; the time on the wall is the longest.
pub proof fn law_totals_add_up(s: CtrlState, r: StreamReport, crcs: Seq<u32>, sender_total: u64)
    ensures
        s.manifest.mode == Mode::Framed ==> (verified(s, crcs, sender_total) <==> sender_total
            == totals(s.reports).bytes),
        totals(Seq::empty()).bytes == 0,
        totals(Seq::empty()).net_recv_ns == 0,
        totals(Seq::empty()).dst_write_ns == 0,
        totals(Seq::empty()).wall_ns == 0,
        totals(Seq::empty()).read_starved_ns == 0,
        totals(Seq::empty()).read_calls == 0,
        totals(Seq::empty()).read_short_calls == 0,
        ({
            let (a, b) = (totals(s.reports), totals(s.reports.push(r)));
            &&& b.bytes == a.bytes + r.stats.bytes
            &&& b.net_recv_ns == a.net_recv_ns + r.stats.net_recv_ns
            &&& b.dst_write_ns == a.dst_write_ns + r.stats.dst_write_ns
            &&& b.read_starved_ns == a.read_starved_ns + r.stats.read_starved_ns
            &&& b.read_calls == a.read_calls + r.stats.read_calls
            &&& b.read_short_calls == a.read_short_calls + r.stats.read_short_calls
            &&& b.wall_ns >= a.wall_ns && b.wall_ns >= r.stats.wall_ns
            &&& b.wall_ns == a.wall_ns || b.wall_ns == r.stats.wall_ns
        }),
{
    assert(s.reports.push(r).drop_last() =~= s.reports);
}

/// A regular file starts empty, whatever the options, with its space allocated
/// where its size is known; a device keeps what it holds, and must have room.
pub proof fn law_files_start_empty_and_devices_do_not(m: Manifest)
    ensures
        output_plan(m, false).truncate,
        output_plan(m, false).at_least is None,
        m.mode == Mode::Range && m.total_size > 0 ==> output_plan(m, false).preallocate == Some(
            m.total_size,
        ),
        m.mode == Mode::Framed || m.total_size == 0 ==> output_plan(m, false).preallocate is None,
        !output_plan(m, true).truncate,
        output_plan(m, true).preallocate is None,
        m.mode == Mode::Range && m.total_size > 0 ==> output_plan(m, true).at_least == Some(
            m.total_size,
        ),
        m.mode == Mode::Framed || m.total_size == 0 ==> output_plan(m, true).at_least is None,
{
}

/// In range mode a data process that names stream `id` gets the range `id` of
/// the manifest, if there is one; in framed mode it gets the output, whatever it
/// names. It learns how the transfer is made. What is no greeting gets nothing.
pub proof fn law_data_processes_get_their_work(m: Manifest, id: u32, other: RvMsg)
    requires
        m.ranges@.len() <= 0x1_0000_0000,
        other !is Hello,
    ensures
        m.mode == Mode::Range && id < m.ranges@.len() ==> answer_to_hello(
            m,
            RvMsg::Hello { stream_id: id },
        ) == Ok::<RvMsg, CtrlError>(
            RvMsg::AssignRange {
                output_path: m.output_path,
                offset: m.ranges@[id as int].offset,
                length: m.ranges@[id as int].length,
                direct: m.direct,
                no_crc: m.no_crc,
            },
        ),
        m.mode == Mode::Range && id >= m.ranges@.len() ==> answer_to_hello(
            m,
            RvMsg::Hello { stream_id: id },
        ) == Err::<RvMsg, CtrlError>(CtrlError::NoAssignment { stream_id: id }),
        m.mode == Mode::Framed ==> answer_to_hello(m, RvMsg::Hello { stream_id: id }) == Ok::<
            RvMsg,
            CtrlError,
        >(RvMsg::AssignFramed { output_path: m.output_path, no_crc: m.no_crc }),
        answer_to_hello(m, other) == Err::<RvMsg, CtrlError>(CtrlError::ExpectedHello(other)),
{
    law_stream_gets_its_range(m.ranges@);
}

/// In range mode a stream's report is accepted if and only if it wrote as many
/// bytes as range `stream_id` of the manifest is long; in framed mode every
/// count is. A failure is passed on with its reason.
pub proof fn law_reports_are_held_against_the_ranges(m: Manifest, msg: RvMsg)
    requires
        m.ranges@.len() <= 0x1_0000_0000,
        m.mode == Mode::Range && msg is Done ==> msg->Done_stream_id < m.ranges@.len(),
    ensures
        msg is Done && m.mode == Mode::Range ==> {
            let (id, bytes) = (msg->Done_stream_id, msg->Done_bytes);
            let expected = m.ranges@[id as int].length;
            answer_to_report(m, msg) == if bytes == expected {
                Ok(())
            } else {
                Err(
                    ReportFail::Abort(
                        AbortReason::WrongCount { stream_id: id, bytes, expected },
                    ),
                )
            }
        },
        msg is Done && m.mode == Mode::Framed ==> answer_to_report(m, msg) is Ok,
        msg is Failed ==> answer_to_report(m, msg) == Err::<(), ReportFail>(
            ReportFail::Abort(
                AbortReason::StreamFailed {
                    stream_id: msg->Failed_stream_id,
                    reason: msg->Failed_reason,
                },
            ),
        ),
        msg !is Done && msg !is Failed ==> answer_to_report(m, msg) == Err::<(), ReportFail>(
            ReportFail::Error(CtrlError::UnexpectedReport(msg)),
        ),
{
    law_stream_gets_its_range(m.ranges@);
}

/// A report keeps every number of the message that it came in, and is taken
/// wherever its stream was given work and the sums with it fit.
pub proof fn law_reports_are_kept_whole(s: CtrlState, msg: RvMsg)
    requires
        msg is Done,
        s.manifest.ranges@.len() <= 0x1_0000_0000,
    ensures
        ({
            let r = report_of(msg);
            &&& r.crc == msg->Done_crc
            &&& r.stats.stream_id == msg->Done_stream_id
            &&& r.stats.bytes == msg->Done_bytes
            &&& r.stats.net_recv_ns == msg->Done_net_recv_ns
            &&& r.stats.dst_write_ns == msg->Done_dst_write_ns
            &&& r.stats.wall_ns == msg->Done_wall_ns
            &&& r.stats.read_starved_ns == msg->Done_read_starved_ns
            &&& r.stats.read_calls == msg->Done_read_calls
            &&& r.stats.read_short_calls == msg->Done_read_short_calls
        }),
        can_take(s, msg) <==> {
            let t = totals(s.reports);
            &&& s.manifest.mode == Mode::Range ==> msg->Done_stream_id < s.manifest.ranges@.len()
            &&& t.bytes + msg->Done_bytes <= u64::MAX
            &&& t.net_recv_ns + msg->Done_net_recv_ns <= u64::MAX
            &&& t.dst_write_ns + msg->Done_dst_write_ns <= u64::MAX
            &&& t.read_starved_ns + msg->Done_read_starved_ns <= u64::MAX
            &&& t.read_calls + msg->Done_read_calls <= u64::MAX
            &&& t.read_short_calls + msg->Done_read_short_calls <= u64::MAX
        },
{
    assert(s.reports.push(report_of(msg)).drop_last() =~= s.reports);
    law_stream_gets_its_range(s.manifest.ranges@);
}

/// The control process gives work to as many data processes as there are
/// streams, then takes as many reports, in the order in which the work was
/// given, then compares, finalizes and acknowledges, and skips nothing.
pub proof fn law_control_takes_every_step(s: CtrlState)
    requires
        s.wf(),
    ensures
        s.step() is Ended <==> s.ended,
        s.step() is Accept <==> !s.ended && s.started < s.manifest.n_streams,
        s.step() is Collect <==> !s.ended && s.started == s.manifest.n_streams && s.reports.len()
            < s.manifest.n_streams,
        s.step() is Collect ==> s.step()->peer == s.reports.len(),
        s.step() is Compare <==> {
            &&& !s.ended
            &&& s.started == s.manifest.n_streams
            &&& s.reports.len() == s.manifest.n_streams
            &&& s.accepted is None
        },
        s.step() is Finalize <==> s.accepted is Some && !s.finalized,
        s.step() is Acknowledge <==> s.accepted is Some && s.finalized,
{
}

/// What is the reason for a refusal does not hold: the counts, the CRCs of the
/// stream that is named, or the totals are indeed not the same.
pub proof fn law_refusals_are_true(
    s: CtrlState,
    sender_crcs: Seq<u32>,
    sender_total: u64,
    why: AbortReason,
)
    requires
        refusal(s, sender_crcs, sender_total, why),
    ensures
        !verified(s, sender_crcs, sender_total),
        match why {
            AbortReason::CrcCount { count, n } => {
                &&& count == sender_crcs.len()
                &&& n == s.manifest.n_streams
                &&& count != n
            },
            AbortReason::CrcMismatch { stream_id, sent_crc, recv_crc } => {
                &&& stream_id < s.manifest.n_streams
                &&& sent_crc == sender_crcs[stream_id as int]
                &&& sent_crc != recv_crc
                &&& forall|k: int|
                    is_last_report(s.reports, k) && #[trigger] s.reports[k].stats.stream_id
                        == stream_id ==> recv_crc == s.reports[k].crc
                &&& never_reported(s.reports, stream_id as int) ==> recv_crc == 0xdead_beef
            },
            AbortReason::SenderTotal { sender, manifest } => {
                &&& sender == sender_total
                &&& manifest == s.manifest.total_size
                &&& sender != manifest
            },
            AbortReason::FramedTotal { sender, received } => {
                &&& sender == sender_total
                &&& received == totals(s.reports).bytes
                &&& sender != received
            },
            _ => false,
        },
{
    if let AbortReason::CrcMismatch { stream_id, .. } = why {
        assert forall|k: int|
            is_last_report(s.reports, k) && #[trigger] s.reports[k].stats.stream_id
                == stream_id implies crc_of_stream(s.reports, stream_id) == s.reports[k].crc by {
            lemma_last_report_counts(s.reports, k);
        }
        if never_reported(s.reports, stream_id as int) {
            lemma_no_report_counts(s.reports, stream_id);
        }
        assert(sender_crcs[stream_id as int] != crc_of_stream(s.reports, stream_id));
    }
}

/// What the sender is told of a refusal names the stream and both numbers that
/// do not agree: what was found before what was expected, and the sender's
/// before the receiver's.
pub proof fn law_refusals_name_what_disagrees(
    id: u32,
    a: u64,
    b: u64,
    x: u32,
    y: u32,
    count: usize,
    why: String,
)
    ensures
        (AbortReason::WrongCount { stream_id: id, bytes: a, expected: b }).text() == "stream "@ + dec(
            id as nat,
        ) + ": wrote "@ + dec(a as nat) + ", expected "@ + dec(b as nat),
        (AbortReason::StreamFailed { stream_id: id, reason: why }).text() == "stream "@ + dec(
            id as nat,
        ) + " failed: "@ + why@,
        (AbortReason::CrcCount { count, n: id }).text() == "sender crc count "@ + dec(count as nat)
            + " != "@ + dec(id as nat),
        (AbortReason::CrcMismatch { stream_id: id, sent_crc: x, recv_crc: y }).text()
            == "crc mismatch on stream "@ + dec(id as nat) + ": sender=0x"@ + hex(x as nat, 8)
            + " recv=0x"@ + hex(y as nat, 8),
        (AbortReason::SenderTotal { sender: a, manifest: b }).text() == "sender total "@ + dec(
            a as nat,
        ) + " != manifest total "@ + dec(b as nat),
        (AbortReason::FramedTotal { sender: a, received: b }).text()
            == "framed size mismatch: sender "@ + dec(a as nat) + ", received "@ + dec(b as nat),
{
}

/// What is told of an error names what was found, and where a device is too
/// small its size and what is needed, in this order.
pub proof fn law_errors_name_what_was_found(
    size: u64,
    need: u64,
    id: u32,
    why: String,
    rv: RvMsg,
    msg: CtrlMsg,
    detail: Seq<char>,
)
    ensures
        (CtrlError::BadMagic { magic: why }).text(detail) == "bad magic: "@ + why@,
        (CtrlError::DeviceTooSmall { size, need }).text(detail) == "target block device "@ + detail
            + " is "@ + dec(size as nat) + " bytes; need "@ + dec(need as nat),
        CtrlError::ExpectedHello(rv).text(detail) == "expected Hello, got "@ + detail,
        (CtrlError::NoAssignment { stream_id: id }).text(detail) == "no assignment for stream "@
            + dec(id as nat),
        CtrlError::UnexpectedReport(rv).text(detail) == "unexpected rv msg: "@ + detail,
        (CtrlError::SenderAborted { reason: why }).text(detail) == "sender aborted: "@ + why@,
        CtrlError::UnexpectedCtrl(msg).text(detail) == "unexpected ctrl msg: "@ + detail,
{
}

} // verus!
