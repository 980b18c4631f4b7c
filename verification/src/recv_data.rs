//! The data process of the receiver: what it is told to do, what it measures,
//! and what it reports.

use crate::proto::{RvMsg, STARVE_THRESHOLD};
use vstd::prelude::*;

verus! {

/// The work of a data process.
#[derive(Debug)]
pub enum Work {
    Range { output_path: String, offset: u64, length: u64, direct: bool, no_crc: bool },
    Framed { output_path: String, no_crc: bool },
}

/// The work in the answer to a data process; any other message is none.
pub open spec fn work_in(msg: RvMsg) -> Result<Work, RvMsg> {
    match msg {
        RvMsg::AssignRange { output_path, offset, length, direct, no_crc } => Ok(
            Work::Range { output_path, offset, length, direct, no_crc },
        ),
        RvMsg::AssignFramed { output_path, no_crc } => Ok(Work::Framed { output_path, no_crc }),
        other => Err(other),
    }
}

/// Takes the answer of the control process. Hands back a message that gives no
/// work.
pub fn on_assign(msg: RvMsg) -> (r: Result<Work, RvMsg>)
    ensures
        r == work_in(msg),
        r is Ok <==> msg is AssignRange || msg is AssignFramed,
        r is Err ==> r->Err_0 == msg,
        msg is AssignRange ==> r->Ok_0 == (Work::Range {
            output_path: msg->AssignRange_output_path,
            offset: msg->offset,
            length: msg->length,
            direct: msg->direct,
            no_crc: msg->AssignRange_no_crc,
        }),
        msg is AssignFramed ==> r->Ok_0 == (Work::Framed {
            output_path: msg->AssignFramed_output_path,
            no_crc: msg->AssignFramed_no_crc,
        }),
{
    match msg {
        RvMsg::AssignRange { output_path, offset, length, direct, no_crc } => Ok(
            Work::Range { output_path, offset, length, direct, no_crc },
        ),
        RvMsg::AssignFramed { output_path, no_crc } => Ok(Work::Framed { output_path, no_crc }),
        other => Err(other),
    }
}

/// What a data process is told that got no work. `detail` is the message that
/// it got, as a user sees it.
pub fn no_work(detail: &str) -> (s: String)
    ensures
        s@ == "expected Assign*, got "@ + detail@,
{
    let mut s: String = String::new();
    s.append("expected Assign*, got ");
    s.append(detail);
    assert(s@ == "expected Assign*, got "@ + detail@);
    s
}

/// What a data process measures of its reads and writes.
#[derive(Debug, Clone, Copy, PartialEq, Eq, Structural)]
pub struct RecvIoStats {
    pub net_recv_ns: u64,
    pub dst_write_ns: u64,
    pub read_starved_ns: u64,
    pub read_calls: u64,
    pub read_short_calls: u64,
}

/// A read that returned data, but little: the reader was waiting.
pub open spec fn starved(returned: usize) -> bool {
    0 < returned < STARVE_THRESHOLD
}

impl RecvIoStats {
    /// Nothing measured yet.
    pub fn new() -> (r: RecvIoStats)
        ensures
            r == (RecvIoStats {
                net_recv_ns: 0,
                dst_write_ns: 0,
                read_starved_ns: 0,
                read_calls: 0,
                read_short_calls: 0,
            }),
    {
        RecvIoStats {
            net_recv_ns: 0,
            dst_write_ns: 0,
            read_starved_ns: 0,
            read_calls: 0,
            read_short_calls: 0,
        }
    }

    /// A read of this length still fits.
    pub open spec fn takes_read(self, dur_ns: u64, returned: usize) -> bool {
        &&& self.net_recv_ns + dur_ns <= u64::MAX
        &&& self.read_calls < u64::MAX
        &&& starved(returned) ==> self.read_starved_ns + dur_ns <= u64::MAX
            && self.read_short_calls < u64::MAX
    }

    /// With one more read.
    pub open spec fn with_read(self, dur_ns: u64, returned: usize) -> RecvIoStats {
        RecvIoStats {
            net_recv_ns: (self.net_recv_ns + dur_ns) as u64,
            read_calls: (self.read_calls + 1) as u64,
            read_starved_ns: if starved(returned) {
                (self.read_starved_ns + dur_ns) as u64
            } else {
                self.read_starved_ns
            },
            read_short_calls: if starved(returned) {
                (self.read_short_calls + 1) as u64
            } else {
                self.read_short_calls
            },
            ..self
        }
    }

    /// A read of this length still fits.
    pub fn can_record_read(&self, dur_ns: u64, returned: usize) -> (b: bool)
        ensures
            b == self.takes_read(dur_ns, returned),
            b ==> self.net_recv_ns + dur_ns <= u64::MAX && self.read_calls < u64::MAX,
            self.net_recv_ns + dur_ns <= u64::MAX && self.read_calls < u64::MAX
                && self.read_starved_ns + dur_ns <= u64::MAX && self.read_short_calls < u64::MAX
                ==> b,
    {
        let short: bool = returned > 0 && returned < STARVE_THRESHOLD;
        self.net_recv_ns.checked_add(dur_ns).is_some() && self.read_calls < u64::MAX && (!short || (
        self.read_starved_ns.checked_add(dur_ns).is_some() && self.read_short_calls < u64::MAX))
    }

    /// Counts a read that took `dur_ns` and returned `returned` bytes.
    pub fn record_read(&mut self, dur_ns: u64, returned: usize)
        requires
            old(self).takes_read(dur_ns, returned),
        ensures
            *final(self) == old(self).with_read(dur_ns, returned),
            final(self).net_recv_ns == old(self).net_recv_ns + dur_ns,
            final(self).read_calls == old(self).read_calls + 1,
            final(self).dst_write_ns == old(self).dst_write_ns,
            0 < returned < 65536 ==> final(self).read_short_calls == old(self).read_short_calls + 1
                && final(self).read_starved_ns == old(self).read_starved_ns + dur_ns,
            returned == 0 || returned >= 65536 ==> final(self).read_short_calls == old(
                self,
            ).read_short_calls && final(self).read_starved_ns == old(self).read_starved_ns,
    {
        self.net_recv_ns = self.net_recv_ns + dur_ns;
        self.read_calls = self.read_calls + 1;
        if returned > 0 && returned < STARVE_THRESHOLD {
            self.read_starved_ns = self.read_starved_ns + dur_ns;
            self.read_short_calls = self.read_short_calls + 1;
        }
    }

    /// A write of this length still fits.
    pub fn can_record_write(&self, dur_ns: u64) -> (b: bool)
        ensures
            b == (self.dst_write_ns + dur_ns <= u64::MAX),
    {
        self.dst_write_ns.checked_add(dur_ns).is_some()
    }

    /// Counts a write that took `dur_ns`.
    pub fn record_write(&mut self, dur_ns: u64)
        requires
            old(self).dst_write_ns + dur_ns <= u64::MAX,
        ensures
            *final(self) == (RecvIoStats {
                dst_write_ns: (old(self).dst_write_ns + dur_ns) as u64,
                ..*old(self)
            }),
    {
        self.dst_write_ns = self.dst_write_ns + dur_ns;
    }

    /// The short reads are some of the reads, and so are the times of both.
    pub open spec fn consistent(self) -> bool {
        &&& self.read_short_calls <= self.read_calls
        &&& self.read_starved_ns <= self.net_recv_ns
    }
}

/// Whatever is counted, the short reads stay some of the reads.
pub proof fn law_short_reads_are_reads(before: RecvIoStats, dur_ns: u64, returned: usize)
    requires
        before.consistent(),
        before.takes_read(dur_ns, returned),
    ensures
        before.with_read(dur_ns, returned).consistent(),
{
}

/// The message that a data process opens with.
pub fn hello(id: u32) -> (m: RvMsg)
    ensures
        m == (RvMsg::Hello { stream_id: id }),
{
    RvMsg::Hello { stream_id: id }
}

/// The message that a data process ends with, once its work is done.
pub fn done(id: u32, bytes: u64, crc: u32, io: &RecvIoStats, wall_ns: u64) -> (m: RvMsg)
    ensures
        m == (RvMsg::Done {
            stream_id: id,
            bytes,
            crc,
            net_recv_ns: io.net_recv_ns,
            dst_write_ns: io.dst_write_ns,
            wall_ns,
            read_starved_ns: io.read_starved_ns,
            read_calls: io.read_calls,
            read_short_calls: io.read_short_calls,
        }),
{
    RvMsg::Done {
        stream_id: id,
        bytes,
        crc,
        net_recv_ns: io.net_recv_ns,
        dst_write_ns: io.dst_write_ns,
        wall_ns,
        read_starved_ns: io.read_starved_ns,
        read_calls: io.read_calls,
        read_short_calls: io.read_short_calls,
    }
}

/// The message that a data process ends with if it gives up.
pub fn failed(id: u32, reason: String) -> (m: RvMsg)
    ensures
        m == (RvMsg::Failed { stream_id: id, reason }),
{
    RvMsg::Failed { stream_id: id, reason }
}

/// Why a data process of range mode gives up when it cannot read its input.
pub fn read_failure(in_tail: bool, cause: &str) -> (s: String)
    ensures
        s@ == (if in_tail {
            "stdin read (tail): "@
        } else {
            "stdin read: "@
        }) + cause@,
{
    let mut s: String = String::new();
    if in_tail {
        s.append("stdin read (tail): ");
        s.append(cause);
        assert(s@ == "stdin read (tail): "@ + cause@);
    } else {
        s.append("stdin read: ");
        s.append(cause);
        assert(s@ == "stdin read: "@ + cause@);
    }
    s
}

/// How long a data process tries to reach the control process.
pub const CONNECT_TIMEOUT_MS: u64 = 30000;

/// How long it waits between two attempts.
pub const CONNECT_RETRY_MS: u64 = 50;

/// How long to wait after an attempt that failed `elapsed_ms` after the first
/// one started. `None`: give up.
pub fn retry_connect(elapsed_ms: u64) -> (wait_ms: Option<u64>)
    ensures
        wait_ms == if elapsed_ms >= CONNECT_TIMEOUT_MS {
            None
        } else {
            Some(CONNECT_RETRY_MS)
        },
        wait_ms is None <==> elapsed_ms >= 30000,
        wait_ms is Some ==> wait_ms == Some(50u64),
{
    if elapsed_ms >= CONNECT_TIMEOUT_MS {
        None
    } else {
        Some(CONNECT_RETRY_MS)
    }
}

/// The capacity that a data process asks for its input pipe.
pub const PIPE_SIZE: i32 = 1048576;

/// `EPERM`: the capacity is more than an unprivileged process may have.
pub const EPERM: i32 = 1;

/// What came of an attempt to set the capacity of a pipe, given what the
/// system call returned and its error. Not to be allowed to is no failure: the
/// capacity then counts as 0. Everything else is one, such as that there is no
/// pipe.
pub fn pipe_size_outcome(returned: i32, errno: Option<i32>) -> (r: Result<i32, Option<i32>>)
    ensures
        r == if returned >= 0 {
            Ok(returned)
        } else if errno == Some(EPERM) {
            Ok(0)
        } else {
            Err(errno)
        },
        r is Ok <==> returned >= 0 || errno == Some(1i32),
        returned >= 0 ==> r == Ok::<i32, Option<i32>>(returned),
        returned < 0 && errno == Some(1i32) ==> r == Ok::<i32, Option<i32>>(0),
        r is Err ==> r->Err_0 == errno,
{
    if returned >= 0 {
        return Ok(returned);
    }
    match errno {
        Some(e) => if e == EPERM {
            Ok(0)
        } else {
            Err(errno)
        },
        None => Err(errno),
    }
}

/// A read counts as short if it returned less than 65536 bytes but some, and
/// its time as waiting time then. Every read counts, and so does its time.
pub proof fn law_reads_are_counted(before: RecvIoStats, dur_ns: u64, returned: usize)
    requires
        before.net_recv_ns + dur_ns <= u64::MAX,
        before.read_calls < u64::MAX,
        before.read_starved_ns + dur_ns <= u64::MAX,
        before.read_short_calls < u64::MAX,
    ensures
        before.takes_read(dur_ns, returned),
        ({
            let after = before.with_read(dur_ns, returned);
            let short = 0 < returned && returned < 65536;
            &&& after.net_recv_ns == before.net_recv_ns + dur_ns
            &&& after.dst_write_ns == before.dst_write_ns
            &&& after.read_calls == before.read_calls + 1
            &&& after.read_short_calls == before.read_short_calls + if short {
                1int
            } else {
                0
            }
            &&& after.read_starved_ns == before.read_starved_ns + if short {
                dur_ns as int
            } else {
                0
            }
        }),
{
}

/// Whether a read still fits can be seen from its counters alone: a read that
/// is not short leaves the counters of short reads out.
pub proof fn law_full_counters_take_no_read(before: RecvIoStats, dur_ns: u64, returned: usize)
    ensures
        before.takes_read(dur_ns, returned) ==> before.net_recv_ns + dur_ns <= u64::MAX
            && before.read_calls < u64::MAX,
        before.takes_read(dur_ns, returned) && 0 < returned < 65536 ==> before.read_starved_ns
            + dur_ns <= u64::MAX && before.read_short_calls < u64::MAX,
        before.net_recv_ns + dur_ns <= u64::MAX && before.read_calls < u64::MAX && (returned == 0
            || returned >= 65536) ==> before.takes_read(dur_ns, returned),
{
}

/// A data process gets work from an assignment and from nothing else, and it
/// is the work that was assigned.
pub proof fn law_work_is_what_was_assigned(msg: RvMsg)
    ensures
        work_in(msg) is Ok <==> msg is AssignRange || msg is AssignFramed,
        work_in(msg) is Err ==> work_in(msg)->Err_0 == msg,
        msg is AssignRange ==> {
            let w = work_in(msg)->Ok_0;
            &&& w is Range
            &&& w->Range_output_path == msg->AssignRange_output_path
            &&& w->offset == msg->offset
            &&& w->length == msg->length
            &&& w->direct == msg->direct
            &&& w->Range_no_crc == msg->AssignRange_no_crc
        },
        msg is AssignFramed ==> {
            let w = work_in(msg)->Ok_0;
            &&& w is Framed
            &&& w->Framed_output_path == msg->AssignFramed_output_path
            &&& w->Framed_no_crc == msg->AssignFramed_no_crc
        },
{
}

} // verus!
