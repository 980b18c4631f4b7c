//! Whole transfers, with the connections replaced by vectors.

use dd_ng::framed::{frame_header, Chunk, FrameReceiver, FrameStep, ProduceStep, Producer};
use dd_ng::proto::{CtrlMsg, Mode, RvMsg};
use dd_ng::queue::{queue_capacity, BoundedQueue, Popped};
use dd_ng::recv_ctrl::{on_sender_report, CtrlSession, CtrlStep};
use dd_ng::recv_data::{done, hello, on_assign, RecvIoStats, Work};
use dd_ng::recv_range::{RangeReceiver, RangeStep};
use dd_ng::send::{
    framed_report, manifest, on_ready, plan, range_report, verdict, InputKind, LastReply, SendOpts,
};
use dd_ng::send_range::{RangeSender, SendStep};

fn opts(streams: u32, block_size: u64, direct: bool, no_crc: bool) -> SendOpts {
    SendOpts {
        input: "in".to_string(),
        remote: "host:out".to_string(),
        streams,
        block_size,
        remote_bin: "dd-ng".to_string(),
        ssh_bin: "ssh".to_string(),
        extra_ssh: vec![],
        stream_delay_ms: 0,
        no_ssh_defaults: false,
        sync: false,
        verbose: 0,
        quiet: false,
        direct,
        no_crc,
        stats: false,
    }
}

fn put(file: &mut Vec<u8>, at: u64, data: &[u8]) {
    let at = at as usize;
    if file.len() < at + data.len() {
        file.resize(at + data.len(), 0);
    }
    file[at..at + data.len()].copy_from_slice(data);
}

fn send_range(source: &[u8], offset: u64, length: u64, o: &SendOpts, id: u32) -> (Vec<u8>, u64, u32) {
    let mut tx = RangeSender::new(id, offset, length, o.block_size as usize, o.no_crc);
    let mut wire = vec![];
    loop {
        match tx.next() {
            SendStep::Read { at, want } => {
                let n = want.min(3000);
                let data = &source[at as usize..at as usize + n];
                tx.on_read(data).unwrap();
                wire.extend_from_slice(data);
            }
            SendStep::Finish { written, crc } => return (wire, written, crc),
        }
    }
}

fn write_range(wire: &[u8], work: Work, id: u32, file: &mut Vec<u8>) -> (u64, u32) {
    let (offset, length, direct, no_crc) = match work {
        Work::Range { offset, length, direct, no_crc, .. } => (offset, length, direct, no_crc),
        other => panic!("{other:?}"),
    };
    let mut rx = RangeReceiver::new(id, offset, length, direct, no_crc);
    let mut rest = wire;
    let mut buf: Vec<u8> = vec![];
    loop {
        match rx.next() {
            RangeStep::Read { from, to, .. } => {
                buf.resize(to.max(buf.len()), 0);
                let n = (to - from).min(rest.len()).min(1777);
                buf[from..from + n].copy_from_slice(&rest[..n]);
                rest = &rest[n..];
                rx.on_read(n);
            }
            RangeStep::Write { at, len, .. } => {
                put(file, at, &buf[..len]);
                rx.on_written(&buf[..len]);
            }
            RangeStep::Fail(e) => panic!("{e:?}"),
            RangeStep::Finish { written, crc } => return (written, crc),
        }
    }
}

/// Sends `source` in ranges. `spoil` may change what travels on a stream.
fn range_transfer(
    source: &[u8],
    o: &SendOpts,
    spoil: impl Fn(u32, &mut Vec<u8>),
) -> (Vec<u8>, Result<u64, String>) {
    let size = source.len() as u64;
    let p = plan(InputKind::File { size }, o.streams, o.block_size, o.direct).unwrap();
    let ranges = p.ranges.clone();
    let m = manifest(o, p, "tok".to_string(), "out".to_string());
    let mut ctrl = CtrlSession::open(m).unwrap_or_else(|e| panic!("{e:?}"));
    on_ready(CtrlMsg::Ready).unwrap();
    let mut file = vec![];
    let mut results = vec![];
    let mut reports = vec![];
    for (i, r) in ranges.iter().enumerate() {
        let id = i as u32;
        let (mut wire, written, crc) = send_range(source, r.offset, r.length, o, id);
        results.push((written, crc));
        spoil(id, &mut wire);
        assert_eq!(ctrl.next(), CtrlStep::Accept);
        let work = on_assign(ctrl.on_hello(hello(id)).unwrap()).unwrap();
        let (bytes, crc) = write_range(&wire, work, id, &mut file);
        reports.push(done(id, bytes, crc, &RecvIoStats::new(), 1));
    }
    for r in reports.into_iter().rev() {
        assert!(matches!(ctrl.next(), CtrlStep::Collect { .. }));
        ctrl.on_report(r).unwrap();
    }
    assert_eq!(ctrl.next(), CtrlStep::Compare);
    let (crcs, total) = on_sender_report(range_report(&results)).unwrap();
    let last = match ctrl.verify(&crcs, total) {
        Ok(()) => {
            assert_eq!(ctrl.next(), CtrlStep::Finalize);
            ctrl.on_finalized();
            ctrl.finish().1
        }
        Err(why) => why.message(),
    };
    let r = verdict(Mode::Range, size, true, LastReply::Message(last));
    (file, r.map(|a| a.bytes).map_err(|e| e.reason("")))
}

fn source(n: usize) -> Vec<u8> {
    (0..n).map(|i| (i * 131 + i / 251) as u8).collect()
}

#[test]
fn a_range_transfer_delivers_the_source() {
    for n in [0usize, 1, 4095, 4096, 100_003] {
        let data = source(n);
        for streams in [1, 3, 8] {
            for direct in [false, true] {
                for no_crc in [false, true] {
                    let o = opts(streams, 8192, direct, no_crc);
                    let (file, r) = range_transfer(&data, &o, |_, _| {});
                    assert_eq!(r, Ok(n as u64));
                    assert_eq!(file, data);
                }
            }
        }
    }
}

#[test]
fn a_spoiled_stream_is_refused() {
    let data = source(50_000);
    let flip = |id: u32, wire: &mut Vec<u8>| {
        if id == 2 {
            wire[77] ^= 1;
        }
    };
    let (_, r) = range_transfer(&data, &opts(4, 4096, false, false), flip);
    let text = r.unwrap_err();
    assert!(text.starts_with("remote aborted: crc mismatch on stream 2: sender=0x"), "{text}");
    let (file, r) = range_transfer(&data, &opts(4, 4096, false, true), flip);
    assert_eq!(r, Ok(50_000));
    assert_ne!(file, data);
}

fn cut(data: &[u8], block: usize, q: &mut BoundedQueue) -> u64 {
    let mut p = Producer::new(block);
    let mut rest = data;
    let mut buf = vec![0u8; block];
    loop {
        match p.next() {
            ProduceStep::Read { from, to } => {
                let n = (to - from).min(rest.len()).min(999);
                buf[from..from + n].copy_from_slice(&rest[..n]);
                rest = &rest[n..];
                p.on_read(n);
            }
            ProduceStep::Emit { .. } => {
                let c = p.emit(std::mem::replace(&mut buf, vec![0u8; block]));
                assert!(q.push(c).is_none());
            }
            ProduceStep::End { total } => {
                q.close();
                return total;
            }
        }
    }
}

fn write_frames(wire: &[u8], no_crc: bool, id: u32, file: &mut Vec<u8>) -> (u64, u32) {
    let mut rx = FrameReceiver::new(id, no_crc);
    let mut rest = wire;
    let mut payload = vec![];
    loop {
        match rx.next() {
            FrameStep::ReadHeader { want } => {
                let n = want.min(rest.len());
                rx.on_header(&rest[..n]);
                rest = &rest[n..];
            }
            FrameStep::ReadPayload { from, to } => {
                payload.resize(to, 0);
                let n = (to - from).min(rest.len()).min(555);
                payload[from..from + n].copy_from_slice(&rest[..n]);
                rest = &rest[n..];
                rx.on_payload(n);
            }
            FrameStep::Check { len } => {
                payload.resize(len, 0);
                let at = rx.check(&payload).unwrap();
                put(file, at, &payload);
                rx.on_written(&payload);
            }
            FrameStep::Fail(e) => panic!("{e:?}"),
            FrameStep::Finish { written, crc } => return (written, crc),
        }
    }
}

#[test]
fn a_framed_transfer_delivers_the_source() {
    for n in [0usize, 1, 5000, 30_001] {
        let data = source(n);
        for no_crc in [false, true] {
            let o = opts(3, 4096, false, no_crc);
            let p = plan(InputKind::Stdin, o.streams, o.block_size, o.direct).unwrap();
            let m = manifest(&o, p, "tok".to_string(), "out".to_string());
            let mut ctrl = CtrlSession::open(m).unwrap_or_else(|e| panic!("{e:?}"));
            let mut q = BoundedQueue::new(queue_capacity(o.streams) + 10);
            let total = cut(&data, 4096, &mut q);
            let mut wires: Vec<Vec<u8>> = vec![vec![]; 3];
            let mut turn = 0;
            while let Popped::Chunk(c) = q.pop() {
                let lane = [1usize, 1, 0, 2][turn % 4];
                let c: Chunk = c;
                wires[lane].extend_from_slice(&frame_header(&c, no_crc));
                wires[lane].extend_from_slice(&c.data);
                turn += 1;
            }
            let mut file = vec![];
            for id in 0..3u32 {
                let work = on_assign(ctrl.on_hello(hello(id)).unwrap()).unwrap();
                assert!(matches!(work, Work::Framed { no_crc: x, .. } if x == no_crc));
            }
            for id in [2u32, 0, 1] {
                let (bytes, crc) = write_frames(&wires[id as usize], no_crc, id, &mut file);
                assert_eq!(crc == 0, no_crc || bytes == 0);
                let report: RvMsg = done(id, bytes, crc, &RecvIoStats::new(), 1);
                ctrl.on_report(report).unwrap();
            }
            let (crcs, sent) = on_sender_report(framed_report(total)).unwrap();
            ctrl.verify(&crcs, sent).unwrap();
            assert_eq!(ctrl.final_plan(false).length, Some(n as u64));
            ctrl.on_finalized();
            let last = ctrl.finish().1;
            let acked = verdict(Mode::Framed, 0, true, LastReply::Message(last)).unwrap();
            assert_eq!(acked.bytes, n as u64);
            assert_eq!(file, data);
        }
    }
}
