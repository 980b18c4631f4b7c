use dd_ng::proto::{CtrlMsg, Manifest, Mode, Range, RvMsg, MAGIC};
use dd_ng::recv_ctrl::{
    check_device, on_sender_report, AbortReason, CtrlError, CtrlSession, CtrlStep, FinalPlan,
    OutputPlan, ReportFail, MISSING_CRC,
};

fn manifest(mode: Mode, n: u32) -> Manifest {
    Manifest {
        magic: MAGIC.to_string(),
        token: "t".to_string(),
        mode,
        n_streams: n,
        total_size: if mode == Mode::Range { 10 * n as u64 } else { 0 },
        block_size: 4096,
        output_path: "/out".to_string(),
        sync: false,
        direct: true,
        no_crc: false,
        ranges: if mode == Mode::Range {
            (0..n as u64).map(|i| Range { offset: 10 * i, length: 10 }).collect()
        } else {
            vec![]
        },
    }
}

fn done(stream_id: u32, bytes: u64, crc: u32) -> RvMsg {
    RvMsg::Done {
        stream_id,
        bytes,
        crc,
        net_recv_ns: 100 + stream_id as u64,
        dst_write_ns: 10,
        wall_ns: 1000 - stream_id as u64,
        read_starved_ns: 3,
        read_calls: 4,
        read_short_calls: 2,
    }
}

/// A session in which every stream has been given work.
fn started(mode: Mode, n: u32) -> CtrlSession {
    let mut s = CtrlSession::open(manifest(mode, n)).unwrap_or_else(|e| panic!("{e:?}"));
    for i in (0..n).rev() {
        assert_eq!(s.next(), CtrlStep::Accept);
        s.on_hello(RvMsg::Hello { stream_id: i }).unwrap();
    }
    s
}

#[test]
fn the_magic_is_checked() {
    let mut m = manifest(Mode::Range, 1);
    m.magic = "DDNG2".to_string();
    match CtrlSession::open(m) {
        Err(e) => {
            assert!(matches!(&e, CtrlError::BadMagic { magic } if magic == "DDNG2"));
            assert_eq!(e.reason(""), "bad magic: DDNG2");
        }
        Ok(_) => panic!("opened"),
    }
}

#[test]
fn a_file_starts_empty_and_a_device_does_not() {
    let s = started(Mode::Range, 2);
    assert_eq!(
        s.output_plan(false),
        OutputPlan { truncate: true, preallocate: Some(20), at_least: None }
    );
    assert_eq!(
        s.output_plan(true),
        OutputPlan { truncate: false, preallocate: None, at_least: Some(20) }
    );
    let s = started(Mode::Framed, 2);
    assert_eq!(
        s.output_plan(false),
        OutputPlan { truncate: true, preallocate: None, at_least: None }
    );
    assert_eq!(
        s.output_plan(true),
        OutputPlan { truncate: false, preallocate: None, at_least: None }
    );
    let s = started(Mode::Range, 0);
    assert_eq!(s.output_plan(false).preallocate, None);
}

#[test]
fn a_small_device_is_refused() {
    assert!(check_device(20, 20).is_ok());
    let e = check_device(19, 20).unwrap_err();
    assert_eq!(e.reason("/dev/x"), "target block device /dev/x is 19 bytes; need 20");
}

#[test]
fn each_stream_gets_its_range() {
    let mut s = CtrlSession::open(manifest(Mode::Range, 3)).unwrap_or_else(|e| panic!("{e:?}"));
    for i in [2u32, 0, 1] {
        match s.on_hello(RvMsg::Hello { stream_id: i }).unwrap() {
            RvMsg::AssignRange { output_path, offset, length, direct, no_crc } => {
                assert_eq!(output_path, "/out");
                assert_eq!((offset, length), (10 * i as u64, 10));
                assert!(direct && !no_crc);
            }
            other => panic!("{other:?}"),
        }
    }
    assert_eq!(s.next(), CtrlStep::Collect { peer: 0 });
}

#[test]
fn framed_streams_get_the_path() {
    let mut s = CtrlSession::open(manifest(Mode::Framed, 1)).unwrap_or_else(|e| panic!("{e:?}"));
    match s.on_hello(RvMsg::Hello { stream_id: 99 }).unwrap() {
        RvMsg::AssignFramed { output_path, no_crc } => {
            assert_eq!(output_path, "/out");
            assert!(!no_crc);
        }
        other => panic!("{other:?}"),
    }
}

#[test]
fn strangers_get_no_work() {
    let mut s = CtrlSession::open(manifest(Mode::Range, 3)).unwrap_or_else(|e| panic!("{e:?}"));
    let e = s.on_hello(RvMsg::Hello { stream_id: 3 }).unwrap_err();
    assert!(matches!(e, CtrlError::NoAssignment { stream_id: 3 }));
    assert_eq!(e.reason(""), "no assignment for stream 3");
    assert_eq!(s.next(), CtrlStep::Ended);
    let mut s = CtrlSession::open(manifest(Mode::Range, 3)).unwrap_or_else(|e| panic!("{e:?}"));
    let e = s.on_hello(done(0, 1, 1)).unwrap_err();
    assert!(matches!(e, CtrlError::ExpectedHello(RvMsg::Done { .. })));
    assert_eq!(e.reason("X"), "expected Hello, got X");
}

#[test]
fn reports_are_added_up() {
    let mut s = started(Mode::Range, 3);
    for (k, i) in [1u32, 2, 0].into_iter().enumerate() {
        assert_eq!(s.next(), CtrlStep::Collect { peer: k });
        let m = done(i, 10, 50 + i);
        assert!(s.can_take(&m));
        s.on_report(m).unwrap();
    }
    assert_eq!(s.next(), CtrlStep::Compare);
    assert!(s.verify(&vec![50, 51, 52], 30).is_ok());
    assert_eq!(s.next(), CtrlStep::Finalize);
    assert_eq!(s.final_plan(false), FinalPlan { length: None, sync: false });
    s.on_finalized();
    assert_eq!(s.next(), CtrlStep::Acknowledge);
    let (stats, last) = s.finish();
    assert!(matches!(last, CtrlMsg::Done { bytes: 30 }));
    match stats {
        CtrlMsg::RecvStats {
            net_recv_ns,
            dst_write_ns,
            wall_ns,
            read_starved_ns,
            read_calls,
            read_short_calls,
            per_stream,
        } => {
            assert_eq!(net_recv_ns, 303);
            assert_eq!(dst_write_ns, 30);
            assert_eq!(wall_ns, 1000);
            assert_eq!(read_starved_ns, 9);
            assert_eq!(read_calls, 12);
            assert_eq!(read_short_calls, 6);
            let ids: Vec<u32> = per_stream.iter().map(|p| p.stream_id).collect();
            assert_eq!(ids, vec![1, 2, 0]);
            assert_eq!(per_stream[0].bytes, 10);
        }
        other => panic!("{other:?}"),
    }
}

#[test]
fn sums_that_do_not_fit_are_not_taken() {
    let mut s = started(Mode::Framed, 2);
    s.on_report(done(0, u64::MAX, 0)).unwrap();
    assert!(!s.can_take(&done(1, 1, 0)));
    assert!(s.can_take(&done(1, 0, 0)));
    let s = started(Mode::Range, 1);
    assert!(!s.can_take(&done(1, 10, 0)));
}

fn aborted(r: Result<(), ReportFail>) -> String {
    match r {
        Err(ReportFail::Abort(a)) => a.reason(),
        other => panic!("{other:?}"),
    }
}

#[test]
fn a_stream_that_wrote_less_ends_the_transfer() {
    let mut s = started(Mode::Range, 2);
    assert_eq!(aborted(s.on_report(done(1, 9, 0))), "stream 1: wrote 9, expected 10");
    assert_eq!(s.next(), CtrlStep::Ended);
    let mut s = started(Mode::Framed, 2);
    assert!(s.on_report(done(1, 9, 0)).is_ok());
}

#[test]
fn a_stream_that_failed_ends_the_transfer() {
    for mode in [Mode::Range, Mode::Framed] {
        let mut s = started(mode, 2);
        let m = RvMsg::Failed { stream_id: 1, reason: "disk full".to_string() };
        assert!(s.can_take(&m));
        assert_eq!(aborted(s.on_report(m)), "stream 1 failed: disk full");
        assert_eq!(s.next(), CtrlStep::Ended);
    }
    let mut s = started(Mode::Range, 2);
    match s.on_report(RvMsg::Hello { stream_id: 1 }) {
        Err(ReportFail::Error(e)) => assert_eq!(e.reason("Y"), "unexpected rv msg: Y"),
        other => panic!("{other:?}"),
    }
}

fn compared(crcs: Vec<u32>, total: u64) -> Result<(), AbortReason> {
    let mut s = started(Mode::Range, 3);
    for i in 0..3 {
        s.on_report(done(i, 10, 50 + i)).unwrap();
    }
    let r = s.verify(&crcs, total);
    let next = if r.is_ok() { CtrlStep::Finalize } else { CtrlStep::Ended };
    assert_eq!(s.next(), next);
    r
}

#[test]
fn the_first_difference_is_the_reason() {
    let text = |r: Result<(), AbortReason>| r.unwrap_err().reason();
    assert_eq!(text(compared(vec![50, 51], 30)), "sender crc count 2 != 3");
    assert_eq!(
        text(compared(vec![50, 0xAB, 0xCD], 31)),
        "crc mismatch on stream 1: sender=0x000000ab recv=0x00000033"
    );
    assert_eq!(
        text(compared(vec![50, 51, 52], 31)),
        "sender total 31 != manifest total 30"
    );
    assert!(compared(vec![50, 51, 52], 30).is_ok());
}

#[test]
fn a_refusal_is_told_to_the_sender() {
    let e = compared(vec![], 30).unwrap_err();
    match e.message() {
        CtrlMsg::Abort { reason } => assert_eq!(reason, "sender crc count 0 != 3"),
        other => panic!("{other:?}"),
    }
}

#[test]
fn a_stream_without_a_report_has_a_crc_of_its_own() {
    let twice = || {
        let mut s = started(Mode::Range, 2);
        s.on_report(done(0, 10, 1)).unwrap();
        s.on_report(done(0, 10, 2)).unwrap();
        s
    };
    assert_eq!(
        twice().verify(&vec![2, 5], 20).unwrap_err().reason(),
        "crc mismatch on stream 1: sender=0x00000005 recv=0xdeadbeef"
    );
    assert!(twice().verify(&vec![2, MISSING_CRC], 20).is_ok());
}

#[test]
fn framed_totals_must_agree() {
    let framed = || {
        let mut s = started(Mode::Framed, 2);
        s.on_report(done(0, 7, 0)).unwrap();
        s.on_report(done(1, 8, 0)).unwrap();
        s
    };
    assert!(framed().verify(&vec![], 15).is_ok());
    assert!(framed().verify(&vec![1, 2, 3], 15).is_ok());
    assert_eq!(
        framed().verify(&vec![], 16).unwrap_err().reason(),
        "framed size mismatch: sender 16, received 15"
    );
    assert_eq!(framed().final_plan(false).length, Some(15));
    assert_eq!(framed().final_plan(true).length, None);
}

#[test]
fn the_output_is_flushed_if_asked() {
    let mut m = manifest(Mode::Framed, 0);
    m.sync = true;
    let mut s = CtrlSession::open(m).unwrap_or_else(|e| panic!("{e:?}"));
    assert_eq!(s.next(), CtrlStep::Compare);
    s.verify(&vec![], 0).unwrap();
    assert_eq!(s.next(), CtrlStep::Finalize);
    assert_eq!(s.final_plan(false), FinalPlan { length: Some(0), sync: true });
    s.on_finalized();
    assert!(matches!(s.finish().1, CtrlMsg::Done { bytes: 0 }));
}

#[test]
fn the_sender_must_report() {
    let m = CtrlMsg::SenderReport { stream_crcs: vec![1, 2], total_bytes: 9 };
    assert_eq!(on_sender_report(m).unwrap(), (vec![1, 2], 9));
    let e = on_sender_report(CtrlMsg::Abort { reason: "no".to_string() }).unwrap_err();
    assert_eq!(e.reason(""), "sender aborted: no");
    let e = on_sender_report(CtrlMsg::Ready).unwrap_err();
    assert!(matches!(e, CtrlError::UnexpectedCtrl(CtrlMsg::Ready)));
    assert_eq!(e.reason("Ready"), "unexpected ctrl msg: Ready");
}
