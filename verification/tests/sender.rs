use dd_ng::proto::{CtrlMsg, Mode, Range, RecvStreamStats, MAGIC};
use dd_ng::send::{
    delay_before, framed_report, is_stdin, manifest, new_token, on_ready, on_reply, overflows,
    plan, range_report, start_line, token_from, verdict, waiting_line, Acked, InputKind, LastReply,
    Plan, PlanError, SendError, SendOpts, DEFAULT_STREAMS,
};

fn opts() -> SendOpts {
    SendOpts {
        input: "/dev/vg/test".to_string(),
        remote: "target-host:/dev/vg/test".to_string(),
        streams: 8,
        block_size: 4 << 20,
        remote_bin: "dd-ng".to_string(),
        ssh_bin: "ssh".to_string(),
        extra_ssh: vec![],
        stream_delay_ms: 20,
        no_ssh_defaults: false,
        sync: true,
        verbose: 1,
        quiet: false,
        direct: true,
        no_crc: false,
        stats: false,
    }
}

#[test]
fn streams_by_default() {
    assert_eq!(DEFAULT_STREAMS, 4);
}

#[test]
fn inputs_of_known_size_are_sent_in_ranges() {
    for kind in [InputKind::File { size: 10 }, InputKind::Device { size: 10 }] {
        let p = plan(kind, 3, 4096, false).unwrap();
        assert_eq!((p.mode, p.total_size), (Mode::Range, 10));
        assert_eq!(
            p.ranges,
            vec![
                Range { offset: 0, length: 4 },
                Range { offset: 4, length: 3 },
                Range { offset: 7, length: 3 }
            ]
        );
    }
    let p = plan(InputKind::File { size: 10000 }, 2, 4096, true).unwrap();
    assert_eq!(
        p.ranges,
        vec![Range { offset: 0, length: 4096 }, Range { offset: 4096, length: 5904 }]
    );
}

#[test]
fn other_inputs_are_sent_in_frames() {
    for kind in [InputKind::Stdin, InputKind::Fifo] {
        let p = plan(kind, 3, 5, false).unwrap();
        assert_eq!((p.mode, p.total_size, p.ranges.len()), (Mode::Framed, 0, 0));
    }
}

#[test]
fn what_cannot_be_sent_is_refused() {
    let e = plan(InputKind::Stdin, 3, 4096, true).unwrap_err();
    assert_eq!(e, PlanError::DirectStdin);
    assert_eq!(
        e.reason(),
        "--direct requires a seekable input (regular file or block device), not stdin"
    );
    let e = plan(InputKind::Fifo, 3, 4096, true).unwrap_err();
    assert_eq!(e, PlanError::DirectFifo);
    assert_eq!(
        e.reason(),
        "--direct requires a seekable input (regular file or block device), not a FIFO"
    );
    for direct in [false, true] {
        let e = plan(InputKind::Other, 3, 4096, direct).unwrap_err();
        assert_eq!(e, PlanError::WrongInput);
        assert_eq!(
            e.reason(),
            "input must be a regular file, block device, FIFO, or '-' for stdin"
        );
    }
    let e = plan(InputKind::File { size: 1 }, 0, 5000, true).unwrap_err();
    assert_eq!(e, PlanError::BlockSize);
    assert_eq!(e.reason(), "--direct requires --block-size to be a multiple of 4096");
    assert!(plan(InputKind::File { size: 1 }, 1, 5000, false).is_ok());
}

#[test]
fn standard_input_is_a_dash() {
    assert!(is_stdin("-"));
    assert!(!is_stdin("--"));
    assert!(!is_stdin(""));
}

#[test]
fn tokens_are_hexadecimal() {
    let mut b = [0u8; 16];
    b[0] = 0xAB;
    b[1] = 0x05;
    b[15] = 0xF0;
    assert_eq!(token_from(&b), "ab0500000000000000000000000000f0");
}

#[test]
fn new_tokens_differ() {
    let a = new_token();
    let b = new_token();
    assert_eq!(a.len(), 32);
    assert!(a.chars().all(|c| c.is_ascii_hexdigit()));
    assert_ne!(a, b);
    assert_ne!(a, token_from(&[0u8; 16]));
}

#[test]
fn the_manifest_says_what_was_asked() {
    let p: Plan = plan(InputKind::File { size: 10 }, 2, 4096, false).unwrap();
    let m = manifest(&opts(), p, "tok".to_string(), "/out".to_string());
    assert_eq!(m.magic, MAGIC);
    assert_eq!(m.magic, "DDNG1");
    assert_eq!(m.token, "tok");
    assert_eq!(m.mode, Mode::Range);
    assert_eq!(m.n_streams, 8);
    assert_eq!(m.total_size, 10);
    assert_eq!(m.block_size, 4 << 20);
    assert_eq!(m.output_path, "/out");
    assert!(m.sync && m.direct && !m.no_crc);
    assert_eq!(m.ranges.len(), 2);
}

#[test]
fn reports_name_the_bytes_and_crcs() {
    let results = vec![(4u64, 11u32), (3, 22), (3, 33)];
    assert!(!overflows(&results));
    match range_report(&results) {
        CtrlMsg::SenderReport { stream_crcs, total_bytes } => {
            assert_eq!(stream_crcs, vec![11, 22, 33]);
            assert_eq!(total_bytes, 10);
        }
        other => panic!("{other:?}"),
    }
    match framed_report(99) {
        CtrlMsg::SenderReport { stream_crcs, total_bytes } => {
            assert!(stream_crcs.is_empty());
            assert_eq!(total_bytes, 99);
        }
        other => panic!("{other:?}"),
    }
    assert!(overflows(&vec![(u64::MAX, 0), (1, 0)]));
    assert!(!overflows(&vec![(u64::MAX, 0), (0, 0)]));
}

#[test]
fn streams_are_staggered_but_the_first() {
    assert_eq!(delay_before(0, 20), None);
    assert_eq!(delay_before(1, 20), Some(20));
    assert_eq!(delay_before(5, 0), None);
}

fn abort() -> CtrlMsg {
    CtrlMsg::Abort { reason: "no room".to_string() }
}

#[test]
fn only_ready_starts_the_transfer() {
    assert!(on_ready(CtrlMsg::Ready).is_ok());
    let e = on_ready(abort()).unwrap_err();
    assert_eq!(e.reason(""), "remote aborted: no room");
    let e = on_ready(CtrlMsg::Done { bytes: 1 }).unwrap_err();
    assert!(matches!(e, SendError::Unexpected(CtrlMsg::Done { bytes: 1 })));
    assert_eq!(e.reason("Done { bytes: 1 }"), "unexpected ctrl msg: Done { bytes: 1 }");
}

#[test]
fn measurements_are_kept_and_reading_goes_on() {
    let mut stats = None;
    let per = RecvStreamStats {
        stream_id: 1,
        bytes: 2,
        net_recv_ns: 3,
        dst_write_ns: 4,
        wall_ns: 5,
        read_starved_ns: 6,
        read_calls: 7,
        read_short_calls: 8,
    };
    let m = CtrlMsg::RecvStats {
        net_recv_ns: 10,
        dst_write_ns: 20,
        wall_ns: 30,
        read_starved_ns: 40,
        read_calls: 50,
        read_short_calls: 60,
        per_stream: vec![per],
    };
    assert!(on_reply(&mut stats, m).is_none());
    let s = stats.as_ref().unwrap();
    assert_eq!((s.net_recv_ns, s.dst_write_ns, s.wall_ns), (10, 20, 30));
    assert_eq!((s.read_starved_ns, s.read_calls, s.read_short_calls), (40, 50, 60));
    assert_eq!(s.per_stream, vec![per]);
    assert!(matches!(
        on_reply(&mut stats, CtrlMsg::Done { bytes: 9 }),
        Some(CtrlMsg::Done { bytes: 9 })
    ));
    assert!(stats.is_some());
}

fn judge(mode: Mode, written: bool, last: LastReply) -> Result<Acked, SendError> {
    verdict(mode, 100, written, last)
}

fn done(bytes: u64) -> LastReply {
    LastReply::Message(CtrlMsg::Done { bytes })
}

#[test]
fn an_acknowledged_transfer_succeeds() {
    for mode in [Mode::Range, Mode::Framed] {
        for written in [false, true] {
            let a = judge(mode, written, done(100)).unwrap();
            assert_eq!(a, Acked { bytes: 100, check_exit: written });
        }
    }
    assert_eq!(judge(Mode::Framed, true, done(7)).unwrap().bytes, 7);
    assert_eq!(judge(Mode::Framed, false, done(7)).unwrap().bytes, 7);
}

#[test]
fn an_acknowledgement_of_the_wrong_size_does_not() {
    let e = judge(Mode::Range, true, done(99)).unwrap_err();
    assert_eq!(e.reason("x"), "size mismatch: ack 99, expected 100");
    let e = judge(Mode::Range, false, done(99)).unwrap_err();
    assert_eq!(
        e.reason("Broken pipe"),
        "size mismatch after ctrl write error (Broken pipe): ack 99, expected 100"
    );
}

#[test]
fn a_refusal_is_heard_either_way() {
    for written in [false, true] {
        let e = judge(Mode::Range, written, LastReply::Message(abort())).unwrap_err();
        assert_eq!(e.reason("x"), "remote aborted: no room");
    }
}

#[test]
fn other_endings_are_errors() {
    let e = judge(Mode::Range, true, LastReply::Message(CtrlMsg::Ready)).unwrap_err();
    assert_eq!(e.reason("Ready"), "unexpected ctrl msg: Ready");
    let e = judge(Mode::Range, false, LastReply::Message(CtrlMsg::Ready)).unwrap_err();
    assert_eq!(e.reason("Ready"), "unexpected ctrl msg after write failure: Ready");
    let e = judge(Mode::Range, true, LastReply::NoMessage).unwrap_err();
    assert!(matches!(e, SendError::NoMessage));
    let e = judge(Mode::Range, false, LastReply::NoMessage).unwrap_err();
    assert!(matches!(e, SendError::WriteFailed));
    let e = judge(Mode::Range, true, LastReply::ReadFailed).unwrap_err();
    assert!(matches!(e, SendError::ReadFailed));
    let e = judge(Mode::Range, false, LastReply::ReadFailed).unwrap_err();
    assert!(matches!(e, SendError::WriteFailed));
    assert_eq!(e.reason("the cause"), "the cause");
}

#[test]
fn the_first_line_of_a_transfer() {
    assert_eq!(
        start_line(&opts(), Mode::Range, 32212254720),
        "[send] mode=Range /dev/vg/test -> target-host:/dev/vg/test  size=32212254720  streams=8"
    );
    let mut o = opts();
    o.input = "-".to_string();
    o.streams = 4;
    assert_eq!(
        start_line(&o, Mode::Framed, 0),
        "[send] mode=Framed <stdin> -> target-host:/dev/vg/test  size=?  streams=4"
    );
    assert_eq!(waiting_line(false), "[send] all bytes sent; waiting for remote finalize...");
    assert_eq!(waiting_line(true), "[send] all bytes sent; waiting for remote fsync...");
}

#[test]
fn what_is_shown() {
    let mut o = opts();
    assert!(o.shows_progress() && o.shows_summary() && !o.shows_messages());
    o.quiet = true;
    assert!(!o.shows_progress() && o.shows_summary());
    o.verbose = 0;
    assert!(!o.shows_summary() && !o.shows_progress());
    o.quiet = false;
    o.verbose = 3;
    assert!(o.shows_messages() && o.shows_progress());
}
