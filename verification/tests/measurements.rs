use dd_ng::busy::{bottleneck, busy_share, Stage};
use dd_ng::double::Double;
use dd_ng::proto::{Mode, RecvStreamStats, RvMsg, STARVE_THRESHOLD};
use dd_ng::recv_data::{
    done, failed, hello, no_work, on_assign, pipe_size_outcome, read_failure, retry_connect,
    RecvIoStats, Work,
};
use dd_ng::stats::{
    sort_by_stream, src_threads, total_bytes, PerStreamSendStats, Progress, StageStats,
};

#[test]
fn work_is_taken_from_the_answer() {
    let m = RvMsg::AssignRange {
        output_path: "/o".to_string(),
        offset: 1,
        length: 2,
        direct: true,
        no_crc: false,
    };
    match on_assign(m) {
        Ok(Work::Range { output_path, offset, length, direct, no_crc }) => {
            assert_eq!(output_path, "/o");
            assert_eq!((offset, length, direct, no_crc), (1, 2, true, false));
        }
        other => panic!("{other:?}"),
    }
    let m = RvMsg::AssignFramed { output_path: "/o".to_string(), no_crc: true };
    assert!(matches!(
        on_assign(m),
        Ok(Work::Framed { output_path, no_crc: true }) if output_path == "/o"
    ));
    assert!(matches!(on_assign(hello(4)), Err(RvMsg::Hello { stream_id: 4 })));
    assert_eq!(no_work("Hello"), "expected Assign*, got Hello");
}

#[test]
fn short_reads_count_as_starved() {
    let mut io = RecvIoStats::new();
    for (ns, n) in [(5, 0), (7, 1), (11, STARVE_THRESHOLD - 1), (13, STARVE_THRESHOLD)] {
        assert!(io.can_record_read(ns, n));
        io.record_read(ns, n);
    }
    assert!(io.can_record_write(100));
    io.record_write(100);
    io.record_write(1);
    assert_eq!(io.net_recv_ns, 36);
    assert_eq!(io.read_calls, 4);
    assert_eq!(io.read_starved_ns, 18);
    assert_eq!(io.read_short_calls, 2);
    assert_eq!(io.dst_write_ns, 101);
    assert!(io.read_short_calls <= io.read_calls);
    assert!(!io.can_record_read(u64::MAX, 0));
    assert!(!io.can_record_write(u64::MAX));
}

#[test]
fn messages_of_a_data_process() {
    let mut io = RecvIoStats::new();
    io.record_read(7, 3);
    io.record_write(9);
    match done(2, 3, 4, &io, 99) {
        RvMsg::Done {
            stream_id,
            bytes,
            crc,
            net_recv_ns,
            dst_write_ns,
            wall_ns,
            read_starved_ns,
            read_calls,
            read_short_calls,
        } => {
            assert_eq!((stream_id, bytes, crc), (2, 3, 4));
            assert_eq!((net_recv_ns, dst_write_ns, wall_ns), (7, 9, 99));
            assert_eq!((read_starved_ns, read_calls, read_short_calls), (7, 1, 1));
        }
        other => panic!("{other:?}"),
    }
    assert!(matches!(
        failed(2, "why".to_string()),
        RvMsg::Failed { stream_id: 2, reason } if reason == "why"
    ));
    assert_eq!(read_failure(false, "io"), "stdin read: io");
    assert_eq!(read_failure(true, "io"), "stdin read (tail): io");
}

#[test]
fn connecting_is_retried_for_a_while() {
    assert_eq!(retry_connect(0), Some(50));
    assert_eq!(retry_connect(29999), Some(50));
    assert_eq!(retry_connect(30000), None);
    assert_eq!(retry_connect(30001), None);
}

#[test]
fn only_a_pipe_that_may_not_grow_is_no_failure() {
    assert_eq!(pipe_size_outcome(1048576, None), Ok(1048576));
    assert_eq!(pipe_size_outcome(0, Some(1)), Ok(0));
    assert_eq!(pipe_size_outcome(-1, Some(1)), Ok(0));
    assert_eq!(pipe_size_outcome(-1, Some(22)), Err(Some(22)));
    assert_eq!(pipe_size_outcome(-1, Some(9)), Err(Some(9)));
    assert_eq!(pipe_size_outcome(-1, None), Err(None));
}

#[test]
fn stages_are_counted() {
    let mut st = StageStats::new(3);
    assert_eq!(st.per_stream.len(), 3);
    st.record_src_read(5, 10);
    st.record_src_read(6, 20);
    st.record_net_send(7, 30);
    st.sample_queue(3, 8);
    st.sample_queue(4, 8);
    assert_eq!((st.src_read_ns, st.src_read_bytes), (11, 30));
    assert_eq!((st.net_send_ns, st.net_send_bytes), (7, 30));
    assert_eq!((st.q_depth_sum, st.q_depth_samples, st.q_cap), (7, 2, 8));
    st.record_src_read(u64::MAX, 0);
    assert_eq!(st.src_read_ns, 10);
    let one = PerStreamSendStats { id: 1, bytes: 2, src_read_ns: 3, net_send_ns: 4, wall_ns: 5 };
    st.finish_stream(one);
    assert_eq!(st.per_stream[1], one);
    assert_eq!(st.per_stream[0].bytes, 0);
    assert_eq!(st.per_stream[2].id, 0);
}

#[test]
fn progress_runs_to_the_total() {
    let mut p = Progress::new(100);
    assert_eq!((p.bytes, p.total, p.done), (0, 100, false));
    p.add_bytes(60);
    assert_eq!(p.remaining(), 40);
    p.add_bytes(60);
    assert_eq!(p.remaining(), 0);
    p.stop();
    assert!(p.done);
}

#[test]
fn one_thread_reads_in_framed_mode() {
    assert_eq!(src_threads(Mode::Framed, 8), 1);
    assert_eq!(src_threads(Mode::Range, 8), 8);
}

fn stats(stream_id: u32, bytes: u64) -> RecvStreamStats {
    RecvStreamStats {
        stream_id,
        bytes,
        net_recv_ns: 0,
        dst_write_ns: 0,
        wall_ns: 0,
        read_starved_ns: 0,
        read_calls: 0,
        read_short_calls: 0,
    }
}

#[test]
fn streams_are_sorted_and_stay_in_their_order() {
    let v = vec![stats(2, 1), stats(0, 2), stats(2, 3), stats(1, 4), stats(0, 5)];
    let order: Vec<(u32, u64)> =
        sort_by_stream(&v).iter().map(|s| (s.stream_id, s.bytes)).collect();
    assert_eq!(order, vec![(0, 2), (0, 5), (1, 4), (2, 1), (2, 3)]);
    assert!(sort_by_stream(&vec![]).is_empty());
}

#[test]
fn bytes_of_streams_add_up() {
    assert_eq!(total_bytes(&vec![stats(0, 5), stats(1, 6)]), Some(11));
    assert_eq!(total_bytes(&vec![]), Some(0));
    assert_eq!(total_bytes(&vec![stats(0, u64::MAX), stats(1, 1)]), None);
}

fn value(d: &Double) -> f64 {
    d.mantissa as f64 * 2f64.powi(d.exponent)
}

fn share(ns: u64, threads: u32, wall: u64) -> f64 {
    (ns as f64) / ((threads as f64) * (wall as f64).max(1.0))
}

#[test]
fn shares_are_what_doubles_make_of_them() {
    let mut x: u64 = 1234567;
    for i in 0..300u32 {
        x ^= x << 13;
        x ^= x >> 7;
        x ^= x << 17;
        let (ns, wall, threads) = (x >> (i % 64), x.rotate_left(17) >> (i % 61), 1 + i % 9);
        assert_eq!(value(&busy_share(ns, threads, wall)), share(ns, threads, wall));
    }
    assert_eq!(value(&busy_share(0, 0, 5)), 0.0);
    assert_eq!(value(&busy_share(7, 1, 0)), 7.0);
}

#[test]
fn the_busiest_stage_is_named() {
    // src, net, dst, starved, in percent of the wall, for two streams.
    let judge = |src: u64, net: u64, dst: u64, starved: u64| {
        bottleneck(src * 2, 2, net * 2, dst * 2, starved * 2, 2, 100)
    };
    let b = judge(71, 90, 90, 90);
    assert_eq!((b.stage, b.dominates), (Stage::Source, true));
    assert_eq!(value(&b.share), 0.71);
    let b = judge(70, 51, 41, 31);
    assert_eq!((b.stage, value(&b.share)), (Stage::Network, 0.51));
    let b = judge(70, 51, 41, 30);
    assert_eq!((b.stage, value(&b.share)), (Stage::Destination, 0.41));
    let b = judge(20, 50, 29, 28);
    assert_eq!((b.stage, b.dominates), (Stage::Destination, false));
    let b = judge(20, 50, 40, 45);
    assert_eq!((b.stage, b.dominates), (Stage::Network, true));
    let b = judge(30, 20, 30, 30);
    assert_eq!((b.stage, b.dominates), (Stage::Unclear, false));
    let b = judge(0, 31, 0, 0);
    assert_eq!((b.stage, b.dominates), (Stage::Unclear, true));
    assert_eq!(Stage::Source.name(), "source read");
    assert_eq!(Stage::Network.name(), "network");
    assert_eq!(Stage::Destination.name(), "destination write");
    assert_eq!(Stage::Unclear.name(), "(unclear)");
}
