use dd_ng::recv_range::{RangeFail, RangeReceiver, RangeStep, BUFFERED_CHUNK, DIRECT_CHUNK};
use dd_ng::send_range::{RangeSender, SendStep, ShortRead};

/// Sends a range of `input`, at most `at_once` bytes a read.
fn send(
    input: &[u8],
    offset: u64,
    length: u64,
    block: usize,
    no_crc: bool,
    at_once: usize,
) -> Result<(Vec<u8>, u64, u32), ShortRead> {
    let mut tx = RangeSender::new(2, offset, length, block, no_crc);
    let mut sent = vec![];
    loop {
        match tx.next() {
            SendStep::Read { at, want } => {
                let from = (at as usize).min(input.len());
                let n = want.min(input.len() - from).min(at_once);
                let data = &input[from..from + n];
                tx.on_read(data)?;
                sent.extend_from_slice(data);
            }
            SendStep::Finish { written, crc } => return Ok((sent, written, crc)),
        }
    }
}

/// Runs a data process on `stream`. Returns its writes (with their tail mark)
/// and how it ends.
fn receive(
    stream: &[u8],
    offset: u64,
    length: u64,
    direct: bool,
    no_crc: bool,
    at_once: usize,
) -> (Vec<(u64, Vec<u8>, bool)>, Result<(u64, u32), RangeFail>) {
    let mut rx = RangeReceiver::new(2, offset, length, direct, no_crc);
    let mut rest = stream;
    let mut buf: Vec<u8> = vec![];
    let mut writes = vec![];
    loop {
        match rx.next() {
            RangeStep::Read { from, to, .. } => {
                if buf.len() < to {
                    buf.resize(to, 0);
                }
                let n = (to - from).min(rest.len()).min(at_once);
                buf[from..from + n].copy_from_slice(&rest[..n]);
                rest = &rest[n..];
                rx.on_read(n);
            }
            RangeStep::Write { at, len, tail } => {
                writes.push((at, buf[..len].to_vec(), tail));
                rx.on_written(&buf[..len]);
            }
            RangeStep::Fail(e) => return (writes, Err(e)),
            RangeStep::Finish { written, crc } => return (writes, Ok((written, crc))),
        }
    }
}

fn bytes(n: usize) -> Vec<u8> {
    (0..n).map(|i| (i * 31 + i / 256) as u8).collect()
}

#[test]
fn a_stream_sends_its_range() {
    let input = bytes(100);
    let (sent, written, crc) = send(&input, 10, 50, 16, false, 7).unwrap();
    assert_eq!(sent, &input[10..60]);
    assert_eq!(written, 50);
    let (_, _, again) = send(&input, 10, 50, 1000, false, 1000).unwrap();
    assert_eq!(crc, again);
    assert_ne!(crc, 0);
    let (_, _, none) = send(&input, 10, 50, 16, true, 7).unwrap();
    assert_eq!(none, 0);
    let (sent, written, crc) = send(&input, 10, 0, 16, false, 7).unwrap();
    assert_eq!((sent.len(), written, crc), (0, 0, 0));
}

#[test]
fn the_crc_of_a_stream_is_crc32c() {
    let (_, _, crc) = send(b"Hello world!", 0, 12, 5, false, 3).unwrap();
    assert_eq!(crc, 0x7B98E751);
}

#[test]
fn an_input_that_shrinks_is_an_error() {
    let e = send(&bytes(40), 10, 50, 16, false, 7).unwrap_err();
    assert_eq!(e.reason(), "short read stream 2");
    let e = send(&bytes(40), 0, 10, 0, false, 7).unwrap_err();
    assert_eq!(e.reason(), "short read stream 2");
}

#[test]
fn a_process_writes_its_range() {
    let data = bytes(BUFFERED_CHUNK + 100);
    let length = data.len() as u64;
    let (_, _, crc) = send(&data, 0, length, 4096, false, 4096).unwrap();
    for at_once in [997, 65536, usize::MAX] {
        let (writes, end) = receive(&data, 1000, length, false, false, at_once);
        assert_eq!(end.unwrap(), (length, crc));
        assert_eq!(writes.len(), 2);
        assert_eq!((writes[0].0, writes[0].1.len()), (1000, BUFFERED_CHUNK));
        assert_eq!((writes[1].0, writes[1].1.len()), (1000 + BUFFERED_CHUNK as u64, 100));
        let joined: Vec<u8> = writes.iter().flat_map(|w| w.1.clone()).collect();
        assert_eq!(joined, data);
    }
    let (_, end) = receive(&data, 1000, length, false, true, 65536);
    assert_eq!(end.unwrap(), (length, 0));
}

#[test]
fn direct_writes_are_aligned_but_for_the_tail() {
    let data = bytes(DIRECT_CHUNK + 8192 + 5);
    let length = data.len() as u64;
    let (_, _, crc) = send(&data, 0, length, 4096, false, 4096).unwrap();
    let (writes, end) = receive(&data, 4096, length, true, false, 5000);
    assert_eq!(end.unwrap(), (length, crc));
    let shape: Vec<(u64, usize, bool)> = writes.iter().map(|w| (w.0, w.1.len(), w.2)).collect();
    let first = DIRECT_CHUNK as u64;
    assert_eq!(
        shape,
        vec![
            (4096, DIRECT_CHUNK, false),
            (4096 + first, 8192, false),
            (4096 + first + 8192, 5, true)
        ]
    );
    let joined: Vec<u8> = writes.iter().flat_map(|w| w.1.clone()).collect();
    assert_eq!(joined, data);
}

#[test]
fn an_empty_range_is_done_at_once() {
    for direct in [false, true] {
        let (writes, end) = receive(&[], 77, 0, direct, false, 10);
        assert!(writes.is_empty());
        assert_eq!(end.unwrap(), (0, 0));
    }
}

#[test]
fn a_short_input_is_an_error() {
    let data = bytes(50);
    let (writes, end) = receive(&data, 0, 100, false, false, 20);
    assert_eq!(writes, vec![(0, data.clone(), false)]);
    assert_eq!(end.unwrap_err().reason(), "short input: got 50, expected 100");
    let (_, end) = receive(&[], 0, 100, false, false, 20);
    assert_eq!(end.unwrap_err().reason(), "short input: got 0, expected 100");
}

#[test]
fn a_short_direct_input_is_an_error() {
    let data = bytes(5000);
    let (writes, end) = receive(&data, 0, 8192, true, false, 4096);
    assert!(writes.is_empty());
    assert_eq!(
        end.unwrap_err().reason(),
        "short read under O_DIRECT: got 5000, wanted 8192 (stream 2)"
    );
    let (_, end) = receive(&[], 0, 8192, true, false, 4096);
    assert_eq!(end.unwrap_err().reason(), "short input: got 0, expected 8192");
}

#[test]
fn a_short_tail_is_an_error() {
    let data = bytes(4096 + 3);
    let (writes, end) = receive(&data, 0, 4096 + 10, true, false, 4096);
    assert_eq!(writes.len(), 1);
    assert_eq!(
        end.unwrap_err().reason(),
        "short input on tail: got 3, expected 10 (stream 2)"
    );
}
