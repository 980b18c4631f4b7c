use dd_ng::crc::{extend_stream_crc, POLYNOMIAL};
use dd_ng::framed::{
    frame_header, Chunk, FrameFail, FrameReceiver, FrameStep, ProduceStep, Producer,
};
use dd_ng::proto::{decode_frame_hdr, encode_frame_hdr, FRAME_HDR_LEN};

#[test]
fn headers_are_little_endian() {
    let hdr = encode_frame_hdr(0x0102030405060708, 0x11121314, 0x21222324);
    assert_eq!(
        hdr,
        [8, 7, 6, 5, 4, 3, 2, 1, 0x14, 0x13, 0x12, 0x11, 0x24, 0x23, 0x22, 0x21]
    );
    assert_eq!(hdr.len(), FRAME_HDR_LEN);
    assert_eq!(decode_frame_hdr(&hdr), (0x0102030405060708, 0x11121314, 0x21222324));
}

#[test]
fn headers_are_read_back() {
    for (o, l, c) in [(0, 0, 0), (u64::MAX, u32::MAX, u32::MAX), (1 << 40, 4 << 20, 7)] {
        assert_eq!(decode_frame_hdr(&encode_frame_hdr(o, l, c)), (o, l, c));
    }
    let bytes = [9u8; FRAME_HDR_LEN];
    let (o, l, c) = decode_frame_hdr(&bytes);
    assert_eq!(encode_frame_hdr(o, l, c), bytes);
}

#[test]
fn a_frame_carries_the_crc_of_its_payload() {
    let chunk = Chunk { offset: 5, data: b"Hello world!".to_vec() };
    assert_eq!(decode_frame_hdr(&frame_header(&chunk, false)), (5, 12, 0x7B98E751));
    assert_eq!(decode_frame_hdr(&frame_header(&chunk, true)), (5, 12, 0));
}

/// Cuts `input` into chunks, reading at most `at_once` bytes at a time.
fn cut(input: &[u8], block: usize, at_once: usize) -> (Vec<Chunk>, u64) {
    let mut p = Producer::new(block);
    let mut rest = input;
    let mut buf = vec![0u8; block];
    let mut chunks = vec![];
    loop {
        match p.next() {
            ProduceStep::Read { from, to } => {
                let n = (to - from).min(rest.len()).min(at_once);
                buf[from..from + n].copy_from_slice(&rest[..n]);
                rest = &rest[n..];
                p.on_read(n);
            }
            ProduceStep::Emit { len } => {
                assert!(len <= block);
                let full = std::mem::replace(&mut buf, vec![0u8; block]);
                chunks.push(p.emit(full));
            }
            ProduceStep::End { total } => return (chunks, total),
        }
    }
}

#[test]
fn chunks_are_whole_blocks_but_the_last() {
    let input: Vec<u8> = (0..25).collect();
    for at_once in [1, 3, 10, 100] {
        let (chunks, total) = cut(&input, 10, at_once);
        assert_eq!(total, 25);
        let shape: Vec<(u64, usize)> = chunks.iter().map(|c| (c.offset, c.data.len())).collect();
        assert_eq!(shape, vec![(0, 10), (10, 10), (20, 5)]);
        let joined: Vec<u8> = chunks.iter().flat_map(|c| c.data.clone()).collect();
        assert_eq!(joined, input);
    }
    let (chunks, total) = cut(&input[..20], 10, 7);
    assert_eq!((chunks.len(), total), (2, 20));
    let (chunks, total) = cut(&[], 10, 7);
    assert_eq!((chunks.len(), total), (0, 0));
    let (chunks, total) = cut(&input, 0, 7);
    assert_eq!((chunks.len(), total), (0, 0));
}

/// Runs a data process on `stream`, at most `at_once` bytes a read. Returns its
/// writes and how it ends.
fn receive(
    stream: &[u8],
    no_crc: bool,
    at_once: usize,
) -> (Vec<(u64, Vec<u8>)>, Result<(u64, u32), FrameFail>) {
    let mut rx = FrameReceiver::new(3, no_crc);
    let mut rest = stream;
    let mut payload: Vec<u8> = vec![];
    let mut writes = vec![];
    loop {
        match rx.next() {
            FrameStep::ReadHeader { want } => {
                let n = want.min(rest.len()).min(at_once);
                rx.on_header(&rest[..n]);
                rest = &rest[n..];
                payload.clear();
            }
            FrameStep::ReadPayload { from, to } => {
                payload.resize(to, 0);
                let n = (to - from).min(rest.len()).min(at_once);
                payload[from..from + n].copy_from_slice(&rest[..n]);
                rest = &rest[n..];
                rx.on_payload(n);
            }
            FrameStep::Check { len } => {
                payload.resize(len, 0);
                match rx.check(&payload) {
                    Ok(at) => {
                        writes.push((at, payload.clone()));
                        rx.on_written(&payload);
                    }
                    Err(e) => return (writes, Err(e)),
                }
            }
            FrameStep::Fail(e) => return (writes, Err(e)),
            FrameStep::Finish { written, crc } => return (writes, Ok((written, crc))),
        }
    }
}

fn stream_of(chunks: &[Chunk], no_crc: bool) -> Vec<u8> {
    let mut out = vec![];
    for c in chunks {
        out.extend_from_slice(&frame_header(c, no_crc));
        out.extend_from_slice(&c.data);
    }
    out
}

#[test]
fn frames_are_read_back() {
    let input: Vec<u8> = (0..200).map(|i| (i * 7) as u8).collect();
    let (chunks, _) = cut(&input, 33, 50);
    for no_crc in [false, true] {
        let stream = stream_of(&chunks, no_crc);
        for at_once in [1, 5, 16, 1000] {
            let (writes, end) = receive(&stream, no_crc, at_once);
            let crc = if no_crc { 0 } else { extend_stream_crc(false, 0, &input) };
            assert_eq!(end.unwrap(), (200, crc));
            let want: Vec<(u64, Vec<u8>)> =
                chunks.iter().map(|c| (c.offset, c.data.clone())).collect();
            assert_eq!(writes, want);
        }
    }
}

#[test]
fn an_empty_stream_is_clean() {
    let (writes, end) = receive(&[], false, 10);
    assert!(writes.is_empty());
    assert_eq!(end.unwrap(), (0, 0));
}

#[test]
fn a_cut_header_is_an_error() {
    let stream = stream_of(&[Chunk { offset: 0, data: vec![1, 2, 3] }], false);
    let (writes, end) = receive(&stream[..10], false, 4);
    assert!(writes.is_empty());
    let e = end.unwrap_err();
    assert!(matches!(e, FrameFail::TruncatedHeader { got: 10 }));
    assert_eq!(e.reason(), "truncated frame header (10 bytes)");
    assert!(e.reported());
}

#[test]
fn a_cut_payload_is_an_error() {
    let chunks = [
        Chunk { offset: 0, data: vec![9; 4] },
        Chunk { offset: 4, data: vec![1, 2, 3] },
    ];
    let stream = stream_of(&chunks, false);
    let (writes, end) = receive(&stream[..stream.len() - 1], false, 100);
    assert_eq!(writes, vec![(0, vec![9; 4])]);
    let e = end.unwrap_err();
    assert_eq!(e.reason(), "short frame payload: got 2/3");
    assert!(!e.reported());
}

#[test]
fn a_changed_payload_is_an_error() {
    let chunks = [
        Chunk { offset: 0, data: vec![9; 4] },
        Chunk { offset: 4, data: b"Hello world!".to_vec() },
        Chunk { offset: 16, data: vec![9; 4] },
    ];
    let mut stream = stream_of(&chunks, false);
    let at = 16 + 4 + 16;
    stream[at] = b'J';
    let (writes, end) = receive(&stream, false, 100);
    assert_eq!(writes, vec![(0, vec![9; 4])]);
    let e = end.unwrap_err();
    let text = e.reason();
    assert!(text.starts_with("crc mismatch stream 3 @off 4 len 12: got 0x"), "{text}");
    assert!(text.ends_with(" want 0x7b98e751"), "{text}");
    assert!(e.reported());
    let (writes, end) = receive(&stream, true, 100);
    assert_eq!(writes.len(), 3);
    assert_eq!(end.unwrap(), (20, 0));
}

#[test]
fn the_crc_of_a_stream_of_frames_is_that_of_its_payloads() {
    let chunks = [
        Chunk { offset: 6, data: b"Hello ".to_vec() },
        Chunk { offset: 40, data: vec![] },
        Chunk { offset: 0, data: b"world!".to_vec() },
    ];
    let (writes, end) = receive(&stream_of(&chunks, false), false, 3);
    assert_eq!(writes.len(), 3);
    assert_eq!(end.unwrap(), (12, 0x7B98E751));
    let (_, end) = receive(&stream_of(&chunks, true), true, 3);
    assert_eq!(end.unwrap(), (12, 0));
}

/// CRC32C, one bit at a time.
fn by_bits(crc: u32, data: &[u8]) -> u32 {
    let mut c = !crc;
    for b in data {
        c ^= *b as u32;
        for _ in 0..8 {
            c = if c % 2 == 0 { c / 2 } else { (c / 2) ^ POLYNOMIAL };
        }
    }
    !c
}

#[test]
fn crcs_are_divided_bit_by_bit() {
    let data: Vec<u8> = (0..60_000u32).map(|i| (i * 37 + i / 253) as u8).collect();
    for n in [0usize, 1, 7, 8, 9, 255, 1023, 1024, 6_143, 24_577, 60_000] {
        for start in [0u32, 1, 0xDEADBEEF, u32::MAX] {
            assert_eq!(extend_stream_crc(false, start, &data[..n]), by_bits(start, &data[..n]));
            assert_eq!(extend_stream_crc(true, start, &data[..n]), start);
        }
    }
}

#[test]
fn crcs_are_continued_piece_by_piece() {
    let data: Vec<u8> = (0..500u32).map(|i| (i * 7) as u8).collect();
    let whole = extend_stream_crc(false, 0, &data);
    for at in [0usize, 1, 250, 499, 500] {
        let first = extend_stream_crc(false, 0, &data[..at]);
        assert_eq!(extend_stream_crc(false, first, &data[at..]), whole);
    }
    assert_eq!(extend_stream_crc(false, 0, &[]), 0);
}
