use dd_ng::framed::Chunk;
use dd_ng::queue::{queue_capacity, BoundedQueue, Popped};

fn chunk(offset: u64) -> Chunk {
    Chunk { offset, data: vec![offset as u8] }
}

fn take(q: &mut BoundedQueue) -> u64 {
    match q.pop() {
        Popped::Chunk(c) => c.offset,
        other => panic!("{other:?}"),
    }
}

#[test]
fn first_in_first_out() {
    let mut q = BoundedQueue::new(3);
    for i in 0..3 {
        assert!(q.push(chunk(i)).is_none());
    }
    assert_eq!(take(&mut q), 0);
    assert!(q.push(chunk(3)).is_none());
    for i in 1..4 {
        assert_eq!(take(&mut q), i);
    }
    assert!(matches!(q.pop(), Popped::Wait));
}

#[test]
fn a_full_queue_hands_the_chunk_back() {
    let mut q = BoundedQueue::new(1);
    assert!(q.push(chunk(0)).is_none());
    assert_eq!(q.push(chunk(9)).map(|c| c.offset), Some(9));
    assert_eq!(q.snapshot(), (1, 1));
    assert_eq!(take(&mut q), 0);
    assert_eq!(q.snapshot(), (0, 1));
}

#[test]
fn a_closed_queue_is_emptied() {
    let mut q = BoundedQueue::new(1);
    assert!(matches!(q.pop(), Popped::Wait));
    assert!(q.push(chunk(0)).is_none());
    q.close();
    assert!(q.push(chunk(1)).is_none());
    assert_eq!(take(&mut q), 0);
    assert_eq!(take(&mut q), 1);
    assert!(matches!(q.pop(), Popped::Closed));
}

#[test]
fn capacity_follows_the_streams() {
    assert_eq!(queue_capacity(0), 4);
    assert_eq!(queue_capacity(1), 4);
    assert_eq!(queue_capacity(2), 4);
    assert_eq!(queue_capacity(3), 6);
    assert_eq!(queue_capacity(8), 16);
}
