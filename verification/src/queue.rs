//! The queue between the reader of the input and the streams of framed mode:
//! bounded, first in first out, and closed at the end of the input.
//!
//! The operations never wait. Where a caller has to, they say so, and the
//! caller tries again after the queue has changed.

use crate::framed::Chunk;
use std::collections::VecDeque;
use vstd::prelude::*;

verus! {

/// What a stream gets from the queue.
#[derive(Debug)]
pub enum Popped {
    Chunk(Chunk),
    /// Nothing is there yet.
    Wait,
    /// Nothing is there, and nothing will come.
    Closed,
}

/// The state of the queue.
pub struct QState {
    pub chunks: Seq<Chunk>,
    pub cap: usize,
    pub closed: bool,
}

impl QState {
    /// A push has to wait: the queue is full, and still open.
    pub open spec fn is_full(self) -> bool {
        self.chunks.len() >= self.cap && !self.closed
    }

    /// The queue with one more chunk at its end.
    pub open spec fn pushed(self, c: Chunk) -> QState {
        QState { chunks: self.chunks.push(c), ..self }
    }

    /// The queue without its first chunk.
    pub open spec fn popped(self) -> QState {
        QState { chunks: self.chunks.skip(1), ..self }
    }
}

pub struct BoundedQueue {
    buf: VecDeque<Chunk>,
    cap: usize,
    closed: bool,
}

impl View for BoundedQueue {
    type V = QState;

    closed spec fn view(&self) -> QState {
        QState { chunks: self.buf@, cap: self.cap, closed: self.closed }
    }
}

impl BoundedQueue {
    /// An empty, open queue for `cap` chunks.
    pub fn new(cap: usize) -> (q: BoundedQueue)
        ensures
            q@ == (QState { chunks: Seq::empty(), cap, closed: false }),
    {
        BoundedQueue { buf: VecDeque::new(), cap, closed: false }
    }

    /// Appends a chunk. Hands it back if the queue is full and the caller has
    /// to wait. Once the queue is closed there is always room.
    pub fn push(&mut self, c: Chunk) -> (r: Option<Chunk>)
        ensures
            old(self)@.is_full() ==> r == Some(c) && final(self)@ == old(self)@,
            !old(self)@.is_full() ==> r is None && final(self)@ == old(self)@.pushed(c),
            r is Some <==> old(self)@.chunks.len() >= old(self)@.cap && !old(self)@.closed,
            r is None ==> final(self)@.chunks == old(self)@.chunks.push(c),
            final(self)@.cap == old(self)@.cap,
            final(self)@.closed == old(self)@.closed,
    {
        if self.buf.len() >= self.cap && !self.closed {
            return Some(c);
        }
        self.buf.push_back(c);
        None
    }

    /// Takes the first chunk.
    pub fn pop(&mut self) -> (r: Popped)
        ensures
            old(self)@.chunks.len() > 0 ==> r == Popped::Chunk(old(self)@.chunks[0]) && final(self)@
                == old(self)@.popped(),
            old(self)@.chunks.len() > 0 ==> old(self)@.chunks == seq![
                old(self)@.chunks[0],
            ] + final(self)@.chunks,
            final(self)@.cap == old(self)@.cap,
            final(self)@.closed == old(self)@.closed,
            old(self)@.chunks.len() == 0 ==> final(self)@ == old(self)@ && r == if old(
                self,
            )@.closed {
                Popped::Closed
            } else {
                Popped::Wait
            },
    {
        match self.buf.pop_front() {
            Some(c) => {
                proof {
                    let was = old(self).buf@;
                    assert(was.subrange(1, was.len() as int) =~= was.skip(1));
                }
                Popped::Chunk(c)
            },
            None => if self.closed {
                Popped::Closed
            } else {
                Popped::Wait
            },
        }
    }

    /// Says that nothing more will come.
    pub fn close(&mut self)
        ensures
            final(self)@ == (QState { closed: true, ..old(self)@ }),
    {
        self.closed = true;
    }

    /// How many chunks are queued, and for how many there is room.
    pub fn snapshot(&self) -> (r: (usize, usize))
        ensures
            r.0 == self@.chunks.len(),
            r.1 == self@.cap,
    {
        (self.buf.len(), self.cap)
    }
}

/// The capacity for `streams` streams: two chunks for each, and at least four.
pub fn queue_capacity(streams: u32) -> (cap: usize)
    requires
        2 * streams <= usize::MAX,
    ensures
        cap == if 2 * streams > 4 {
            2 * streams
        } else {
            4
        },
{
    let twice: usize = (streams as usize) * 2;
    if twice > 4 {
        twice
    } else {
        4
    }
}

/// The queue after pushing all of `cs`.
pub open spec fn pushed_all(q: QState, cs: Seq<Chunk>) -> QState
    decreases cs.len(),
{
    if cs.len() == 0 {
        q
    } else {
        pushed_all(q, cs.drop_last()).pushed(cs.last())
    }
}

/// The queue after taking `n` chunks.
pub open spec fn popped_times(q: QState, n: nat) -> QState
    decreases n,
{
    if n == 0 {
        q
    } else {
        popped_times(q, (n - 1) as nat).popped()
    }
}

/// What goes in comes out, once, in the order in which it went in: after some
/// chunks have been pushed and `n` taken, what was there before, followed by
/// what was pushed, is still there but for its first `n`.
pub proof fn law_first_in_first_out(q: QState, cs: Seq<Chunk>, n: nat)
    requires
        n <= q.chunks.len() + cs.len(),
    ensures
        popped_times(pushed_all(q, cs), n).chunks == (q.chunks + cs).skip(n as int),
        popped_times(pushed_all(q, cs), n).cap == q.cap,
        popped_times(pushed_all(q, cs), n).closed == q.closed,
{
    lemma_pushed_all(q, cs);
    lemma_popped_times(pushed_all(q, cs), n);
}

proof fn lemma_pushed_all(q: QState, cs: Seq<Chunk>)
    ensures
        pushed_all(q, cs) == (QState { chunks: q.chunks + cs, ..q }),
    decreases cs.len(),
{
    if cs.len() == 0 {
        assert(q.chunks + cs =~= q.chunks);
    } else {
        lemma_pushed_all(q, cs.drop_last());
        assert((q.chunks + cs.drop_last()).push(cs.last()) =~= q.chunks + cs);
    }
}

proof fn lemma_popped_times(q: QState, n: nat)
    requires
        n <= q.chunks.len(),
    ensures
        popped_times(q, n) == (QState { chunks: q.chunks.skip(n as int), ..q }),
    decreases n,
{
    if n == 0 {
        assert(q.chunks.skip(0) =~= q.chunks);
    } else {
        lemma_popped_times(q, (n - 1) as nat);
        assert(q.chunks.skip(n - 1).skip(1) =~= q.chunks.skip(n as int));
    }
}

/// While it is open, a queue that holds no more than its capacity never comes
/// to hold more.
pub proof fn law_open_queue_is_bounded(q: QState, c: Chunk)
    requires
        !q.closed,
        q.chunks.len() <= q.cap,
    ensures
        !q.is_full() ==> q.pushed(c).chunks.len() <= q.cap,
        q.chunks.len() > 0 ==> q.popped().chunks.len() < q.cap,
{
}

/// A push waits only at a queue that is open and holds as many chunks as it has
/// room for; a pop always makes room.
pub proof fn law_waiting_ends(q: QState)
    requires
        q.chunks.len() <= q.cap,
    ensures
        q.is_full() <==> !q.closed && q.chunks.len() == q.cap,
        q.chunks.len() > 0 ==> !q.popped().is_full(),
{
}

} // verus!
