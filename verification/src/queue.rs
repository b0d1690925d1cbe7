//! Bounded staging buffer for trade events.
//!
//! The underlying storage is crossbeam's `SegQueue`, an unbounded FIFO
//! queue; this module adds the bounded-capacity policy on top of it: a push
//! against a full buffer is rejected at once (shed-on-full), and a pop on an
//! empty buffer returns `None` at once. Neither operation ever blocks.

use vstd::prelude::*;
use vstd::string::StringExecFns;

use crate::keys::u64_to_string;
use crate::models::{Tick, TickV};
use crate::MdiError;

verus! {

#[verifier::external_type_specification]
#[verifier::external_body]
#[verifier::reject_recursive_types(T)]
pub struct ExSegQueue<T>(crossbeam::queue::SegQueue<T>);

/// The ticks held by a `SegQueue`, head first.
pub uninterp spec fn queue_ticks(q: crossbeam::queue::SegQueue<Tick>) -> Seq<TickV>;

/// Relies on `crossbeam::queue::SegQueue::new`: creates an empty queue.
#[verifier::external_body]
fn seg_new() -> (q: crossbeam::queue::SegQueue<Tick>)
    ensures
        queue_ticks(q) == Seq::<TickV>::empty(),
{
    crossbeam::queue::SegQueue::new()
}

/// Relies on `crossbeam::queue::SegQueue::push`: appends the element at the
/// tail of the queue.
#[verifier::external_body]
fn seg_push(q: &mut crossbeam::queue::SegQueue<Tick>, tick: Tick)
    ensures
        queue_ticks(*final(q)) == queue_ticks(*old(q)).push(tick@),
{
    q.push(tick);
}

/// Relies on `crossbeam::queue::SegQueue::pop`: removes and returns the head
/// element, or returns `None` when the queue is empty.
#[verifier::external_body]
fn seg_pop(q: &mut crossbeam::queue::SegQueue<Tick>) -> (r: Option<Tick>)
    ensures
        queue_ticks(*old(q)).len() == 0 ==> r is None && queue_ticks(*final(q)) == queue_ticks(
            *old(q),
        ),
        queue_ticks(*old(q)).len() > 0 ==> (r matches Some(t) && t@ == queue_ticks(*old(q))[0]
            && queue_ticks(*final(q)) == queue_ticks(*old(q)).drop_first()),
{
    q.pop()
}

/// Bounded staging buffer: FIFO order, fixed logical capacity, rejects
/// pushes while full, never blocks.
pub struct RingBuffer {
    queue: crossbeam::queue::SegQueue<Tick>,
    capacity: usize,
    size: usize,
}

impl View for RingBuffer {
    type V = Seq<TickV>;

    closed spec fn view(&self) -> Seq<TickV> {
        queue_ticks(self.queue)
    }
}

impl RingBuffer {
    /// The fixed logical capacity.
    pub closed spec fn cap(&self) -> usize {
        self.capacity
    }

    /// The size counter matches the queue contents and never exceeds the
    /// capacity.
    pub closed spec fn wf(&self) -> bool {
        &&& self.size == self@.len()
        &&& self.size <= self.capacity
    }

    /// Create a buffer with the given logical capacity.
    pub fn new(capacity: usize) -> (r: RingBuffer)
        ensures
            r.wf(),
            r@ == Seq::<TickV>::empty(),
            r.cap() == capacity,
    {
        RingBuffer { queue: seg_new(), capacity, size: 0 }
    }

    /// Push a tick, rejecting it with `QueueError` when the buffer is full.
    /// A rejected tick is dropped by the caller by design: under overload
    /// the pipeline sheds load instead of blocking or growing without bound.
    pub fn push(&mut self, tick: Tick) -> (r: Result<(), MdiError>)
        requires
            old(self).wf(),
        ensures
            final(self).wf(),
            final(self).cap() == old(self).cap(),
            old(self)@.len() >= old(self).cap() ==> (r matches Err(MdiError::QueueError(_))
                && final(self)@ == old(self)@),
            old(self)@.len() < old(self).cap() ==> (r matches Ok(()) && final(self)@ == old(
                self,
            )@.push(tick@)),
    {
        if self.size >= self.capacity {
            let mut msg = String::from_str("RingBuffer full: ");
            let len_str = u64_to_string(self.size as u64);
            msg.append(len_str.as_str());
            msg.append("/");
            let cap_str = u64_to_string(self.capacity as u64);
            msg.append(cap_str.as_str());
            return Err(MdiError::QueueError(msg));
        }
        seg_push(&mut self.queue, tick);
        self.size = self.size + 1;
        Ok(())
    }

    /// Pop the oldest tick, or `None` when the buffer is empty.
    pub fn pop(&mut self) -> (r: Option<Tick>)
        requires
            old(self).wf(),
        ensures
            final(self).wf(),
            final(self).cap() == old(self).cap(),
            old(self)@.len() == 0 ==> r is None && final(self)@ == old(self)@,
            old(self)@.len() > 0 ==> (r matches Some(t) && t@ == old(self)@[0] && final(self)@
                == old(self)@.drop_first()),
    {
        let r = seg_pop(&mut self.queue);
        if r.is_some() {
            self.size = self.size - 1;
        }
        r
    }

    /// Pop up to `max_count` ticks, oldest first. Returns fewer when the
    /// buffer runs empty.
    pub fn pop_batch(&mut self, max_count: usize) -> (batch: Vec<Tick>)
        requires
            old(self).wf(),
        ensures
            final(self).wf(),
            final(self).cap() == old(self).cap(),
            batch@.len() == if max_count <= old(self)@.len() {
                max_count as int
            } else {
                old(self)@.len() as int
            },
            forall|i: int| 0 <= i < batch@.len() ==> batch@[i]@ == old(self)@[i],
            final(self)@ == old(self)@.skip(batch@.len() as int),
    {
        let mut batch: Vec<Tick> = Vec::new();
        let ghost start = self@;
        loop
            invariant
                self.wf(),
                self.cap() == old(self).cap(),
                batch@.len() <= max_count,
                batch@.len() <= start.len(),
                forall|i: int| 0 <= i < batch@.len() ==> batch@[i]@ == start[i],
                self@ == start.skip(batch@.len() as int),
            ensures
                self.wf(),
                self.cap() == old(self).cap(),
                batch@.len() <= max_count,
                batch@.len() <= start.len(),
                forall|i: int| 0 <= i < batch@.len() ==> batch@[i]@ == start[i],
                self@ == start.skip(batch@.len() as int),
                batch@.len() == max_count || batch@.len() == start.len(),
            decreases max_count - batch@.len(),
        {
            if batch.len() >= max_count {
                break ;
            }
            match self.pop() {
                Some(tick) => {
                    batch.push(tick);
                },
                None => {
                    proof {
                        assert(start.skip(batch@.len() as int).len() == 0);
                    }
                    break ;
                },
            }
        }
        batch
    }

    /// The current logical size.
    pub fn len(&self) -> (r: usize)
        requires
            self.wf(),
        ensures
            r == self@.len(),
    {
        self.size
    }

    /// Whether the buffer is empty.
    pub fn is_empty(&self) -> (r: bool)
        requires
            self.wf(),
        ensures
            r == (self@.len() == 0),
    {
        self.size == 0
    }

    /// Discard everything currently buffered.
    pub fn clear(&mut self)
        requires
            old(self).wf(),
        ensures
            final(self).wf(),
            final(self).cap() == old(self).cap(),
            final(self)@ == Seq::<TickV>::empty(),
    {
        loop
            invariant
                self.wf(),
                self.cap() == old(self).cap(),
            ensures
                self.wf(),
                self.cap() == old(self).cap(),
                self@.len() == 0,
            decreases self@.len(),
        {
            if self.pop().is_none() {
                break ;
            }
        }
        proof {
            assert(self@ =~= Seq::<TickV>::empty());
        }
    }

    /// The fixed logical capacity.
    pub fn capacity(&self) -> (r: usize)
        ensures
            r == self.cap(),
    {
        self.capacity
    }

    /// Current usage as a whole percentage of capacity, rounded down.
    pub fn usage_percent(&self) -> (r: u64)
        requires
            self.wf(),
            self.cap() >= 1,
        ensures
            r == self@.len() * 100 / (self.cap() as nat),
            r <= 100,
    {
        let r = (self.size as u128) * 100 / (self.capacity as u128);
        proof {
            assert(self@.len() * 100 / (self.cap() as nat) <= 100) by (nonlinear_arith)
                requires
                    self@.len() <= self.cap(),
                    self.cap() >= 1,
            ;
        }
        r as u64
    }
}

/// The result of popping a buffer holding `s` until it is empty: every
/// element exactly once, head first.
pub open spec fn drained(s: Seq<TickV>) -> Seq<TickV>
    decreases s.len(),
{
    if s.len() == 0 {
        Seq::empty()
    } else {
        seq![s[0]] + drained(s.drop_first())
    }
}

/// The buffer contents after pushing each element of `evs` in order onto a
/// buffer holding `q`.
pub open spec fn pushed_all(q: Seq<TickV>, evs: Seq<TickV>) -> Seq<TickV>
    decreases evs.len(),
{
    if evs.len() == 0 {
        q
    } else {
        pushed_all(q.push(evs[0]), evs.drop_first())
    }
}

/// For every sequence of pushes not exceeding the capacity, starting from an
/// empty buffer: each push finds the buffer below capacity (so, by `push`'s
/// contract, each is accepted), and popping until empty returns every pushed
/// event exactly once, in push order.
pub proof fn lemma_fifo_round_trip(evs: Seq<TickV>, capacity: nat)
    requires
        evs.len() <= capacity,
    ensures
        pushed_all(Seq::empty(), evs) == evs,
        forall|i: int|
            0 <= i < evs.len() ==> #[trigger] pushed_all(Seq::empty(), evs.take(i)).len()
                < capacity,
        drained(pushed_all(Seq::empty(), evs)) == evs,
{
    lemma_pushed_all(Seq::empty(), evs);
    assert(Seq::<TickV>::empty() + evs =~= evs);
    assert forall|i: int| 0 <= i < evs.len() implies #[trigger] pushed_all(
        Seq::empty(),
        evs.take(i),
    ).len() < capacity by {
        lemma_pushed_all(Seq::empty(), evs.take(i));
        assert(Seq::<TickV>::empty() + evs.take(i) =~= evs.take(i));
    }
    lemma_drained(evs);
}

proof fn lemma_pushed_all(q: Seq<TickV>, evs: Seq<TickV>)
    ensures
        pushed_all(q, evs) == q + evs,
    decreases evs.len(),
{
    if evs.len() == 0 {
        assert(q + evs =~= q);
    } else {
        lemma_pushed_all(q.push(evs[0]), evs.drop_first());
        assert(q.push(evs[0]) + evs.drop_first() =~= q + evs);
    }
}

proof fn lemma_drained(s: Seq<TickV>)
    ensures
        drained(s) == s,
    decreases s.len(),
{
    if s.len() == 0 {
        assert(drained(s) =~= s);
    } else {
        lemma_drained(s.drop_first());
        assert(seq![s[0]] + s.drop_first() =~= s);
    }
}

} // verus!
