//! Bounded-capacity FIFO of pending activation payloads for one software
//! task. Producers are any task with spawn capability for the target, at any
//! priority; the single consumer is the dispatcher. The queue never exceeds
//! its declared capacity: excess enqueue attempts fail, they never block or
//! overwrite.
use crate::QueueFull;
use vstd::prelude::*;

verus! {

/// Fixed-capacity FIFO; the view is the sequence of queued payloads, oldest
/// first.
pub struct MessageQueue<P> {
    items: Vec<P>,
    capacity: usize,
}

impl<P> View for MessageQueue<P> {
    type V = Seq<P>;

    closed spec fn view(&self) -> Seq<P> {
        self.items@
    }
}

impl<P> MessageQueue<P> {
    /// The capacity fixed at configuration time.
    pub closed spec fn spec_capacity(&self) -> nat {
        self.capacity as nat
    }

    /// The queue never holds more entries than its capacity.
    pub open spec fn wf(&self) -> bool {
        self@.len() <= self.spec_capacity()
    }

    pub fn capacity(&self) -> (c: usize)
        ensures
            c == self.spec_capacity(),
    {
        self.capacity
    }

    /// An empty queue with the given fixed capacity.
    pub fn new(capacity: usize) -> (q: Self)
        ensures
            q@ == Seq::<P>::empty(),
            q.spec_capacity() == capacity,
            q.wf(),
    {
        MessageQueue { items: Vec::new(), capacity }
    }

    pub fn len(&self) -> (n: usize)
        ensures
            n == self@.len(),
    {
        self.items.len()
    }

    pub fn is_empty(&self) -> (b: bool)
        ensures
            b <==> self@.len() == 0,
    {
        self.items.len() == 0
    }

    /// Appends a payload, or fails with `QueueFull` when the queue already
    /// holds `capacity` entries; a failed call leaves the queue unchanged.
    pub fn enqueue(&mut self, p: P) -> (r: Result<(), QueueFull>)
        ensures
            final(self).spec_capacity() == old(self).spec_capacity(),
            old(self)@.len() >= old(self).spec_capacity() ==> r is Err && final(self)@ == old(
                self,
            )@,
            old(self)@.len() < old(self).spec_capacity() ==> r is Ok && final(self)@ == old(
                self,
            )@.push(p),
            old(self).wf() ==> final(self).wf(),
    {
        if self.items.len() < self.capacity {
            self.items.push(p);
            Ok(())
        } else {
            Err(QueueFull)
        }
    }

    /// Removes and returns the oldest entry; the dispatcher establishes
    /// non-emptiness through its pending-task bookkeeping before calling.
    pub fn dequeue(&mut self) -> (p: P)
        requires
            old(self)@.len() > 0,
        ensures
            final(self).spec_capacity() == old(self).spec_capacity(),
            p == old(self)@[0],
            final(self)@ == old(self)@.skip(1),
            old(self).wf() ==> final(self).wf(),
    {
        let p = self.items.remove(0);
        proof {
            assert(self.items@ =~= old(self)@.skip(1));
        }
        p
    }
}

} // verus!
