//! Time-ordered collection of pending future activations, keyed by an
//! absolute timestamp on the free-running monotonic counter. Timestamps are
//! compared with wraparound-aware arithmetic: every entry is ordered by its
//! forward distance (modulo the counter width) from a base point that
//! advances to `now` each time due entries are popped, so activations remain
//! correctly ordered across counter wraparound. Ties in timestamp keep
//! insertion order.
use crate::QueueFull;
use vstd::prelude::*;

verus! {

/// One pending future activation: the task to run, its payload, and the
/// absolute counter value at which it becomes due.
#[derive(Clone, Copy)]
pub struct TimerEntry<P> {
    pub task: usize,
    pub payload: P,
    pub timestamp: u64,
}

/// Forward distance from `base` to `t` on the wrapping 64-bit counter:
/// `(t - base) mod 2^64`, as a mathematical integer in `[0, 2^64)`.
pub open spec fn wrap_dist(base: u64, t: u64) -> int {
    if t >= base {
        t - base
    } else {
        t - base + 0x1_0000_0000_0000_0000
    }
}

/// The number of leading entries of `s` whose timestamp lies no further
/// ahead of `base` than `ts` does; equivalently, the position at which an
/// entry with timestamp `ts` is inserted so that equal timestamps keep
/// insertion order.
pub open spec fn split_index<P>(s: Seq<TimerEntry<P>>, base: u64, ts: u64) -> int
    decreases s.len(),
{
    if s.len() == 0 {
        0
    } else if wrap_dist(base, s[0].timestamp) <= wrap_dist(base, ts) {
        1 + split_index(s.skip(1), base, ts)
    } else {
        0
    }
}

/// Everything before the split point is no further ahead than `ts`, and the
/// entry at the split point (when there is one) is strictly further ahead.
pub proof fn lemma_split_index<P>(s: Seq<TimerEntry<P>>, base: u64, ts: u64)
    ensures
        0 <= split_index(s, base, ts) <= s.len(),
        forall|i: int|
            0 <= i < split_index(s, base, ts) ==> wrap_dist(base, s[i].timestamp) <= wrap_dist(
                base,
                ts,
            ),
        split_index(s, base, ts) < s.len() ==> wrap_dist(
            base,
            s[split_index(s, base, ts)].timestamp,
        ) > wrap_dist(base, ts),
    decreases s.len(),
{
    if s.len() == 0 {
    } else if wrap_dist(base, s[0].timestamp) <= wrap_dist(base, ts) {
        lemma_split_index(s.skip(1), base, ts);
        assert forall|i: int| 0 <= i < split_index(s, base, ts) implies wrap_dist(
            base,
            s[i].timestamp,
        ) <= wrap_dist(base, ts) by {
            if i > 0 {
                assert(s.skip(1)[i - 1] == s[i]);
            }
        }
        if split_index(s, base, ts) < s.len() {
            assert(s.skip(1)[split_index(s, base, ts) - 1] == s[split_index(s, base, ts)]);
        }
    } else {
    }
}

/// The split point is the unique position `k` with everything before it no
/// further ahead than `ts` and the entry at it strictly further ahead.
pub proof fn lemma_split_index_unique<P>(s: Seq<TimerEntry<P>>, base: u64, ts: u64, k: int)
    requires
        0 <= k <= s.len(),
        forall|i: int| 0 <= i < k ==> wrap_dist(base, s[i].timestamp) <= wrap_dist(base, ts),
        k < s.len() ==> wrap_dist(base, s[k].timestamp) > wrap_dist(base, ts),
    ensures
        k == split_index(s, base, ts),
    decreases s.len(),
{
    if s.len() == 0 {
    } else if k == 0 {
    } else {
        assert(wrap_dist(base, s[0].timestamp) <= wrap_dist(base, ts));
        assert forall|i: int| 0 <= i < k - 1 implies wrap_dist(
            base,
            s.skip(1)[i].timestamp,
        ) <= wrap_dist(base, ts) by {
            assert(s.skip(1)[i] == s[i + 1]);
        }
        if k - 1 < s.skip(1).len() {
            assert(s.skip(1)[k - 1] == s[k]);
        }
        lemma_split_index_unique(s.skip(1), base, ts, k - 1);
    }
}

/// Moving the base forward to `n` shifts every distance beyond `n` down by
/// the same amount, so the relative order of such timestamps is unchanged.
pub proof fn lemma_wrap_dist_rebase(b: u64, n: u64, x: u64)
    requires
        wrap_dist(b, x) >= wrap_dist(b, n),
    ensures
        wrap_dist(n, x) == wrap_dist(b, x) - wrap_dist(b, n),
{
}

/// An ordered, fixed-capacity queue of future activations. The view is the
/// sequence of entries in activation order (earliest first).
pub struct TimerQueue<P> {
    entries: Vec<TimerEntry<P>>,
    base: u64,
    capacity: usize,
}

impl<P> View for TimerQueue<P> {
    type V = Seq<TimerEntry<P>>;

    closed spec fn view(&self) -> Seq<TimerEntry<P>> {
        self.entries@
    }
}

/// `(t - base) mod 2^64` on machine integers.
fn wrap_sub(t: u64, base: u64) -> (d: u64)
    ensures
        d as int == wrap_dist(base, t),
{
    if t >= base {
        t - base
    } else {
        ((u64::MAX - base) + t) + 1
    }
}

impl<P> TimerQueue<P> {
    /// The base point of the wraparound order: the `now` of the most recent
    /// `pop_due`, or the counter's start value for a fresh queue.
    pub closed spec fn spec_base(&self) -> u64 {
        self.base
    }

    /// The capacity fixed at configuration time.
    pub closed spec fn spec_capacity(&self) -> nat {
        self.capacity as nat
    }

    /// Entries never exceed the capacity and are sorted by forward distance
    /// from the base.
    pub open spec fn wf(&self) -> bool {
        &&& self@.len() <= self.spec_capacity()
        &&& forall|i: int, j: int|
            0 <= i < j < self@.len() ==> wrap_dist(self.spec_base(), self@[i].timestamp)
                <= wrap_dist(self.spec_base(), self@[j].timestamp)
    }

    /// An empty queue with the given fixed capacity, based at counter
    /// value 0 (the monotonic counter starts there at initialization).
    pub fn new(capacity: usize) -> (q: Self)
        ensures
            q@ == Seq::<TimerEntry<P>>::empty(),
            q.spec_base() == 0,
            q.spec_capacity() == capacity,
            q.wf(),
    {
        TimerQueue { entries: Vec::new(), base: 0, capacity }
    }

    pub fn len(&self) -> (n: usize)
        ensures
            n == self@.len(),
    {
        self.entries.len()
    }

    pub fn capacity(&self) -> (c: usize)
        ensures
            c == self.spec_capacity(),
    {
        self.capacity
    }

    /// Inserts a future activation, keeping the queue ordered; among equal
    /// timestamps the new entry goes last (FIFO). Fails with `QueueFull`
    /// when the queue already holds `capacity` entries, leaving it
    /// unchanged.
    pub fn insert(&mut self, task: usize, payload: P, timestamp: u64) -> (r: Result<(), QueueFull>)
        requires
            old(self).wf(),
        ensures
            final(self).wf(),
            final(self).spec_base() == old(self).spec_base(),
            final(self).spec_capacity() == old(self).spec_capacity(),
            old(self)@.len() >= old(self).spec_capacity() ==> r is Err && final(self)@ == old(
                self,
            )@,
            old(self)@.len() < old(self).spec_capacity() ==> r is Ok && final(self)@ == old(
                self,
            )@.insert(
                split_index(old(self)@, old(self).spec_base(), timestamp),
                TimerEntry { task, payload, timestamp },
            ),
    {
        if self.entries.len() >= self.capacity {
            return Err(QueueFull);
        }
        let ghost s0 = self.entries@;
        let key = wrap_sub(timestamp, self.base);
        let mut idx: usize = 0;
        while idx < self.entries.len() && wrap_sub(self.entries[idx].timestamp, self.base) <= key
            invariant
                idx <= self.entries.len(),
                key as int == wrap_dist(self.base, timestamp),
                forall|i: int|
                    0 <= i < idx ==> wrap_dist(self.base, self.entries@[i].timestamp) <= wrap_dist(
                        self.base,
                        timestamp,
                    ),
            decreases self.entries.len() - idx,
        {
            idx = idx + 1;
        }
        proof {
            lemma_split_index_unique(self.entries@, self.base, timestamp, idx as int);
        }
        self.entries.insert(idx, TimerEntry { task, payload, timestamp });
        proof {
            let b = self.base;
            let e = TimerEntry { task, payload, timestamp };
            let k = idx as int;
            assert forall|i: int, j: int| 0 <= i < j < self.entries@.len() implies wrap_dist(
                b,
                self.entries@[i].timestamp,
            ) <= wrap_dist(b, self.entries@[j].timestamp) by {
                assert(self.entries@ == s0.insert(k, e));
                if i < k {
                    assert(self.entries@[i] == s0[i]);
                } else if i == k {
                    assert(self.entries@[i] == e);
                } else {
                    assert(self.entries@[i] == s0[i - 1]);
                }
                if j < k {
                    assert(self.entries@[j] == s0[j]);
                } else if j == k {
                    assert(self.entries@[j] == e);
                } else {
                    assert(self.entries@[j] == s0[j - 1]);
                }
                if i == k || j == k {
                    // the new entry sits below everything at or past the old
                    // split point and above everything before it
                    if j == k && i < k {
                    } else if i == k && j > k {
                        assert(wrap_dist(b, s0[j - 1].timestamp) > wrap_dist(b, timestamp));
                    }
                }
            }
        }
        Ok(())
    }

    /// Removes and returns every entry due at `now` (timestamp no further
    /// ahead of the old base than `now`), in activation order, and rebases
    /// the queue at `now`. Called by the dispatcher in the idle loop and
    /// after every task completion.
    pub fn pop_due(&mut self, now: u64) -> (due: Vec<TimerEntry<P>>)
        requires
            old(self).wf(),
        ensures
            final(self).wf(),
            final(self).spec_base() == now,
            final(self).spec_capacity() == old(self).spec_capacity(),
            due@ == old(self)@.take(split_index(old(self)@, old(self).spec_base(), now)),
            final(self)@ == old(self)@.skip(split_index(old(self)@, old(self).spec_base(), now)),
    {
        let ghost s0 = self.entries@;
        let ghost b0 = self.base;
        let key = wrap_sub(now, self.base);
        let mut due: Vec<TimerEntry<P>> = Vec::new();
        while self.entries.len() > 0 && wrap_sub(self.entries[0].timestamp, self.base) <= key
            invariant
                self.base == b0,
                self.capacity == old(self).capacity,
                key as int == wrap_dist(b0, now),
                due@.len() + self.entries@.len() == s0.len(),
                due@ == s0.take(due@.len() as int),
                self.entries@ == s0.skip(due@.len() as int),
                forall|i: int|
                    0 <= i < due@.len() ==> wrap_dist(b0, s0[i].timestamp) <= wrap_dist(b0, now),
            decreases self.entries.len(),
        {
            let ghost n = due@.len() as int;
            assert(self.entries@[0] == s0[n]);
            let e = self.entries.remove(0);
            due.push(e);
            proof {
                assert(due@ =~= s0.take(n + 1));
                assert(self.entries@ =~= s0.skip(n + 1));
            }
        }
        proof {
            let n = due@.len() as int;
            if n < s0.len() {
                assert(self.entries@[0] == s0[n]);
            }
            lemma_split_index_unique(s0, b0, now, n);
        }
        self.base = now;
        proof {
            let n = due@.len() as int;
            lemma_split_index(s0, b0, now);
            assert forall|i: int, j: int| 0 <= i < j < self.entries@.len() implies wrap_dist(
                now,
                self.entries@[i].timestamp,
            ) <= wrap_dist(now, self.entries@[j].timestamp) by {
                assert(self.entries@[i] == s0[n + i]);
                assert(self.entries@[j] == s0[n + j]);
                if n < s0.len() {
                    assert(wrap_dist(b0, s0[n].timestamp) > wrap_dist(b0, now));
                    assert(wrap_dist(b0, s0[n + i].timestamp) >= wrap_dist(b0, s0[n].timestamp));
                    assert(wrap_dist(b0, s0[n + j].timestamp) >= wrap_dist(b0, s0[n].timestamp));
                    lemma_wrap_dist_rebase(b0, now, s0[n + i].timestamp);
                    lemma_wrap_dist_rebase(b0, now, s0[n + j].timestamp);
                }
            }
        }
        due
    }
}

} // verus!
