//! Ready queues and the waker capability.
//!
//! Each executor owns one ready queue: an unordered sequence of task ids that
//! are runnable. A `Waker` is the capability to resume exactly one task on
//! exactly one queue: invoking it appends the task id to that queue, which is
//! what precedes unparking the owning thread, so a worker checking its queue
//! after any park boundary cannot miss the wake. A task id may be enqueued
//! more than once; duplicate wakes are harmless, because popping an id with
//! no matching task is skipped by the scheduler.

use vstd::prelude::*;

verus! {

/// All ready queues, indexed by the executor they belong to. The queues are
/// the one piece of scheduler state that wakers share across components.
pub struct ReadyQueues {
    pub queues: Vec<Vec<usize>>,
}

impl View for ReadyQueues {
    type V = Seq<Seq<usize>>;

    closed spec fn view(&self) -> Seq<Seq<usize>> {
        Seq::new(self.queues@.len(), |i: int| self.queues@[i]@)
    }
}

impl ReadyQueues {
    /// No queues yet.
    pub fn new() -> (r: ReadyQueues)
        ensures
            r@.len() == 0,
    {
        ReadyQueues { queues: Vec::new() }
    }

    /// Adds one empty queue and returns its index.
    pub fn add_queue(&mut self) -> (q: usize)
        ensures
            q == old(self)@.len(),
            final(self)@.len() == old(self)@.len() + 1,
            forall|i: int| 0 <= i < old(self)@.len() ==> final(self)@[i] == old(self)@[i],
            final(self)@[q as int].len() == 0,
    {
        let q = self.queues.len();
        self.queues.push(Vec::new());
        q
    }

    /// How many queues exist.
    pub fn count(&self) -> (n: usize)
        ensures
            n == self@.len(),
    {
        self.queues.len()
    }

    /// How many ids queue `q` holds.
    pub fn len_of(&self, q: usize) -> (n: usize)
        requires
            q < self@.len(),
        ensures
            n == self@[q as int].len(),
    {
        self.queues[q].len()
    }

    /// Appends task id `id` to queue `q`.
    pub fn push(&mut self, q: usize, id: usize)
        requires
            q < old(self)@.len(),
        ensures
            final(self)@ == old(self)@.update(q as int, old(self)@[q as int].push(id)),
    {
        let mut inner = self.queues.remove(q);
        inner.push(id);
        self.queues.insert(q, inner);
        proof {
            assert(final(self)@ =~= old(self)@.update(q as int, old(self)@[q as int].push(id)));
        }
    }

    /// Pops the most recently queued id from queue `q`, if any.
    pub fn pop(&mut self, q: usize) -> (r: Option<usize>)
        requires
            q < old(self)@.len(),
        ensures
            old(self)@[q as int].len() == 0 ==> r is None && final(self)@ == old(self)@,
            old(self)@[q as int].len() > 0 ==> {
                &&& r == Some(old(self)@[q as int].last())
                &&& final(self)@ == old(self)@.update(q as int, old(self)@[q as int].drop_last())
            },
    {
        let mut inner = self.queues.remove(q);
        let r = inner.pop();
        self.queues.insert(q, inner);
        proof {
            if old(self)@[q as int].len() == 0 {
                assert(final(self)@ =~= old(self)@);
            } else {
                assert(final(self)@ =~= old(self)@.update(
                    q as int,
                    old(self)@[q as int].drop_last(),
                ));
            }
        }
        r
    }
}

/// The capability to resume one task: the index of the ready queue of the
/// executor that owns the task, and the task's id there. Cloneable and
/// invocable from any component; the most recently stored waker for an
/// interest id is the one the reactor honours.
#[derive(Clone, Copy, PartialEq, Eq, Structural, Debug)]
pub struct Waker {
    pub queue: usize,
    pub task: usize,
}

impl Waker {
    /// Wakes the task: appends its id to its executor's ready queue. The
    /// enqueue happens before any unpark would, so the wake cannot be lost;
    /// waking twice before the task is polled merely queues a duplicate id,
    /// which the scheduler later skips.
    pub fn wake(&self, queues: &mut ReadyQueues)
        requires
            self.queue < old(queues)@.len(),
        ensures
            final(queues)@ == old(queues)@.update(
                self.queue as int,
                old(queues)@[self.queue as int].push(self.task),
            ),
    {
        queues.push(self.queue, self.task);
    }
}

} // verus!
