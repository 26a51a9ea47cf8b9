//! The executor: a single-thread cooperative scheduler over one task table.
//!
//! Each executor owns a task table and one ready queue. `spawn` assigns a
//! fresh thread-local task id, stores the future and enqueues the id — a
//! freshly spawned task is always immediately runnable. `run` pops ids from
//! the ready queue: an id with no stored task is a stale or duplicate wake
//! and is skipped silently; otherwise the task is removed, polled with a
//! waker bound to this queue and this id, reported if it resolved, and
//! reinserted if it suspended — it is then expected to have arranged its own
//! wake-up before returning. `run` returns when its queue is empty: with
//! tasks still pending, that return is the park boundary, and the caller
//! re-enters after readiness has been delivered and dispatched; with an
//! empty table, all spawned work has resolved. Ids are processed in
//! last-in-first-out pop order; no completion order between tasks is
//! promised to callers.

use vstd::prelude::*;

use crate::composite::{
    lemma_suspended_preserved, lemma_task_uses_bound, lemma_task_wf_monotone, PollResult, Task,
};
use crate::reactor::{waker_lookup, WakerEntry};
use crate::future::Outcome;
use crate::runtime::Runtime;
use crate::waker::Waker;

verus! {

/// One task-table entry: the thread-locally unique task id and the stored
/// suspended task.
pub struct TaskEntry {
    pub id: usize,
    pub task: Task,
}

/// One reported completion: the resolved task's id and its outcomes.
pub struct TaskDone {
    pub id: usize,
    pub outcomes: Vec<Outcome>,
}

/// The first table entry for `id`, if any.
pub open spec fn task_lookup(ts: Seq<TaskEntry>, id: usize) -> Option<Task>
    decreases ts.len(),
{
    if ts.len() == 0 {
        None
    } else if ts[0].id == id {
        Some(ts[0].task)
    } else {
        task_lookup(ts.skip(1), id)
    }
}

/// No task id appears twice in the table.
pub open spec fn unique_task_ids(ts: Seq<TaskEntry>) -> bool {
    forall|i: int, j: int| 0 <= i < j < ts.len() ==> ts[i].id != ts[j].id
}

/// How many fresh interest ids the stored tasks can still allocate.
pub open spec fn sum_tasks(ts: Seq<TaskEntry>) -> nat
    decreases ts.len(),
{
    if ts.len() == 0 {
        0
    } else {
        sum_tasks(ts.drop_last()) + ts.last().task.ids_needed()
    }
}

/// A popped id with a stored task is never dropped on the floor: it has
/// either been reported resolved, or it is stored again, genuinely
/// suspended, wired to this run's waker for it.
pub open spec fn settled(
    ts_old: Seq<TaskEntry>,
    ts: Seq<TaskEntry>,
    ws: Seq<WakerEntry>,
    rs: Seq<TaskDone>,
    q: usize,
    id: usize,
) -> bool {
    task_lookup(ts_old, id) is Some ==> {
        ||| exists|x: int| 0 <= x < rs.len() && (#[trigger] rs[x]).id == id
        ||| (task_lookup(ts, id) matches Some(t) && t.suspended_on(ws, Waker { queue: q, task: id }))
    }
}

/// A successful lookup names a task that stands somewhere in the table.
proof fn lemma_task_lookup_in(ts: Seq<TaskEntry>, id: usize)
    requires
        task_lookup(ts, id) is Some,
    ensures
        exists|i: int|
            0 <= i < ts.len() && #[trigger] ts[i] == (TaskEntry {
                id,
                task: task_lookup(ts, id)->Some_0,
            }),
    decreases ts.len(),
{
    if ts.len() > 0 {
        if ts[0].id == id {
            assert(ts[0] == TaskEntry { id, task: task_lookup(ts, id)->Some_0 });
        } else {
            lemma_task_lookup_in(ts.skip(1), id);
            let i = choose|i: int|
                0 <= i < ts.skip(1).len() && #[trigger] ts.skip(1)[i] == (TaskEntry {
                    id,
                    task: task_lookup(ts.skip(1), id)->Some_0,
                });
            assert(ts[i + 1] == TaskEntry { id, task: task_lookup(ts, id)->Some_0 });
        }
    }
}

/// If the first `i` entries miss `id` and entry `i` matches it, the lookup
/// finds entry `i`.
proof fn lemma_task_lookup_present(ts: Seq<TaskEntry>, id: usize, i: int)
    requires
        0 <= i < ts.len(),
        ts[i].id == id,
        forall|j: int| 0 <= j < i ==> ts[j].id != id,
    ensures
        task_lookup(ts, id) == Some(ts[i].task),
    decreases i,
{
    if i > 0 {
        assert(forall|j: int| 0 <= j < ts.skip(1).len() ==> ts.skip(1)[j] == ts[j + 1]);
        lemma_task_lookup_present(ts.skip(1), id, i - 1);
    }
}

/// If no entry matches `id`, the lookup finds nothing.
proof fn lemma_task_lookup_absent(ts: Seq<TaskEntry>, id: usize)
    requires
        forall|j: int| 0 <= j < ts.len() ==> ts[j].id != id,
    ensures
        task_lookup(ts, id) is None,
    decreases ts.len(),
{
    if ts.len() > 0 {
        assert(forall|j: int| 0 <= j < ts.skip(1).len() ==> ts.skip(1)[j] == ts[j + 1]);
        lemma_task_lookup_absent(ts.skip(1), id);
    }
}

/// Dropping one entry of a unique table: the removed id is gone, every other
/// id resolves as before.
proof fn lemma_task_lookup_remove(ts: Seq<TaskEntry>, i: int, id: usize)
    requires
        unique_task_ids(ts),
        0 <= i < ts.len(),
        ts[i].id == id,
    ensures
        task_lookup(ts.remove(i), id) is None,
        forall|o: usize| o != id ==> task_lookup(ts.remove(i), o) == task_lookup(ts, o),
        unique_task_ids(ts.remove(i)),
    decreases ts.len(),
{
    assert forall|o: usize| o != id implies task_lookup(ts.remove(i), o) == task_lookup(
        ts,
        o,
    ) by {
        lemma_task_lookup_remove_one(ts, i, o);
    }
    assert forall|j: int| 0 <= j < ts.remove(i).len() implies ts.remove(i)[j].id != id by {
        if j < i {
            assert(ts.remove(i)[j] == ts[j]);
        } else {
            assert(ts.remove(i)[j] == ts[j + 1]);
        }
    }
    lemma_task_lookup_absent(ts.remove(i), id);
}

/// Removing any entry leaves lookups of other ids unchanged.
proof fn lemma_task_lookup_remove_one(ts: Seq<TaskEntry>, i: int, o: usize)
    requires
        0 <= i < ts.len(),
        ts[i].id != o,
    ensures
        task_lookup(ts.remove(i), o) == task_lookup(ts, o),
    decreases ts.len(),
{
    if i == 0 {
        assert(ts.remove(0) =~= ts.skip(1));
    } else {
        assert(ts.remove(i)[0] == ts[0]);
        if ts[0].id != o {
            assert(ts.remove(i).skip(1) =~= ts.skip(1).remove(i - 1));
            assert(forall|j: int| 0 <= j < ts.skip(1).len() ==> ts.skip(1)[j] == ts[j + 1]);
            lemma_task_lookup_remove_one(ts.skip(1), i - 1, o);
        }
    }
}

/// Appending an entry: its id becomes found if it was absent; other ids
/// resolve as before.
proof fn lemma_task_lookup_push(ts: Seq<TaskEntry>, e: TaskEntry, o: usize)
    ensures
        o != e.id ==> task_lookup(ts.push(e), o) == task_lookup(ts, o),
        o == e.id && task_lookup(ts, o) is None ==> task_lookup(ts.push(e), o) == Some(e.task),
    decreases ts.len(),
{
    if ts.len() == 0 {
        assert(ts.push(e)[0] == e);
        assert(ts.push(e).skip(1) =~= ts);
    } else {
        assert(ts.push(e)[0] == ts[0]);
        assert(ts.push(e).skip(1) =~= ts.skip(1).push(e));
        lemma_task_lookup_push(ts.skip(1), e, o);
    }
}

/// The sum over a table with one entry dropped.
proof fn lemma_sum_tasks_remove(ts: Seq<TaskEntry>, i: int)
    requires
        0 <= i < ts.len(),
    ensures
        sum_tasks(ts) == sum_tasks(ts.remove(i)) + ts[i].task.ids_needed(),
    decreases ts.len(),
{
    if i == ts.len() - 1 {
        assert(ts.remove(i) =~= ts.drop_last());
    } else {
        assert(ts.remove(i).drop_last() =~= ts.drop_last().remove(i));
        assert(ts.remove(i).last() == ts.last());
        lemma_sum_tasks_remove(ts.drop_last(), i);
    }
}

/// The sum over a table with one entry appended.
proof fn lemma_sum_tasks_push(ts: Seq<TaskEntry>, e: TaskEntry)
    ensures
        sum_tasks(ts.push(e)) == sum_tasks(ts) + e.task.ids_needed(),
{
    assert(ts.push(e).drop_last() =~= ts);
    assert(ts.push(e).last() == e);
}

/// One settled id stays settled across the poll of a different task: the
/// reports only grow, the stored value is untouched, and the suspended
/// wiring survives because the polled task can only have touched its own
/// issued ids.
proof fn lemma_settled_preserved(
    ts_old: Seq<TaskEntry>,
    ts_pop: Seq<TaskEntry>,
    ts_now: Seq<TaskEntry>,
    ws_pop: Seq<WakerEntry>,
    ws_now: Seq<WakerEntry>,
    rs_pop: Seq<TaskDone>,
    rs_now: Seq<TaskDone>,
    q: usize,
    id: usize,
    task0: Task,
    ctr: usize,
    id2: usize,
)
    requires
        settled(ts_old, ts_pop, ws_pop, rs_pop, q, id2),
        id2 != id,
        task_lookup(ts_now, id2) == task_lookup(ts_pop, id2),
        rs_pop.is_prefix_of(rs_now),
        forall|k: int, oid: usize|
            0 <= k < ts_pop.len() && #[trigger] ts_pop[k].task.uses_id(oid) ==> oid < ctr,
        forall|a: int, b: int, oid: usize|
            0 <= a < b < ts_pop.len() ==> !((#[trigger] ts_pop[a].task.uses_id(oid)) && (
            #[trigger] ts_pop[b].task.uses_id(oid))),
        unique_task_ids(ts_pop),
        exists|j: int| 0 <= j < ts_pop.len() && #[trigger] ts_pop[j] == (TaskEntry { id, task: task0 }),
        forall|oid: usize|
            oid < ctr && !task0.uses_id(oid) ==> #[trigger] waker_lookup(ws_now, oid)
                == waker_lookup(ws_pop, oid),
    ensures
        settled(ts_old, ts_now, ws_now, rs_now, q, id2),
{
    if task_lookup(ts_old, id2) is Some {
        if exists|x: int| 0 <= x < rs_pop.len() && (#[trigger] rs_pop[x]).id == id2 {
            let x = choose|x: int| 0 <= x < rs_pop.len() && (#[trigger] rs_pop[x]).id == id2;
            assert(rs_now[x].id == id2);
        } else {
            let ta = task_lookup(ts_pop, id2)->Some_0;
            lemma_task_lookup_in(ts_pop, id2);
            let ja = choose|j: int|
                0 <= j < ts_pop.len() && #[trigger] ts_pop[j] == (TaskEntry { id: id2, task: ta });
            let jb = choose|j: int|
                0 <= j < ts_pop.len() && #[trigger] ts_pop[j] == (TaskEntry { id, task: task0 });
            assert forall|oid: usize| oid < ctr && ta.uses_id(oid) implies #[trigger] waker_lookup(
                ws_now,
                oid,
            ) == waker_lookup(ws_pop, oid) by {
                if task0.uses_id(oid) {
                    if ja < jb {
                        assert(!(ts_pop[ja].task.uses_id(oid) && ts_pop[jb].task.uses_id(oid)));
                    } else {
                        assert(ja != jb);
                        assert(!(ts_pop[jb].task.uses_id(oid) && ts_pop[ja].task.uses_id(oid)));
                    }
                }
            }
            assert forall|oid: usize| #[trigger] ta.uses_id(oid) implies oid < ctr by {
                assert(ts_pop[ja].task.uses_id(oid));
            }
            lemma_suspended_preserved(
                ta,
                ws_pop,
                ws_now,
                Waker { queue: q, task: id2 },
                ctr,
            );
        }
    }
}

/// One cooperative scheduler: the index of its ready queue in the runtime,
/// its task table, and the generator of thread-locally unique task ids. One
/// executor is driven by one worker; only its ready queue is shared.
pub struct Executor {
    pub queue_id: usize,
    pub tasks: Vec<TaskEntry>,
    pub next_task: usize,
}

impl Executor {
    /// The executor owns an existing queue; stored tasks are sound,
    /// unresolved — resolved tasks are dropped, never reinserted — and filed
    /// under distinct ids below the id generator.
    pub open spec fn wf(&self, rt: &Runtime) -> bool {
        &&& self.queue_id < rt.queues@.len()
        &&& unique_task_ids(self.tasks@)
        &&& (forall|k: int|
            0 <= k < self.tasks@.len() ==> (#[trigger] self.tasks@[k]).task.wf(rt) && !self.tasks@[
                k
            ].task.resolved() && self.tasks@[k].id < self.next_task)
        &&& (forall|a: int, b: int, oid: usize|
            0 <= a < b < self.tasks@.len() ==> !((#[trigger] self.tasks@[a].task.uses_id(oid)) && (
            #[trigger] self.tasks@[b].task.uses_id(oid))))
    }

    /// A new executor: allocates its ready queue in the runtime, with an
    /// empty task table and task ids starting at zero.
    pub fn new(rt: &mut Runtime) -> (e: Executor)
        requires
            old(rt).wf(),
        ensures
            final(rt).wf(),
            e.wf(final(rt)),
            e.tasks@.len() == 0,
            e.next_task == 0,
            e.queue_id == old(rt).queues@.len(),
            final(rt).queues@.len() == old(rt).queues@.len() + 1,
            forall|i: int| 0 <= i < old(rt).queues@.len() ==> final(rt).queues@[i] == old(rt).queues@[i],
            final(rt).queues@[e.queue_id as int].len() == 0,
            final(rt).reactor == old(rt).reactor,
            final(rt).net == old(rt).net,
    {
        let queue_id = rt.new_queue();
        Executor { queue_id, tasks: Vec::new(), next_task: 0 }
    }

    /// How many tasks are stored.
    pub fn task_count(&self) -> (n: usize)
        ensures
            n == self.tasks@.len(),
    {
        self.tasks.len()
    }

    /// Stores `task` under a fresh thread-local task id and enqueues the id:
    /// a freshly spawned task is always immediately runnable.
    pub fn spawn(&mut self, rt: &mut Runtime, task: Task) -> (id: usize)
        requires
            old(rt).wf(),
            old(self).wf(old(rt)),
            task.wf(old(rt)),
            !task.resolved(),
            forall|oid: usize| !task.uses_id(oid),
            old(self).next_task < usize::MAX,
        ensures
            final(rt).wf(),
            final(self).wf(final(rt)),
            id == old(self).next_task,
            final(self).next_task == old(self).next_task + 1,
            final(self).queue_id == old(self).queue_id,
            final(self).tasks@ == old(self).tasks@.push(TaskEntry { id, task }),
            task_lookup(final(self).tasks@, id) == Some(task),
            final(rt).reactor == old(rt).reactor,
            final(rt).net == old(rt).net,
            final(rt).queues@ == old(rt).queues@.update(
                old(self).queue_id as int,
                old(rt).queues@[old(self).queue_id as int].push(id),
            ),
    {
        let id = self.next_task;
        self.next_task = self.next_task + 1;
        proof {
            let e = TaskEntry { id, task };
            assert forall|j: int| 0 <= j < self.tasks@.len() implies self.tasks@[j].id != id by {
                assert(self.tasks@[j].task.wf(rt));
            }
            lemma_task_lookup_absent(self.tasks@, id);
            lemma_task_lookup_push(self.tasks@, e, id);
            assert forall|a: int, b: int|
                0 <= a < b < self.tasks@.push(e).len() implies self.tasks@.push(e)[a].id
                != self.tasks@.push(e)[b].id by {
                if b < self.tasks@.len() {
                } else {
                    assert(self.tasks@.push(e)[a] == self.tasks@[a]);
                }
            }
        }
        self.tasks.push(TaskEntry { id, task });
        rt.queues.push(self.queue_id, id);
        id
    }

    /// Removes and returns the stored task for `id`, if any.
    fn remove_task(&mut self, id: usize) -> (r: Option<Task>)
        requires
            unique_task_ids(old(self).tasks@),
        ensures
            unique_task_ids(final(self).tasks@),
            final(self).queue_id == old(self).queue_id,
            final(self).next_task == old(self).next_task,
            r == task_lookup(old(self).tasks@, id),
            r is None ==> final(self).tasks@ == old(self).tasks@,
            r matches Some(t) ==> exists|j: int|
                0 <= j < old(self).tasks@.len() && old(self).tasks@[j] == (TaskEntry { id, task: t }),
            r is Some ==> {
                &&& task_lookup(final(self).tasks@, id) is None
                &&& (forall|o: usize|
                    o != id ==> task_lookup(final(self).tasks@, o) == task_lookup(
                        old(self).tasks@,
                        o,
                    ))
                &&& sum_tasks(old(self).tasks@) == sum_tasks(final(self).tasks@)
                    + r->Some_0.ids_needed()
                &&& final(self).tasks@.len() + 1 == old(self).tasks@.len()
                &&& (forall|k: int|
                    0 <= k < final(self).tasks@.len() ==> exists|j: int|
                        0 <= j < old(self).tasks@.len() && old(self).tasks@[j]
                            == #[trigger] final(self).tasks@[k])
            },
    {
        let n = self.tasks.len();
        let mut i: usize = 0;
        while i < n
            invariant
                i <= n,
                n == self.tasks@.len(),
                *self == *old(self),
                unique_task_ids(self.tasks@),
                forall|j: int| 0 <= j < i ==> self.tasks@[j].id != id,
            decreases n - i,
        {
            if self.tasks[i].id == id {
                proof {
                    lemma_task_lookup_present(self.tasks@, id, i as int);
                    lemma_task_lookup_remove(self.tasks@, i as int, id);
                    lemma_sum_tasks_remove(self.tasks@, i as int);
                    assert(self.tasks@[i as int] == (TaskEntry { id, task: self.tasks@[i as int].task }));
                    let ts = self.tasks@;
                    assert forall|k: int| 0 <= k < ts.remove(i as int).len() implies exists|j: int|
                        0 <= j < ts.len() && ts[j] == #[trigger] ts.remove(i as int)[k] by {
                        if k < i {
                            assert(ts[k] == ts.remove(i as int)[k]);
                        } else {
                            assert(ts[k + 1] == ts.remove(i as int)[k]);
                        }
                    }
                }
                let e = self.tasks.remove(i);
                return Some(e.task);
            }
            i += 1;
        }
        proof {
            lemma_task_lookup_absent(self.tasks@, id);
        }
        None
    }

    /// Runs until this executor's ready queue is empty: pop an id, skip it
    /// silently if no task is stored under it — a stale or duplicate wake —
    /// otherwise remove the task, poll it with a waker bound to this queue
    /// and id, report it if it resolved and reinsert it if it suspended.
    /// Returning with stored tasks left is the park boundary: every such
    /// task has arranged its own wake-up, and the caller re-enters once new
    /// readiness has been dispatched. The reported completions are exactly a
    /// subset of the stored tasks, each reported at most once; what is
    /// neither reported nor stored does not exist.
    pub fn run(&mut self, rt: &mut Runtime) -> (results: Vec<TaskDone>)
        requires
            old(rt).wf(),
            old(self).wf(old(rt)),
            old(rt).reactor.next_interest + sum_tasks(old(self).tasks@) <= usize::MAX,
        ensures
            final(rt).wf(),
            final(self).wf(final(rt)),
            final(self).queue_id == old(self).queue_id,
            final(self).next_task == old(self).next_task,
            final(rt).queues@.len() == old(rt).queues@.len(),
            final(rt).queues@[old(self).queue_id as int].len() == 0,
            forall|q: int|
                0 <= q < old(rt).queues@.len() && q != old(self).queue_id ==> final(rt).queues@[q] == old(rt).queues@[q],
            forall|i: int|
                0 <= i < results@.len() ==> task_lookup(
                    old(self).tasks@,
                    (#[trigger] results@[i]).id,
                ) is Some,
            forall|i: int, j: int|
                0 <= i < j < results@.len() ==> results@[i].id != results@[j].id,
            forall|i: int|
                0 <= i < results@.len() ==> task_lookup(
                    final(self).tasks@,
                    (#[trigger] results@[i]).id,
                ) is None,
            forall|id: usize|
                #[trigger] task_lookup(final(self).tasks@, id) is Some ==> task_lookup(
                    old(self).tasks@,
                    id,
                ) is Some,
            forall|id: usize|
                #[trigger] task_lookup(old(self).tasks@, id) is Some ==> task_lookup(
                    final(self).tasks@,
                    id,
                ) is Some || exists|i: int| 0 <= i < results@.len() && (#[trigger] results@[i]).id == id,
            old(self).tasks@.len() == results@.len() + final(self).tasks@.len(),
            forall|p: int|
                0 <= p < old(rt).queues@[old(self).queue_id as int].len() ==> settled(
                    old(self).tasks@,
                    final(self).tasks@,
                    final(rt).reactor.wakers@,
                    results@,
                    old(self).queue_id,
                    #[trigger] old(rt).queues@[old(self).queue_id as int][p],
                ),
    {
        let mut results: Vec<TaskDone> = Vec::new();
        let ghost qid = self.queue_id as int;
        while rt.queues.len_of(self.queue_id) > 0
            invariant
                rt.wf(),
                self.wf(rt),
                qid == self.queue_id as int,
                self.queue_id == old(self).queue_id,
                self.next_task == old(self).next_task,
                rt.queues@.len() == old(rt).queues@.len(),
                forall|q: int|
                    0 <= q < old(rt).queues@.len() && q != qid ==> rt.queues@[q] == old(rt).queues@[q],
                rt.reactor.next_interest + sum_tasks(self.tasks@) <= old(rt).reactor.next_interest + sum_tasks(old(self).tasks@),
                old(rt).reactor.next_interest + sum_tasks(old(self).tasks@) <= usize::MAX,
                rt.net.streams@.len() >= old(rt).net.streams@.len(),
                forall|i: int|
                    0 <= i < results@.len() ==> task_lookup(
                        old(self).tasks@,
                        (#[trigger] results@[i]).id,
                    ) is Some,
                forall|i: int, j: int|
                    0 <= i < j < results@.len() ==> results@[i].id != results@[j].id,
                forall|i: int|
                    0 <= i < results@.len() ==> task_lookup(
                        self.tasks@,
                        (#[trigger] results@[i]).id,
                    ) is None,
                forall|id: usize|
                    #[trigger] task_lookup(self.tasks@, id) is Some ==> task_lookup(
                        old(self).tasks@,
                        id,
                    ) is Some,
                forall|id: usize|
                    #[trigger] task_lookup(old(self).tasks@, id) is Some ==> task_lookup(
                        self.tasks@,
                        id,
                    ) is Some || exists|i: int|
                        0 <= i < results@.len() && (#[trigger] results@[i]).id == id,
                old(self).tasks@.len() == results@.len() + self.tasks@.len(),
                rt.queues@[qid].len() <= old(rt).queues@[qid].len(),
                rt.queues@[qid] == old(rt).queues@[qid].take(rt.queues@[qid].len() as int),
                forall|p: int|
                    rt.queues@[qid].len() <= p < old(rt).queues@[qid].len() ==> settled(
                        old(self).tasks@,
                        self.tasks@,
                        rt.reactor.wakers@,
                        results@,
                        old(self).queue_id,
                        #[trigger] old(rt).queues@[qid][p],
                    ),
            decreases rt.queues@[qid].len(),
        {
            let ghost m0 = rt.queues@[qid].len() as int;
            let popped = rt.queues.pop(self.queue_id);
            let id = match popped {
                Some(id) => id,
                None => vstd::pervasive::unreached(),
            };
            proof {
                assert(old(rt).queues@[qid].take(m0).drop_last() =~= old(rt).queues@[qid].take(
                    m0 - 1,
                ));
                assert(id == old(rt).queues@[qid][m0 - 1]);
            }
            let ghost ts_pop = self.tasks@;
            let ghost rt_before = *rt;
            let ghost rs_pop = results@;
            let removed = self.remove_task(id);
            let ghost ts_before = self.tasks@;
            match removed {
                None => {
                    proof {
                        assert forall|p: int|
                            rt.queues@[qid].len() <= p < old(rt).queues@[qid].len() implies settled(
                            old(self).tasks@,
                            self.tasks@,
                            rt.reactor.wakers@,
                            results@,
                            old(self).queue_id,
                            #[trigger] old(rt).queues@[qid][p],
                        ) by {
                            if p < m0 - 1 {
                                assert(settled(
                                    old(self).tasks@,
                                    ts_pop,
                                    rt_before.reactor.wakers@,
                                    rs_pop,
                                    old(self).queue_id,
                                    old(rt).queues@[qid][p],
                                ));
                            }
                        }
                    }
                },
                Some(mut task) => {
                    let ghost task0 = task;
                    let waker = Waker { queue: self.queue_id, task: id };
                    proof {
                        if id >= self.next_task {
                            assert forall|j: int|
                                0 <= j < ts_pop.len() implies ts_pop[j].id != id by {
                                assert(ts_pop[j].task.wf(&rt_before));
                            }
                            lemma_task_lookup_absent(ts_pop, id);
                        }
                        let j = choose|j: int|
                            0 <= j < ts_pop.len() && ts_pop[j] == (TaskEntry { id, task });
                        assert(ts_pop[j].task.wf(&rt_before));
                        assert forall|k: int, oid: usize|
                            0 <= k < ts_pop.len() && #[trigger] ts_pop[k].task.uses_id(
                                oid,
                            ) implies oid < rt_before.reactor.next_interest by {
                            lemma_task_uses_bound(ts_pop[k].task, &rt_before);
                        }
                    }
                    match task.poll(&waker, rt) {
                        PollResult::Pending => {
                            proof {
                                assert forall|k: int|
                                    0 <= k < self.tasks@.len() implies (
                                #[trigger] self.tasks@[k]).task.wf(rt) by {
                                    let j = choose|j: int|
                                        0 <= j < ts_before.len() && ts_before[j]
                                            == self.tasks@[k];
                                    lemma_task_wf_monotone(
                                        &ts_before[j].task,
                                        &rt_before,
                                        rt,
                                    );
                                }
                            }
                            self.add_task(id, task);
                            proof {
                                assert forall|o: usize|
                                    #[trigger] task_lookup(old(self).tasks@, o) is Some implies
                                    task_lookup(self.tasks@, o) is Some || exists|i: int|
                                        0 <= i < results@.len() && (#[trigger] results@[i]).id
                                            == o by {
                                    if o != id {
                                        assert(task_lookup(self.tasks@, o) == task_lookup(
                                            ts_pop,
                                            o,
                                        ));
                                    }
                                }
                                assert(rs_pop.is_prefix_of(results@));
                                assert forall|p: int|
                                    rt.queues@[qid].len() <= p < old(rt).queues@[qid].len()
                                        implies settled(
                                    old(self).tasks@,
                                    self.tasks@,
                                    rt.reactor.wakers@,
                                    results@,
                                    old(self).queue_id,
                                    #[trigger] old(rt).queues@[qid][p],
                                ) by {
                                    let id2 = old(rt).queues@[qid][p];
                                    if task_lookup(old(self).tasks@, id2) is Some && id2 != id {
                                        assert(settled(
                                            old(self).tasks@,
                                            ts_pop,
                                            rt_before.reactor.wakers@,
                                            rs_pop,
                                            old(self).queue_id,
                                            id2,
                                        ));
                                        lemma_settled_preserved(
                                            old(self).tasks@,
                                            ts_pop,
                                            self.tasks@,
                                            rt_before.reactor.wakers@,
                                            rt.reactor.wakers@,
                                            rs_pop,
                                            results@,
                                            old(self).queue_id,
                                            id,
                                            task0,
                                            rt_before.reactor.next_interest,
                                            id2,
                                        );
                                    }
                                }
                            }
                        },
                        PollResult::Ready(outs) => {
                            proof {
                                assert forall|k: int|
                                    0 <= k < self.tasks@.len() implies (
                                #[trigger] self.tasks@[k]).task.wf(rt) by {
                                    let j = choose|j: int|
                                        0 <= j < ts_before.len() && ts_before[j]
                                            == self.tasks@[k];
                                    lemma_task_wf_monotone(
                                        &ts_before[j].task,
                                        &rt_before,
                                        rt,
                                    );
                                }
                            }
                            results.push(TaskDone { id, outcomes: outs });
                            proof {
                                assert forall|o: usize|
                                    #[trigger] task_lookup(old(self).tasks@, o) is Some implies
                                    task_lookup(self.tasks@, o) is Some || exists|i: int|
                                        0 <= i < results@.len() && (#[trigger] results@[i]).id
                                            == o by {
                                    if o == id {
                                        assert(results@[rs_pop.len() as int].id == id);
                                    } else if task_lookup(ts_pop, o) is Some {
                                        assert(task_lookup(self.tasks@, o) == task_lookup(
                                            ts_pop,
                                            o,
                                        ));
                                    } else {
                                        let i = choose|i: int|
                                            0 <= i < rs_pop.len() && (#[trigger] rs_pop[i]).id
                                                == o;
                                        assert(results@[i].id == o);
                                    }
                                }
                                assert forall|i: int|
                                    0 <= i < results@.len() implies task_lookup(
                                    self.tasks@,
                                    (#[trigger] results@[i]).id,
                                ) is None by {
                                    if i < rs_pop.len() {
                                        assert(task_lookup(self.tasks@, rs_pop[i].id)
                                            == task_lookup(ts_pop, rs_pop[i].id));
                                    }
                                }
                                assert(results@[rs_pop.len() as int].id == id);
                                assert(rs_pop.is_prefix_of(results@));
                                assert forall|p: int|
                                    rt.queues@[qid].len() <= p < old(rt).queues@[qid].len()
                                        implies settled(
                                    old(self).tasks@,
                                    self.tasks@,
                                    rt.reactor.wakers@,
                                    results@,
                                    old(self).queue_id,
                                    #[trigger] old(rt).queues@[qid][p],
                                ) by {
                                    let id2 = old(rt).queues@[qid][p];
                                    if task_lookup(old(self).tasks@, id2) is Some && id2 != id {
                                        assert(settled(
                                            old(self).tasks@,
                                            ts_pop,
                                            rt_before.reactor.wakers@,
                                            rs_pop,
                                            old(self).queue_id,
                                            id2,
                                        ));
                                        lemma_settled_preserved(
                                            old(self).tasks@,
                                            ts_pop,
                                            self.tasks@,
                                            rt_before.reactor.wakers@,
                                            rt.reactor.wakers@,
                                            rs_pop,
                                            results@,
                                            old(self).queue_id,
                                            id,
                                            task0,
                                            rt_before.reactor.next_interest,
                                            id2,
                                        );
                                    }
                                }
                            }
                        },
                    }
                },
            }
        }
        results
    }

    /// Reinserts a suspended task under its id.
    fn add_task(&mut self, id: usize, task: Task)
        requires
            unique_task_ids(old(self).tasks@),
            task_lookup(old(self).tasks@, id) is None,
        ensures
            final(self).queue_id == old(self).queue_id,
            final(self).next_task == old(self).next_task,
            final(self).tasks@ == old(self).tasks@.push(TaskEntry { id, task }),
            unique_task_ids(final(self).tasks@),
            task_lookup(final(self).tasks@, id) == Some(task),
            forall|o: usize|
                o != id ==> task_lookup(final(self).tasks@, o) == task_lookup(
                    old(self).tasks@,
                    o,
                ),
            sum_tasks(final(self).tasks@) == sum_tasks(old(self).tasks@) + task.ids_needed(),
    {
        proof {
            let e = TaskEntry { id, task };
            lemma_task_lookup_push(self.tasks@, e, id);
            assert forall|o: usize| o != id implies task_lookup(self.tasks@.push(e), o)
                == task_lookup(self.tasks@, o) by {
                lemma_task_lookup_push(self.tasks@, e, o);
            }
            lemma_sum_tasks_push(self.tasks@, e);
            assert forall|j: int| 0 <= j < self.tasks@.len() implies self.tasks@[j].id != id by {
                if self.tasks@[j].id == id {
                    lemma_task_lookup_present(self.tasks@, id, j);
                }
            }
            assert forall|a: int, b: int|
                0 <= a < b < self.tasks@.push(e).len() implies self.tasks@.push(e)[a].id
                != self.tasks@.push(e)[b].id by {
                if b < self.tasks@.len() {
                } else {
                    assert(self.tasks@.push(e)[a] == self.tasks@[a]);
                }
            }
        }
        self.tasks.push(TaskEntry { id, task });
    }
}

} // verus!
