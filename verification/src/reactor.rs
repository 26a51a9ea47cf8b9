//! The reactor: the process-wide dispatcher from readiness to resumption.
//!
//! The reactor owns the poller, a table of pending wakers keyed by interest
//! id, and the interest-id generator. A leaf future that suspends registers
//! interest under a fresh id and stores its current waker; every time it is
//! polled again without becoming ready it stores the waker anew, because the
//! task may have moved and only the most recently supplied waker may be
//! honoured. One pass of the event loop (`step`) waits on the poller and, for
//! every delivered event whose token still has a table entry, consumes that
//! entry and invokes the waker; an absent entry — already deregistered, or
//! its wake already consumed — is a normal condition, not an error.

use vstd::prelude::*;

use crate::poll::{deliverable, remove_fd, watched, Event, OsResourceError, Poll, Watch};
use crate::waker::{ReadyQueues, Waker};

verus! {

/// One waker-table entry: the interest id and the waker to invoke when the
/// corresponding source becomes ready.
#[derive(Clone, Copy, PartialEq, Eq, Structural, Debug)]
pub struct WakerEntry {
    pub id: usize,
    pub waker: Waker,
}

/// The first table entry for `id`, if any.
pub open spec fn waker_lookup(ws: Seq<WakerEntry>, id: usize) -> Option<Waker>
    decreases ws.len(),
{
    if ws.len() == 0 {
        None
    } else if ws[0].id == id {
        Some(ws[0].waker)
    } else {
        waker_lookup(ws.skip(1), id)
    }
}

/// No interest id appears twice in the table.
pub open spec fn unique_ids(ws: Seq<WakerEntry>) -> bool {
    forall|i: int, j: int| 0 <= i < j < ws.len() ==> ws[i].id != ws[j].id
}

/// The table with every entry for `id` removed.
pub open spec fn waker_remove(ws: Seq<WakerEntry>, id: usize) -> Seq<WakerEntry>
    decreases ws.len(),
{
    if ws.len() == 0 {
        Seq::empty()
    } else if ws[0].id == id {
        waker_remove(ws.skip(1), id)
    } else {
        seq![ws[0]] + waker_remove(ws.skip(1), id)
    }
}

/// The table after storing `w` under `id`: any previous entry for `id` is
/// dropped, so only the most recently stored waker remains.
pub open spec fn table_add(ws: Seq<WakerEntry>, id: usize, w: Waker) -> Seq<WakerEntry> {
    waker_remove(ws, id).push(WakerEntry { id, waker: w })
}

/// Every waker in the table points at one of the `qn` existing ready queues.
pub open spec fn wakers_fit(ws: Seq<WakerEntry>, qn: nat) -> bool {
    forall|i: int| 0 <= i < ws.len() ==> (#[trigger] ws[i]).waker.queue < qn
}

/// What one event-loop pass does with the delivered events, front to back:
/// an event whose token has a table entry consumes the entry and appends the
/// waker's task id to the waker's queue; an event without an entry does
/// nothing. Returns the table and the queues afterwards.
pub open spec fn dispatch(ws: Seq<WakerEntry>, evs: Seq<Event>, qs: Seq<Seq<usize>>) -> (
    Seq<WakerEntry>,
    Seq<Seq<usize>>,
)
    decreases evs.len(),
{
    if evs.len() == 0 {
        (ws, qs)
    } else {
        let r = dispatch(ws, evs.drop_last(), qs);
        let e = evs.last();
        match waker_lookup(r.0, e.data) {
            Some(w) => (
                waker_remove(r.0, e.data),
                r.1.update(w.queue as int, r.1[w.queue as int].push(w.task)),
            ),
            None => r,
        }
    }
}

/// The reactor: the poller it waits on, the waker table, and the interest-id
/// generator. In the full design one reactor exists per process, published
/// once at startup; here the one instance lives inside the runtime handle.
pub struct Reactor {
    pub poller: Poll,
    pub wakers: Vec<WakerEntry>,
    pub next_interest: usize,
}

impl Reactor {
    /// The reactor is well formed when its poller is and no interest id has
    /// two table entries.
    pub open spec fn wf(&self) -> bool {
        &&& self.poller.wf()
        &&& unique_ids(self.wakers@)
    }

    /// The watch set of the owned poller.
    pub open spec fn watches(&self) -> Seq<Watch> {
        self.poller.registry.watches@
    }

    /// Starts a reactor: a fresh poller, an empty waker table, and interest
    /// ids beginning at one.
    pub fn start() -> (r: Result<Reactor, OsResourceError>)
        ensures
            r matches Ok(rc) && rc.wf() && rc.watches().len() == 0 && rc.poller.arrivals@.len()
                == 0 && rc.wakers@.len() == 0 && rc.next_interest == 1,
    {
        let poller = Poll::new()?;
        Ok(Reactor { poller, wakers: Vec::new(), next_interest: 1 })
    }

    /// Allocates a fresh interest id: process-unique and monotonically
    /// increasing, never reused while outstanding.
    pub fn next_id(&mut self) -> (id: usize)
        requires
            old(self).next_interest < usize::MAX,
        ensures
            id == old(self).next_interest,
            final(self).next_interest == old(self).next_interest + 1,
            final(self).poller == old(self).poller,
            final(self).wakers == old(self).wakers,
    {
        let id = self.next_interest;
        self.next_interest = self.next_interest + 1;
        id
    }

    /// Registers interest in `fd` with the poller, under `id` as the token.
    pub fn register(&mut self, fd: usize, interest: u32, id: usize) -> (r: Result<
        (),
        OsResourceError,
    >)
        requires
            old(self).wf(),
        ensures
            final(self).wf(),
            r is Ok <==> !watched(old(self).watches(), fd),
            r is Ok ==> final(self).watches() == old(self).watches().push(
                Watch { fd, token: id, interest },
            ),
            r is Err ==> final(self).watches() == old(self).watches(),
            final(self).poller.arrivals@ == old(self).poller.arrivals@,
            final(self).wakers == old(self).wakers,
            final(self).next_interest == old(self).next_interest,
    {
        self.poller.registry_mut().register(fd, id, interest)
    }

    /// Removes the waker-table entry for `id`, if present, and deregisters
    /// `fd` from the poller. A leaf future calls this exactly once, when it
    /// resolves or permanently fails, so that neither table grows without
    /// bound; an already-absent entry or watch is not an error.
    pub fn deregister(&mut self, fd: usize, id: usize)
        requires
            old(self).wf(),
        ensures
            final(self).wf(),
            final(self).wakers@ == waker_remove(old(self).wakers@, id),
            final(self).watches() == remove_fd(old(self).watches(), fd),
            final(self).poller.arrivals@ == old(self).poller.arrivals@,
            final(self).next_interest == old(self).next_interest,
    {
        self.remove_waker(id);
        let _ = self.poller.registry_mut().deregister(fd);
    }

    /// Stores `w` as the waker for `id`, replacing any previous entry:
    /// overwriting is expected and correct, because the task may have moved
    /// between polls and a stale waker must never be invoked.
    pub fn add_waker(&mut self, w: Waker, id: usize)
        requires
            old(self).wf(),
        ensures
            final(self).wf(),
            final(self).wakers@ == table_add(old(self).wakers@, id, w),
            waker_lookup(final(self).wakers@, id) == Some(w),
            final(self).poller == old(self).poller,
            final(self).next_interest == old(self).next_interest,
    {
        self.remove_waker(id);
        proof {
            lemma_remove_lookup_none(old(self).wakers@, id);
            lemma_lookup_push_last(waker_remove(old(self).wakers@, id), id, w);
            lemma_remove_membership(old(self).wakers@, id);
            let rem = waker_remove(old(self).wakers@, id);
            assert forall|a: int, b: int|
                0 <= a < b < rem.push(WakerEntry { id, waker: w }).len() implies rem.push(
                WakerEntry { id, waker: w },
            )[a].id != rem.push(WakerEntry { id, waker: w })[b].id by {
                if b < rem.len() {
                } else {
                    assert(rem.push(WakerEntry { id, waker: w })[a] == rem[a]);
                    lemma_lookup_present_of_member(rem, a);
                }
            }
        }
        self.wakers.push(WakerEntry { id, waker: w });
    }

    /// Looks up the stored waker for `id`.
    pub fn lookup_waker(&self, id: usize) -> (r: Option<Waker>)
        ensures
            r == waker_lookup(self.wakers@, id),
    {
        let n = self.wakers.len();
        let mut i: usize = 0;
        while i < n
            invariant
                i <= n,
                n == self.wakers@.len(),
                forall|j: int| 0 <= j < i ==> self.wakers@[j].id != id,
            decreases n - i,
        {
            if self.wakers[i].id == id {
                proof {
                    lemma_lookup_present(self.wakers@, id, i as int);
                }
                return Some(self.wakers[i].waker);
            }
            i += 1;
        }
        proof {
            lemma_lookup_absent(self.wakers@, id);
        }
        None
    }

    /// Drops the table entry for `id`, if any.
    fn remove_waker(&mut self, id: usize)
        requires
            old(self).wf(),
        ensures
            final(self).wf(),
            final(self).wakers@ == waker_remove(old(self).wakers@, id),
            final(self).poller == old(self).poller,
            final(self).next_interest == old(self).next_interest,
    {
        let ghost ws0 = self.wakers@;
        let n = self.wakers.len();
        let mut kept: Vec<WakerEntry> = Vec::new();
        let mut i: usize = 0;
        while i < n
            invariant
                i <= n,
                n == self.wakers@.len(),
                *self == *old(self),
                kept@ == waker_remove(self.wakers@.take(i as int), id),
            decreases n - i,
        {
            let e = self.wakers[i];
            proof {
                assert(self.wakers@.take(i + 1) =~= self.wakers@.take(i as int).push(e));
                lemma_waker_remove_push(self.wakers@.take(i as int), e, id);
            }
            if e.id != id {
                kept.push(e);
            }
            i += 1;
        }
        proof {
            assert(self.wakers@.take(n as int) =~= self.wakers@);
            lemma_remove_unique(ws0, id);
        }
        self.wakers = kept;
    }

    /// One pass of the event loop: wait on the poller, and for every
    /// delivered event resolve its token in the waker table; a hit consumes
    /// the entry and invokes the waker, a miss is silently skipped. Returns
    /// how many events were delivered.
    pub fn step(&mut self, queues: &mut ReadyQueues) -> (n: usize)
        requires
            old(self).wf(),
            wakers_fit(old(self).wakers@, old(queues)@.len()),
        ensures
            final(self).wf(),
            wakers_fit(final(self).wakers@, final(queues)@.len()),
            final(queues)@.len() == old(queues)@.len(),
            final(self).poller.registry == old(self).poller.registry,
            final(self).poller.arrivals@.len() == 0,
            final(self).next_interest == old(self).next_interest,
            ({
                let evs = deliverable(old(self).watches(), old(self).poller.arrivals@);
                let r = dispatch(old(self).wakers@, evs, old(queues)@);
                &&& final(self).wakers@ == r.0
                &&& final(queues)@ == r.1
                &&& n == evs.len()
            }),
    {
        let ghost evs = deliverable(old(self).watches(), old(self).poller.arrivals@);
        let mut events: Vec<Event> = Vec::new();
        let r = self.poller.poll(&mut events, Some(0));
        let n = events.len();
        let mut i: usize = 0;
        while i < n
            invariant
                i <= n,
                n == events@.len(),
                events@ == evs,
                self.wf(),
                wakers_fit(self.wakers@, queues@.len()),
                queues@.len() == old(queues)@.len(),
                self.poller.registry == old(self).poller.registry,
                self.poller.arrivals@.len() == 0,
                self.next_interest == old(self).next_interest,
                ({
                    let r = dispatch(old(self).wakers@, evs.take(i as int), old(queues)@);
                    self.wakers@ == r.0 && queues@ == r.1
                }),
            decreases n - i,
        {
            let ev = events[i];
            proof {
                assert(evs.take(i + 1).drop_last() =~= evs.take(i as int));
                assert(evs.take(i + 1).last() == ev);
            }
            match self.lookup_waker(ev.data) {
                Some(w) => {
                    let ghost pre = self.wakers@;
                    proof {
                        lemma_lookup_in(pre, ev.data);
                        let j = choose|j: int|
                            0 <= j < pre.len() && #[trigger] pre[j] == (WakerEntry {
                                id: ev.data,
                                waker: w,
                            });
                        assert(pre[j].waker.queue < queues@.len());
                    }
                    self.remove_waker(ev.data);
                    proof {
                        lemma_remove_membership(pre, ev.data);
                        assert forall|t: int| 0 <= t < self.wakers@.len() implies (
                        #[trigger] self.wakers@[t]).waker.queue < queues@.len() by {
                            let j = choose|j: int|
                                0 <= j < pre.len() && pre[j] == self.wakers@[t];
                            assert(pre[j].waker.queue < queues@.len());
                        }
                    }
                    w.wake(queues);
                },
                None => {},
            }
            i += 1;
        }
        proof {
            assert(evs.take(n as int) =~= evs);
        }
        n
    }
}

/// If the first `i` entries miss `id` and entry `i` matches it, the lookup
/// finds entry `i`.
proof fn lemma_lookup_present(ws: Seq<WakerEntry>, id: usize, i: int)
    requires
        0 <= i < ws.len(),
        ws[i].id == id,
        forall|j: int| 0 <= j < i ==> ws[j].id != id,
    ensures
        waker_lookup(ws, id) == Some(ws[i].waker),
    decreases i,
{
    if i > 0 {
        assert(forall|j: int| 0 <= j < ws.skip(1).len() ==> ws.skip(1)[j] == ws[j + 1]);
        lemma_lookup_present(ws.skip(1), id, i - 1);
    }
}

/// If no entry matches `id`, the lookup finds nothing.
proof fn lemma_lookup_absent(ws: Seq<WakerEntry>, id: usize)
    requires
        forall|j: int| 0 <= j < ws.len() ==> ws[j].id != id,
    ensures
        waker_lookup(ws, id) is None,
    decreases ws.len(),
{
    if ws.len() > 0 {
        assert(forall|j: int| 0 <= j < ws.skip(1).len() ==> ws.skip(1)[j] == ws[j + 1]);
        lemma_lookup_absent(ws.skip(1), id);
    }
}

/// A successful lookup names a waker that stands somewhere in the table.
proof fn lemma_lookup_in(ws: Seq<WakerEntry>, id: usize)
    requires
        waker_lookup(ws, id) is Some,
    ensures
        exists|i: int|
            0 <= i < ws.len() && #[trigger] ws[i] == (WakerEntry {
                id,
                waker: waker_lookup(ws, id)->Some_0,
            }),
    decreases ws.len(),
{
    if ws.len() > 0 {
        if ws[0].id == id {
            assert(ws[0] == WakerEntry { id, waker: waker_lookup(ws, id)->Some_0 });
        } else {
            lemma_lookup_in(ws.skip(1), id);
            let i = choose|i: int|
                0 <= i < ws.skip(1).len() && #[trigger] ws.skip(1)[i] == (WakerEntry {
                    id,
                    waker: waker_lookup(ws.skip(1), id)->Some_0,
                });
            assert(ws[i + 1] == WakerEntry { id, waker: waker_lookup(ws, id)->Some_0 });
        }
    }
}

/// An entry present in the table makes the lookup succeed.
proof fn lemma_lookup_present_of_member(ws: Seq<WakerEntry>, i: int)
    requires
        0 <= i < ws.len(),
    ensures
        waker_lookup(ws, ws[i].id) is Some,
    decreases i,
{
    if i > 0 && ws[0].id != ws[i].id {
        assert(ws.skip(1)[i - 1] == ws[i]);
        lemma_lookup_present_of_member(ws.skip(1), i - 1);
    }
}

/// How removal treats one appended entry.
proof fn lemma_waker_remove_push(ws: Seq<WakerEntry>, e: WakerEntry, id: usize)
    ensures
        e.id == id ==> waker_remove(ws.push(e), id) == waker_remove(ws, id),
        e.id != id ==> waker_remove(ws.push(e), id) == waker_remove(ws, id).push(e),
    decreases ws.len(),
{
    if ws.len() == 0 {
        assert(ws.push(e)[0] == e);
        assert(ws.push(e).skip(1) =~= ws);
        if e.id != id {
            assert(waker_remove(ws.push(e), id) =~= waker_remove(ws, id).push(e));
        }
    } else {
        assert(ws.push(e)[0] == ws[0]);
        assert(ws.push(e).skip(1) =~= ws.skip(1).push(e));
        lemma_waker_remove_push(ws.skip(1), e, id);
        if ws[0].id != id && e.id != id {
            assert(waker_remove(ws.push(e), id) =~= waker_remove(ws, id).push(e));
        }
    }
}

/// Removal keeps the table unique.
proof fn lemma_remove_unique(ws: Seq<WakerEntry>, id: usize)
    requires
        unique_ids(ws),
    ensures
        unique_ids(waker_remove(ws, id)),
    decreases ws.len(),
{
    if ws.len() > 0 {
        assert(forall|j: int| 0 <= j < ws.skip(1).len() ==> ws.skip(1)[j] == ws[j + 1]);
        lemma_remove_unique(ws.skip(1), id);
        if ws[0].id != id {
            lemma_remove_membership(ws.skip(1), id);
            let rest = waker_remove(ws.skip(1), id);
            assert forall|a: int, b: int|
                0 <= a < b < (seq![ws[0]] + rest).len() implies (seq![ws[0]] + rest)[a].id != (
            seq![ws[0]] + rest)[b].id by {
                if a == 0 {
                    let k = choose|k: int|
                        0 <= k < ws.skip(1).len() && ws.skip(1)[k] == #[trigger] rest[b - 1];
                    assert(ws[k + 1] == rest[b - 1]);
                }
            }
        }
    }
}

/// Every entry that removal keeps comes from the original table.
pub proof fn lemma_remove_membership(ws: Seq<WakerEntry>, id: usize)
    ensures
        forall|k: int|
            0 <= k < waker_remove(ws, id).len() ==> exists|j: int|
                0 <= j < ws.len() && ws[j] == #[trigger] waker_remove(ws, id)[k],
    decreases ws.len(),
{
    if ws.len() > 0 {
        lemma_remove_membership(ws.skip(1), id);
        let out = waker_remove(ws, id);
        let rest = waker_remove(ws.skip(1), id);
        assert forall|k: int| 0 <= k < out.len() implies exists|j: int|
            0 <= j < ws.len() && ws[j] == #[trigger] out[k] by {
            if ws[0].id == id {
                let j0 = choose|j: int|
                    0 <= j < ws.skip(1).len() && ws.skip(1)[j] == #[trigger] rest[k];
                assert(ws[j0 + 1] == out[k]);
            } else {
                if k == 0 {
                    assert(ws[0] == out[0]);
                } else {
                    let j0 = choose|j: int|
                        0 <= j < ws.skip(1).len() && ws.skip(1)[j] == #[trigger] rest[k - 1];
                    assert(ws[j0 + 1] == out[k]);
                }
            }
        }
    }
}

/// After removal, a lookup of the removed id fails.
proof fn lemma_remove_lookup_none(ws: Seq<WakerEntry>, id: usize)
    ensures
        waker_lookup(waker_remove(ws, id), id) is None,
    decreases ws.len(),
{
    if ws.len() > 0 {
        lemma_remove_lookup_none(ws.skip(1), id);
        if ws[0].id != id {
            let rest = waker_remove(ws.skip(1), id);
            assert((seq![ws[0]] + rest)[0] == ws[0]);
            assert((seq![ws[0]] + rest).skip(1) =~= rest);
        }
    }
}

/// Appending an entry for one id leaves lookups of every other id unchanged.
proof fn lemma_lookup_push_other(ws: Seq<WakerEntry>, e: WakerEntry, oid: usize)
    requires
        oid != e.id,
    ensures
        waker_lookup(ws.push(e), oid) == waker_lookup(ws, oid),
    decreases ws.len(),
{
    if ws.len() == 0 {
        assert(ws.push(e)[0] == e);
        assert(ws.push(e).skip(1) =~= ws);
    } else {
        assert(ws.push(e)[0] == ws[0]);
        assert(ws.push(e).skip(1) =~= ws.skip(1).push(e));
        lemma_lookup_push_other(ws.skip(1), e, oid);
    }
}

/// Removing one id leaves lookups of every other id unchanged.
proof fn lemma_remove_lookup_other(ws: Seq<WakerEntry>, id: usize, oid: usize)
    requires
        oid != id,
    ensures
        waker_lookup(waker_remove(ws, id), oid) == waker_lookup(ws, oid),
    decreases ws.len(),
{
    if ws.len() > 0 {
        lemma_remove_lookup_other(ws.skip(1), id, oid);
        if ws[0].id != id {
            let rest = waker_remove(ws.skip(1), id);
            assert((seq![ws[0]] + rest)[0] == ws[0]);
            assert((seq![ws[0]] + rest).skip(1) =~= rest);
        }
    }
}

/// Storing a waker under one id leaves lookups of every other id unchanged.
pub proof fn lemma_table_add_lookup_other(ws: Seq<WakerEntry>, id: usize, w: Waker, oid: usize)
    requires
        oid != id,
    ensures
        waker_lookup(table_add(ws, id, w), oid) == waker_lookup(ws, oid),
{
    lemma_remove_lookup_other(ws, id, oid);
    lemma_lookup_push_other(waker_remove(ws, id), WakerEntry { id, waker: w }, oid);
}

/// Dropping the entry for one id leaves lookups of every other id unchanged.
pub proof fn lemma_waker_remove_lookup_other(ws: Seq<WakerEntry>, id: usize, oid: usize)
    requires
        oid != id,
    ensures
        waker_lookup(waker_remove(ws, id), oid) == waker_lookup(ws, oid),
{
    lemma_remove_lookup_other(ws, id, oid);
}

/// If a table holds no entry for `id`, appending one makes lookups of `id`
/// find exactly it.
proof fn lemma_lookup_push_last(ws: Seq<WakerEntry>, id: usize, w: Waker)
    requires
        waker_lookup(ws, id) is None,
    ensures
        waker_lookup(ws.push(WakerEntry { id, waker: w }), id) == Some(w),
    decreases ws.len(),
{
    let e = WakerEntry { id, waker: w };
    if ws.len() == 0 {
        assert(ws.push(e)[0] == e);
    } else {
        assert(ws.push(e)[0] == ws[0]);
        assert(ws.push(e).skip(1) =~= ws.skip(1).push(e));
        lemma_lookup_push_last(ws.skip(1), id, w);
    }
}

/// Law: stale-waker suppression. Storing a waker for an id and then storing
/// another one, then delivering one event for that id, invokes only the
/// second waker: the table maps the id to the second waker alone, and the
/// dispatched pass pushes the second waker's task onto the second waker's
/// queue — the outcome does not depend on the first waker at all.
pub proof fn lemma_stale_waker_suppressed(
    ws: Seq<WakerEntry>,
    w1: Waker,
    w2: Waker,
    id: usize,
    qs: Seq<Seq<usize>>,
    bits: u32,
)
    requires
        w2.queue < qs.len(),
    ensures
        waker_lookup(table_add(table_add(ws, id, w1), id, w2), id) == Some(w2),
        dispatch(
            table_add(table_add(ws, id, w1), id, w2),
            seq![Event { events: bits, data: id }],
            qs,
        ) == (
            waker_remove(table_add(table_add(ws, id, w1), id, w2), id),
            qs.update(w2.queue as int, qs[w2.queue as int].push(w2.task)),
        ),
{
    let t1 = table_add(ws, id, w1);
    let t2 = table_add(t1, id, w2);
    lemma_remove_lookup_none(t1, id);
    lemma_lookup_push_last(waker_remove(t1, id), id, w2);
    let evs = seq![Event { events: bits, data: id }];
    assert(evs.drop_last() =~= Seq::<Event>::empty());
    assert(dispatch(t2, evs.drop_last(), qs) == (t2, qs));
    assert(evs.last() == Event { events: bits, data: id });
}

} // verus!
