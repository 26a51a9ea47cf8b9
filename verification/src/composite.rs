//! Composite futures and the closed task type the scheduler polls.
//!
//! Composites suspend by propagation, never by blocking: when an inner leaf
//! reports `Pending`, the composite reports `Pending` in turn. The
//! sequential composite advances an explicit phase index, discarding each
//! finished leaf and allocating the next only after the previous one
//! resolved. The join-all composite holds an ordered collection of
//! (finished-flag, child) pairs and sweeps every unfinished child once per
//! poll — a child is never polled twice in one sweep and a finished child is
//! never polled again, so no child can starve another — and resolves only
//! once every child has resolved at least once. Dispatch over the variants
//! is a closed tagged union, which keeps every suspension point visible.

use vstd::prelude::*;

use crate::future::{clone_request, LeafFuture, LeafPoll, LeafState, Outcome, Request};
use crate::net::Fault;
use crate::reactor::{waker_lookup, WakerEntry};
use crate::runtime::Runtime;
use crate::waker::Waker;

verus! {

/// The result of polling a task: still suspended, or resolved with the
/// outcomes of all its leaf requests in request order.
#[derive(Debug)]
pub enum PollResult {
    Pending,
    Ready(Vec<Outcome>),
}

/// A phase that never connected: its endpoint refuses (or does not exist),
/// and its outcome is the connection-failure sentinel.
pub open spec fn refused_phase(rt: Runtime, host: usize, o: Outcome) -> bool {
    &&& !rt.net.accepts(host)
    &&& o == Outcome::ConnectionFailure
}

/// The outcome of finishing one suspended exchange on stream `fd`, given the
/// bytes `buf` accumulated so far: the stream is closed, and the outcome is
/// the remaining delivered bytes appended to `buf` under a clean close, or
/// the reset or timeout sentinel.
pub open spec fn exchange_outcome(rt: Runtime, fd: int, buf: Seq<u8>, o: Outcome) -> bool {
    let st = rt.net.streams@[fd];
    &&& st.closed
    &&& match rt.net.fault_of(fd) {
        Fault::Clean => o matches Outcome::Payload(p) && p@ == buf + rt.net.response_of(
            fd,
        ).subrange(st.read_pos as int, st.delivered as int),
        Fault::Reset => o == Outcome::ConnectionReset,
        Fault::TimedOut => o == Outcome::TimedOut,
    }
}

/// Rank of the sequential composite's inner phase, for termination: a phase
/// holding a leaf is closer to advancing than one about to allocate.
pub open spec fn phase_rank(current: Option<LeafFuture>) -> int {
    if current is Some {
        0
    } else {
        1
    }
}

/// A sequential composite: one leaf request after another, each phase
/// discarding the finished leaf and allocating the next.
pub struct SeqFuture {
    pub requests: Vec<Request>,
    pub index: usize,
    pub current: Option<LeafFuture>,
    pub collected: Vec<Outcome>,
    pub done: bool,
}

impl SeqFuture {
    /// Resolved composites must not be polled again.
    pub open spec fn resolved(&self) -> bool {
        self.done
    }

    /// Phase bookkeeping: the index never passes the request list, a live
    /// leaf belongs to the current phase and is itself sound and unresolved,
    /// and one outcome has been collected per finished phase.
    pub open spec fn wf(&self, rt: &Runtime) -> bool {
        &&& self.index <= self.requests@.len()
        &&& (self.current matches Some(l) ==> self.index < self.requests@.len() && l.wf(rt)
            && !l.resolved() && l.req.host == self.requests@[self.index as int].host
            && l.req.payload@ == self.requests@[self.index as int].payload@)
        &&& (self.done ==> self.current is None)
        &&& (!self.done ==> self.collected@.len() == self.index)
    }

    /// Whether the composite's live leaf holds interest id `oid`.
    pub open spec fn uses_id(&self, oid: usize) -> bool {
        match self.current {
            Some(l) => leaf_uses(l, oid),
            None => false,
        }
    }

    /// The interest id the next suspension of this composite concerns.
    pub open spec fn interest_id(&self, rt: &Runtime) -> usize {
        match self.current {
            Some(l) => l.interest_id(rt),
            None => rt.reactor.next_interest,
        }
    }

    /// What each outcome this poll collects for phase `k` must be: the
    /// resolution of the entry phase's suspended exchange, or the
    /// connection-failure sentinel of a phase whose endpoint refused — all
    /// judged against the state at entry, which only this poll's head
    /// exchange could concern.
    pub open spec fn phase_outcome_ok(self, rt: Runtime, k: int, o: Outcome) -> bool {
        match self.current {
            Some(l) => {
                if k == self.index {
                    match l.state {
                        LeafState::Waiting { fd, .. } => exchange_outcome(rt, fd as int, l.buf@, o),
                        _ => refused_phase(rt, self.requests@[k].host, o),
                    }
                } else {
                    refused_phase(rt, self.requests@[k].host, o)
                }
            },
            None => refused_phase(rt, self.requests@[k].host, o),
        }
    }

    /// How many fresh interest ids this composite can still allocate.
    pub open spec fn ids_needed(&self) -> nat {
        if self.done {
            0
        } else {
            match self.current {
                Some(l) => (self.requests@.len() - self.index - 1) as nat + l.ids_needed(),
                None => (self.requests@.len() - self.index) as nat,
            }
        }
    }

    /// Which streams this composite is entitled to touch.
    pub open spec fn owns(&self, j: int) -> bool {
        self.current matches Some(l) && l.owns(j)
    }

    /// A fresh sequential composite over `requests`, in its start phase.
    pub fn new(requests: Vec<Request>) -> (r: SeqFuture)
        ensures
            !r.resolved(),
            r.requests == requests,
            r.index == 0,
            r.current is None,
            r.collected@.len() == 0,
            r.done == false,
    {
        SeqFuture { requests, index: 0, current: None, collected: Vec::new(), done: false }
    }

    /// One poll: drive the current leaf; when it resolves, collect its
    /// outcome, discard it and allocate the next phase's leaf within the same
    /// poll, until a leaf suspends or every phase is finished.
    pub fn poll(&mut self, waker: &Waker, rt: &mut Runtime) -> (r: PollResult)
        requires
            old(rt).wf(),
            old(self).wf(old(rt)),
            !old(self).resolved(),
            waker.queue < old(rt).queues@.len(),
            old(rt).reactor.next_interest + old(self).ids_needed() <= usize::MAX,
        ensures
            final(rt).wf(),
            final(self).wf(final(rt)),
            final(self).requests == old(self).requests,
            r is Ready <==> final(self).resolved(),
            final(rt).queues == old(rt).queues,
            final(rt).net.scripts@ == old(rt).net.scripts@,
            final(rt).net.streams@.len() >= old(rt).net.streams@.len(),
            forall|j: int|
                0 <= j < old(rt).net.streams@.len() && !old(self).owns(j) ==> final(rt).net.streams@[j] == old(rt).net.streams@[j],
            final(rt).reactor.next_interest >= old(rt).reactor.next_interest,
            final(rt).reactor.next_interest + final(self).ids_needed() <= old(rt).reactor.next_interest + old(self).ids_needed(),
            final(rt).reactor.poller.arrivals@ == old(rt).reactor.poller.arrivals@,
            final(self).index >= old(self).index,
            r is Pending ==> old(self).collected@.is_prefix_of(final(self).collected@),
            r matches PollResult::Ready(outs) ==> outs@.len() == old(self).requests@.len() && old(self).collected@.is_prefix_of(outs@),
            r is Pending ==> (final(self).current matches Some(l) && l.state matches LeafState::Waiting { id, .. } && waker_lookup(final(rt).reactor.wakers@, id) == Some(*waker)),
            r is Ready ==> final(self).index == old(self).requests@.len(),
            r is Pending ==> forall|k: int|
                old(self).collected@.len() <= k < final(self).collected@.len() ==> old(
                    self,
                ).phase_outcome_ok(*old(rt), k, #[trigger] final(self).collected@[k]),
            r matches PollResult::Ready(outs) ==> forall|k: int|
                old(self).collected@.len() <= k < outs@.len() ==> old(self).phase_outcome_ok(
                    *old(rt),
                    k,
                    #[trigger] outs@[k],
                ),
            forall|oid: usize|
                oid < old(rt).reactor.next_interest && oid != old(self).interest_id(old(rt))
                    ==> #[trigger] waker_lookup(final(rt).reactor.wakers@, oid) == waker_lookup(
                    old(rt).reactor.wakers@,
                    oid,
                ),
            forall|oid: usize|
                #[trigger] final(self).uses_id(oid) ==> old(self).uses_id(oid) || oid >= old(
                    rt,
                ).reactor.next_interest,
    {
        loop
            invariant
                rt.wf(),
                old(rt).wf(),
                self.wf(rt),
                !self.done,
                self.requests == old(self).requests,
                self.index >= old(self).index,
                old(self).collected@.is_prefix_of(self.collected@),
                waker.queue < rt.queues@.len(),
                rt.queues == old(rt).queues,
                rt.net.scripts@ == old(rt).net.scripts@,
                rt.net.streams@.len() >= old(rt).net.streams@.len(),
                forall|j: int|
                    0 <= j < old(rt).net.streams@.len() && !old(self).owns(j)
                        ==> rt.net.streams@[j] == old(rt).net.streams@[j],
                self.current matches Some(l) ==> (forall|j: int|
                    l.owns(j) ==> old(self).owns(j) || j >= old(rt).net.streams@.len()),
                rt.reactor.next_interest >= old(rt).reactor.next_interest,
                rt.reactor.next_interest + self.ids_needed() <= old(rt).reactor.next_interest
                    + old(self).ids_needed(),
                old(rt).reactor.next_interest + old(self).ids_needed() <= usize::MAX,
                rt.reactor.poller.arrivals@ == old(rt).reactor.poller.arrivals@,
                old(self).current is Some && self.index == old(self).index ==> (self.current == old(
                    self,
                ).current && *rt == *old(rt) && self.collected@ == old(self).collected@),
                forall|oid: usize|
                    #[trigger] self.uses_id(oid) ==> old(self).uses_id(oid) || oid >= old(
                        rt,
                    ).reactor.next_interest,
                (self.current matches Some(l) && l.state matches LeafState::Waiting { .. }) ==> (
                old(self).current is Some && self.index == old(self).index),
                forall|k: int|
                    old(self).collected@.len() <= k < self.collected@.len() ==> old(
                        self,
                    ).phase_outcome_ok(*old(rt), k, #[trigger] self.collected@[k]),
                forall|oid: usize|
                    oid < old(rt).reactor.next_interest && oid != old(self).interest_id(old(rt))
                        ==> #[trigger] waker_lookup(rt.reactor.wakers@, oid) == waker_lookup(
                        old(rt).reactor.wakers@,
                        oid,
                    ),
            decreases self.requests@.len() - self.index, phase_rank(self.current),
        {
            let mut cur: Option<LeafFuture> = None;
            core::mem::swap(&mut cur, &mut self.current);
            match cur {
                Some(mut leaf) => {
                    let ghost leaf0 = leaf;
                    let ghost rt1 = *rt;
                    let ghost idx0 = self.index as int;
                    match leaf.poll(waker, rt) {
                        LeafPoll::Pending => {
                            self.current = Some(leaf);
                            proof {
                                assert forall|j: int|
                                    0 <= j < old(rt).net.streams@.len() && !old(self).owns(j)
                                        implies rt.net.streams@[j] == #[trigger] old(
                                    rt,
                                ).net.streams@[j] by {
                                    assert(!leaf0.owns(j));
                                    assert(rt1.net.streams@[j] == old(rt).net.streams@[j]);
                                }
                                assert forall|j: int| #[trigger] leaf.owns(j) implies old(
                                    self,
                                ).owns(j) || j >= old(rt).net.streams@.len() by {
                                    if !leaf0.owns(j) {
                                        assert(j >= rt1.net.streams@.len());
                                    }
                                }
                                assert forall|oid: usize|
                                    oid < old(rt).reactor.next_interest && oid != old(
                                        self,
                                    ).interest_id(old(rt)) implies #[trigger] waker_lookup(
                                    rt.reactor.wakers@,
                                    oid,
                                ) == waker_lookup(old(rt).reactor.wakers@, oid) by {
                                    assert(oid != leaf0.interest_id(&rt1));
                                    assert(waker_lookup(rt.reactor.wakers@, oid) == waker_lookup(
                                        rt1.reactor.wakers@,
                                        oid,
                                    ));
                                }
                            }
                            return PollResult::Pending;
                        },
                        LeafPoll::Ready(o) => {
                            proof {
                                assert(self.collected@.len() == idx0);
                                if leaf0.state is Start {
                                    assert(rt1.net.accepts(leaf0.req.host) == old(rt).net.accepts(
                                        leaf0.req.host,
                                    ));
                                }
                                assert(old(self).phase_outcome_ok(*old(rt), idx0, o));
                            }
                            self.collected.push(o);
                            let len = self.requests.len();
                            proof {
                                assert(self.index < len);
                                assert forall|j: int|
                                    0 <= j < old(rt).net.streams@.len() && !old(self).owns(j)
                                        implies rt.net.streams@[j] == #[trigger] old(
                                    rt,
                                ).net.streams@[j] by {
                                    assert(!leaf0.owns(j));
                                    assert(rt1.net.streams@[j] == old(rt).net.streams@[j]);
                                }
                                assert forall|oid: usize|
                                    oid < old(rt).reactor.next_interest && oid != old(
                                        self,
                                    ).interest_id(old(rt)) implies #[trigger] waker_lookup(
                                    rt.reactor.wakers@,
                                    oid,
                                ) == waker_lookup(old(rt).reactor.wakers@, oid) by {
                                    assert(oid != leaf0.interest_id(&rt1));
                                    assert(waker_lookup(rt.reactor.wakers@, oid) == waker_lookup(
                                        rt1.reactor.wakers@,
                                        oid,
                                    ));
                                }
                            }
                            self.index = self.index + 1;
                        },
                    }
                },
                None => {
                    if self.index == self.requests.len() {
                        self.done = true;
                        let mut outs: Vec<Outcome> = Vec::new();
                        core::mem::swap(&mut outs, &mut self.collected);
                        return PollResult::Ready(outs);
                    }
                    let req = clone_request(&self.requests[self.index]);
                    self.current = Some(LeafFuture::new(req));
                },
            }
        }
    }
}

/// Whether a leaf holds interest id `oid` for an outstanding suspension.
pub open spec fn leaf_uses(l: LeafFuture, oid: usize) -> bool {
    l.state matches LeafState::Waiting { id, .. } && id == oid
}

/// Whether position `k` of a child collection holds interest id `oid`.
pub open spec fn child_uses(cs: Seq<JoinChild>, k: int, oid: usize) -> bool {
    0 <= k < cs.len() && (cs[k].fut.state matches LeafState::Waiting { id, .. } && id == oid)
}

/// Whether any child of the collection holds interest id `oid`.
pub open spec fn children_use(cs: Seq<JoinChild>, oid: usize) -> bool {
    exists|k: int| #[trigger] child_uses(cs, k, oid)
}

/// Two leaves never share a stream or an interest id while both are
/// suspended: each connection and each registration is one future's own.
pub open spec fn leaves_distinct(x: LeafFuture, y: LeafFuture) -> bool {
    match (x.state, y.state) {
        (LeafState::Waiting { fd: fx, id: ix }, LeafState::Waiting { fd: fy, id: iy }) => fx != fy
            && ix != iy,
        _ => true,
    }
}

/// What one child must have resolved to, judged against the state at entry:
/// a suspended child finishes its exchange, an unconnected child's endpoint
/// refused.
pub open spec fn child_outcome_ok(l: LeafFuture, rt: Runtime, o: Outcome) -> bool {
    match l.state {
        LeafState::Waiting { fd, .. } => exchange_outcome(rt, fd as int, l.buf@, o),
        _ => refused_phase(rt, l.req.host, o),
    }
}

/// One child of a join-all: the leaf it drives and, once that leaf has
/// resolved, its outcome — the finished flag of the pair.
pub struct JoinChild {
    pub fut: LeafFuture,
    pub out: Option<Outcome>,
}

/// How many fresh interest ids the children can still allocate.
pub open spec fn sum_needed(cs: Seq<JoinChild>) -> nat
    decreases cs.len(),
{
    if cs.len() == 0 {
        0
    } else {
        sum_needed(cs.drop_last()) + cs.last().fut.ids_needed()
    }
}

/// Replacing one child changes the sum by exactly that child's share.
proof fn lemma_sum_needed_update(cs: Seq<JoinChild>, i: int, c: JoinChild)
    requires
        0 <= i < cs.len(),
    ensures
        sum_needed(cs.update(i, c)) + cs[i].fut.ids_needed() == sum_needed(cs)
            + c.fut.ids_needed(),
    decreases cs.len(),
{
    if i == cs.len() - 1 {
        assert(cs.update(i, c).drop_last() =~= cs.drop_last());
        assert(cs.update(i, c).last() == c);
    } else {
        assert(cs.update(i, c).drop_last() =~= cs.drop_last().update(i, c));
        assert(cs.update(i, c).last() == cs.last());
        lemma_sum_needed_update(cs.drop_last(), i, c);
    }
}

/// A join-all composite over leaf futures: resolves only once every child
/// has resolved at least once.
pub struct JoinFuture {
    pub children: Vec<JoinChild>,
    pub done: bool,
}

impl JoinFuture {
    /// Resolved composites must not be polled again.
    pub open spec fn resolved(&self) -> bool {
        self.done
    }

    /// While unresolved, each child's finished flag agrees with its leaf, and
    /// each leaf is sound against the runtime.
    pub open spec fn wf(&self, rt: &Runtime) -> bool {
        &&& (forall|k: int|
            0 <= k < self.children@.len() ==> (#[trigger] self.children@[k]).fut.wf(rt))
        &&& (!self.done ==> forall|k: int|
            0 <= k < self.children@.len() ==> ((#[trigger] self.children@[k]).out is Some
                <==> self.children@[k].fut.resolved()))
        &&& (forall|a: int, b: int|
            0 <= a < b < self.children@.len() ==> leaves_distinct(
                (#[trigger] self.children@[a]).fut,
                (#[trigger] self.children@[b]).fut,
            ))
    }

    /// Whether some child of this join holds interest id `oid`.
    pub open spec fn uses_id(&self, oid: usize) -> bool {
        children_use(self.children@, oid)
    }

    /// How many fresh interest ids this composite can still allocate.
    pub open spec fn ids_needed(&self) -> nat {
        sum_needed(self.children@)
    }

    /// Which streams this composite is entitled to touch.
    pub open spec fn owns(&self, j: int) -> bool {
        exists|k: int| 0 <= k < self.children@.len() && (#[trigger] self.children@[k]).fut.owns(j)
    }

    /// A fresh join-all over one leaf per request, none finished.
    pub fn new(requests: Vec<Request>) -> (r: JoinFuture)
        ensures
            !r.resolved(),
            r.children@.len() == requests@.len(),
            forall|k: int|
                0 <= k < requests@.len() ==> {
                    &&& (#[trigger] r.children@[k]).out is None
                    &&& r.children@[k].fut.state is Start
                    &&& r.children@[k].fut.buf@.len() == 0
                    &&& r.children@[k].fut.req.host == requests@[k].host
                    &&& r.children@[k].fut.req.payload@ == requests@[k].payload@
                },
    {
        let mut children: Vec<JoinChild> = Vec::new();
        let n = requests.len();
        let mut i: usize = 0;
        while i < n
            invariant
                i <= n,
                n == requests@.len(),
                children@.len() == i,
                forall|k: int|
                    0 <= k < i ==> {
                        &&& (#[trigger] children@[k]).out is None
                        &&& children@[k].fut.state is Start
                        &&& children@[k].fut.buf@.len() == 0
                        &&& children@[k].fut.req.host == requests@[k].host
                        &&& children@[k].fut.req.payload@ == requests@[k].payload@
                    },
            decreases n - i,
        {
            let req = clone_request(&requests[i]);
            children.push(JoinChild { fut: LeafFuture::new(req), out: None });
            i += 1;
        }
        JoinFuture { children, done: false }
    }

    /// One poll: sweep every unfinished child exactly once, marking those
    /// that resolved; finished children are left untouched — their leaves are
    /// never polled again. Resolves, with the outcomes in child order, if and
    /// only if after the sweep every child has resolved at least once.
    pub fn poll(&mut self, waker: &Waker, rt: &mut Runtime) -> (r: PollResult)
        requires
            old(rt).wf(),
            old(self).wf(old(rt)),
            !old(self).resolved(),
            waker.queue < old(rt).queues@.len(),
            old(rt).reactor.next_interest + old(self).ids_needed() <= usize::MAX,
        ensures
            final(rt).wf(),
            final(self).wf(final(rt)),
            r is Ready <==> final(self).resolved(),
            final(rt).queues == old(rt).queues,
            final(rt).net.scripts@ == old(rt).net.scripts@,
            final(rt).net.streams@.len() >= old(rt).net.streams@.len(),
            forall|j: int|
                0 <= j < old(rt).net.streams@.len() && !old(self).owns(j) ==> final(rt).net.streams@[j] == old(rt).net.streams@[j],
            final(rt).reactor.next_interest >= old(rt).reactor.next_interest,
            final(rt).reactor.next_interest + final(self).ids_needed() <= old(rt).reactor.next_interest + old(self).ids_needed(),
            final(rt).reactor.poller.arrivals@ == old(rt).reactor.poller.arrivals@,
            final(self).children@.len() == old(self).children@.len(),
            forall|k: int|
                0 <= k < old(self).children@.len() && old(self).children@[k].out is Some ==> (
                #[trigger] final(self).children@[k]).fut == old(self).children@[k].fut,
            r is Ready <==> (forall|k: int|
                0 <= k < final(self).children@.len() ==> (#[trigger] final(self).children@[k]).fut.resolved()),
            r matches PollResult::Ready(outs) ==> outs@.len() == old(self).children@.len(),
            r is Pending ==> forall|k: int|
                0 <= k < final(self).children@.len() && (#[trigger] final(self).children@[k]).out
                    is None ==> (final(self).children@[k].fut.state matches LeafState::Waiting {
                    id,
                    ..
                } && waker_lookup(final(rt).reactor.wakers@, id) == Some(*waker)),
            r is Pending ==> forall|k: int|
                0 <= k < final(self).children@.len() && old(self).children@[k].out is None ==> ((
                #[trigger] final(self).children@[k]).out matches Some(o) ==> child_outcome_ok(
                    old(self).children@[k].fut,
                    *old(rt),
                    o,
                )),
            r matches PollResult::Ready(outs) ==> forall|k: int|
                0 <= k < outs@.len() ==> {
                    &&& (old(self).children@[k].out matches Some(o) ==> #[trigger] outs@[k] == o)
                    &&& (old(self).children@[k].out is None ==> child_outcome_ok(
                        old(self).children@[k].fut,
                        *old(rt),
                        outs@[k],
                    ))
                },
            forall|oid: usize|
                oid < old(rt).reactor.next_interest && !old(self).uses_id(oid)
                    ==> #[trigger] waker_lookup(final(rt).reactor.wakers@, oid) == waker_lookup(
                    old(rt).reactor.wakers@,
                    oid,
                ),
            forall|oid: usize|
                #[trigger] final(self).uses_id(oid) ==> old(self).uses_id(oid) || oid >= old(
                    rt,
                ).reactor.next_interest,
    {
        let n = self.children.len();
        let mut i: usize = 0;
        while i < n
            invariant
                i <= n,
                n == self.children@.len(),
                n == old(self).children@.len(),
                rt.wf(),
                old(rt).wf(),
                !self.done,
                self.wf(rt),
                waker.queue < rt.queues@.len(),
                rt.queues == old(rt).queues,
                rt.net.scripts@ == old(rt).net.scripts@,
                rt.net.streams@.len() >= old(rt).net.streams@.len(),
                forall|j: int|
                    0 <= j < old(rt).net.streams@.len() && !old(self).owns(j)
                        ==> rt.net.streams@[j] == old(rt).net.streams@[j],
                forall|k: int, j: int|
                    0 <= k < n && #[trigger] self.children@[k].fut.owns(j) ==> old(self).owns(j)
                        || j >= old(rt).net.streams@.len(),
                rt.reactor.next_interest >= old(rt).reactor.next_interest,
                rt.reactor.next_interest + sum_needed(self.children@) <= old(rt).reactor.next_interest + old(self).ids_needed(),
                old(rt).reactor.next_interest + old(self).ids_needed() <= usize::MAX,
                rt.reactor.poller.arrivals@ == old(rt).reactor.poller.arrivals@,
                forall|k: int|
                    0 <= k < n && old(self).children@[k].out is Some ==> (
                    #[trigger] self.children@[k]) == old(self).children@[k],
                forall|t: int| i <= t < n ==> #[trigger] self.children@[t] == old(self).children@[t],
                forall|t: int|
                    0 <= t < i && old(self).children@[t].out is None ==> ((
                    #[trigger] self.children@[t]).out matches Some(o) ==> child_outcome_ok(
                        old(self).children@[t].fut,
                        *old(rt),
                        o,
                    )),
                forall|t: int|
                    0 <= t < i && (#[trigger] self.children@[t]).out is None ==> (
                    self.children@[t].fut.state matches LeafState::Waiting { id, .. }
                        && waker_lookup(rt.reactor.wakers@, id) == Some(*waker)),
                forall|t: int|
                    i <= t < n ==> ((#[trigger] self.children@[t]).fut.state
                        matches LeafState::Waiting { fd, .. } ==> rt.net.streams@[fd as int]
                        == old(rt).net.streams@[fd as int]),
                forall|oid: usize|
                    oid < old(rt).reactor.next_interest && !old(self).uses_id(oid)
                        ==> #[trigger] waker_lookup(rt.reactor.wakers@, oid) == waker_lookup(
                        old(rt).reactor.wakers@,
                        oid,
                    ),
                forall|oid: usize|
                    #[trigger] children_use(self.children@, oid) ==> children_use(
                        old(self).children@,
                        oid,
                    ) || oid >= old(rt).reactor.next_interest,
            decreases n - i,
        {
            if self.children[i].out.is_none() {
                let ghost cs0 = self.children@;
                let ghost rt0 = *rt;
                let mut c = self.children.remove(i);
                proof {
                    assert(cs0[i as int].fut.wf(rt));
                    assert(cs0[i as int].out is None);
                    lemma_sum_needed_split(cs0, i as int);
                }
                let lr = c.fut.poll(waker, rt);
                match lr {
                    LeafPoll::Pending => {},
                    LeafPoll::Ready(o) => {
                        c.out = Some(o);
                    },
                }
                self.children.insert(i, c);
                proof {
                    assert(self.children@ =~= cs0.update(i as int, self.children@[i as int]));
                    lemma_sum_needed_update(cs0, i as int, self.children@[i as int]);
                    assert forall|a: int, b: int| 0 <= a < b < n implies leaves_distinct(
                        (#[trigger] self.children@[a]).fut,
                        (#[trigger] self.children@[b]).fut,
                    ) by {
                        assert(leaves_distinct(cs0[a].fut, cs0[b].fut));
                        if a == i || b == i {
                            let t = if a == i {
                                b
                            } else {
                                a
                            };
                            assert(self.children@[t] == cs0[t]);
                            assert(cs0[t].fut.wf(&rt0));
                        } else {
                            assert(self.children@[a] == cs0[a]);
                            assert(self.children@[b] == cs0[b]);
                        }
                    }
                    assert forall|t: int| 0 <= t < n implies (
                    #[trigger] self.children@[t]).fut.wf(rt) by {
                        if t != i {
                            assert(self.children@[t] == cs0[t]);
                            assert(cs0[t].fut.wf(&rt0));
                        }
                    }
                    assert forall|t: int, j: int|
                        0 <= t < n && #[trigger] self.children@[t].fut.owns(j) implies old(
                        self,
                    ).owns(j) || j >= old(rt).net.streams@.len() by {
                        if t != i {
                            assert(cs0[t].fut.owns(j));
                        } else {
                            if !cs0[i as int].fut.owns(j) {
                                assert(j >= rt0.net.streams@.len());
                            }
                        }
                    }
                    assert forall|j: int|
                        0 <= j < old(rt).net.streams@.len() && !old(self).owns(j) implies
                        rt.net.streams@[j] == #[trigger] old(rt).net.streams@[j] by {
                        assert(!cs0[i as int].fut.owns(j));
                        assert(rt0.net.streams@[j] == old(rt).net.streams@[j]);
                    }
                    assert forall|t: int|
                        i + 1 <= t < n implies #[trigger] self.children@[t] == old(
                        self,
                    ).children@[t] by {
                        assert(self.children@[t] == cs0[t]);
                    }
                    assert(self.children@[i as int].out is None ==> lr is Pending);
                    assert forall|t: int|
                        0 <= t < i + 1 && (#[trigger] self.children@[t]).out is None implies (
                        self.children@[t].fut.state matches LeafState::Waiting { id, .. }
                            && waker_lookup(rt.reactor.wakers@, id) == Some(*waker)) by {
                        if t < i {
                            assert(self.children@[t] == cs0[t]);
                            assert(cs0[t].out is None);
                            assert(leaves_distinct(cs0[t].fut, cs0[i as int].fut));
                            assert(cs0[t].fut.wf(&rt0));
                        }
                    }
                    assert forall|t: int|
                        i + 1 <= t < n implies ((#[trigger] self.children@[t]).fut.state
                        matches LeafState::Waiting { fd, .. } ==> rt.net.streams@[fd as int]
                        == old(rt).net.streams@[fd as int]) by {
                        assert(self.children@[t] == cs0[t]);
                        match cs0[t].fut.state {
                            LeafState::Waiting { fd: fdt, .. } => {
                                assert(cs0[t].fut.wf(&rt0));
                                assert(leaves_distinct(cs0[i as int].fut, cs0[t].fut));
                                assert(!cs0[i as int].fut.owns(fdt as int));
                                assert(rt.net.streams@[fdt as int] == rt0.net.streams@[fdt as int]);
                                assert(rt0.net.streams@[fdt as int] == old(rt).net.streams@[fdt as int]);
                            },
                            _ => {},
                        }
                    }
                    assert forall|oid: usize|
                        oid < old(rt).reactor.next_interest && !old(self).uses_id(oid) implies
                        #[trigger] waker_lookup(rt.reactor.wakers@, oid) == waker_lookup(
                        old(rt).reactor.wakers@,
                        oid,
                    ) by {
                        assert(cs0[i as int] == old(self).children@[i as int]);
                        match cs0[i as int].fut.state {
                            LeafState::Waiting { id: iid, .. } => {
                                assert(child_uses(old(self).children@, i as int, iid));
                                assert(old(self).uses_id(iid));
                            },
                            _ => {},
                        }
                        assert(oid != cs0[i as int].fut.interest_id(&rt0));
                        assert(waker_lookup(rt0.reactor.wakers@, oid) == waker_lookup(
                            old(rt).reactor.wakers@,
                            oid,
                        ));
                    }
                    assert forall|oid: usize| #[trigger] children_use(self.children@, oid) implies
                        children_use(old(self).children@, oid) || oid >= old(
                        rt,
                    ).reactor.next_interest by {
                        let k = choose|k: int| #[trigger] child_uses(self.children@, k, oid);
                        if k != i {
                            assert(self.children@[k] == cs0[k]);
                            assert(child_uses(cs0, k, oid));
                            assert(children_use(cs0, oid));
                        } else {
                            if self.children@[k].fut.state == cs0[i as int].fut.state {
                                assert(child_uses(cs0, i as int, oid));
                                assert(children_use(cs0, oid));
                            } else {
                                assert(oid >= rt0.reactor.next_interest);
                            }
                        }
                    }
                }
            }
            i += 1;
        }
        let mut all = true;
        let mut j: usize = 0;
        while j < n
            invariant
                j <= n,
                n == self.children@.len(),
                all == (forall|k: int| 0 <= k < j ==> (#[trigger] self.children@[k]).out is Some),
            decreases n - j,
        {
            if self.children[j].out.is_none() {
                all = false;
            }
            j += 1;
        }
        if !all {
            return PollResult::Pending;
        }
        let ghost cs1 = self.children@;
        proof {
            assert forall|t: int| 0 <= t < n implies (#[trigger] cs1[t]).fut.resolved() by {
                assert(self.children@[t].out is Some);
            }
            assert forall|t: int| 0 <= t < n implies (#[trigger] cs1[t]).fut.wf(rt) by {
                assert(self.children@[t].fut.wf(rt));
            }
        }
        self.done = true;
        let mut outs: Vec<Outcome> = Vec::new();
        let mut k: usize = 0;
        while k < n
            invariant
                k <= n,
                n == self.children@.len(),
                outs@.len() == k,
                self.done,
                forall|t: int|
                    0 <= t < n ==> (#[trigger] self.children@[t]).fut == cs1[t].fut,
                forall|t: int| 0 <= t < n ==> (#[trigger] cs1[t]).out is Some,
                forall|t: int| k <= t < n ==> #[trigger] self.children@[t] == cs1[t],
                forall|t: int| 0 <= t < k ==> #[trigger] outs@[t] == cs1[t].out->Some_0,
            decreases n - k,
        {
            let ghost csk = self.children@;
            let mut c = self.children.remove(k);
            let mut taken: Option<Outcome> = None;
            core::mem::swap(&mut taken, &mut c.out);
            match taken {
                Some(o) => outs.push(o),
                None => {
                    vstd::pervasive::unreached::<()>();
                },
            }
            self.children.insert(k, c);
            proof {
                assert(self.children@ =~= csk.update(k as int, self.children@[k as int]));
            }
            k += 1;
        }
        proof {
            lemma_sum_needed_futs(self.children@, cs1);
            assert forall|t: int| 0 <= t < n implies {
                &&& (old(self).children@[t].out matches Some(o) ==> #[trigger] outs@[t] == o)
                &&& (old(self).children@[t].out is None ==> child_outcome_ok(
                    old(self).children@[t].fut,
                    *old(rt),
                    outs@[t],
                ))
            } by {
                if old(self).children@[t].out is Some {
                    assert(cs1[t] == old(self).children@[t]);
                }
            }
            assert forall|oid: usize| #[trigger] children_use(self.children@, oid) implies
                children_use(old(self).children@, oid) || oid >= old(
                rt,
            ).reactor.next_interest by {
                let k2 = choose|k2: int| #[trigger] child_uses(self.children@, k2, oid);
                assert(self.children@[k2].fut == cs1[k2].fut);
                assert(child_uses(cs1, k2, oid));
                assert(children_use(cs1, oid));
            }
        }
        PollResult::Ready(outs)
    }
}

/// Two collections whose leaves agree pointwise need the same ids.
proof fn lemma_sum_needed_futs(cs: Seq<JoinChild>, ds: Seq<JoinChild>)
    requires
        cs.len() == ds.len(),
        forall|t: int| 0 <= t < cs.len() ==> (#[trigger] cs[t]).fut == ds[t].fut,
    ensures
        sum_needed(cs) == sum_needed(ds),
    decreases cs.len(),
{
    if cs.len() > 0 {
        assert(forall|t: int|
            0 <= t < cs.drop_last().len() ==> (#[trigger] cs.drop_last()[t]).fut
                == ds.drop_last()[t].fut);
        lemma_sum_needed_futs(cs.drop_last(), ds.drop_last());
        assert(cs.last().fut == ds.last().fut);
    }
}

/// The share of one child within the sum, for splitting a sweep step.
proof fn lemma_sum_needed_split(cs: Seq<JoinChild>, i: int)
    requires
        0 <= i < cs.len(),
    ensures
        cs[i].fut.ids_needed() <= sum_needed(cs),
    decreases cs.len(),
{
    if i == cs.len() - 1 {
    } else {
        lemma_sum_needed_split(cs.drop_last(), i);
    }
}

/// Task soundness only bounds descriptors by the stream count, so it
/// survives any growth of the network: new connections never unsettle a
/// suspended task.
pub proof fn lemma_task_wf_monotone(t: &Task, rt1: &Runtime, rt2: &Runtime)
    requires
        t.wf(rt1),
        rt2.net.streams@.len() >= rt1.net.streams@.len(),
        rt2.reactor.next_interest >= rt1.reactor.next_interest,
    ensures
        t.wf(rt2),
{
    match t {
        Task::Leaf(l) => {},
        Task::Sequence(s) => {},
        Task::Join(j) => {
            assert forall|k: int| 0 <= k < j.children@.len() implies (
            #[trigger] j.children@[k]).fut.wf(rt2) by {
                assert(j.children@[k].fut.wf(rt1));
            }
        },
    }
}

/// A sound task only holds interest ids the generator has already issued.
pub proof fn lemma_task_uses_bound(t: Task, rt: &Runtime)
    requires
        t.wf(rt),
    ensures
        forall|oid: usize| #[trigger] t.uses_id(oid) ==> oid < rt.reactor.next_interest,
{
    match t {
        Task::Leaf(l) => {},
        Task::Sequence(s) => {},
        Task::Join(j) => {
            assert forall|oid: usize| #[trigger] t.uses_id(oid) implies oid
                < rt.reactor.next_interest by {
                let k = choose|k: int| #[trigger] child_uses(j.children@, k, oid);
                assert(j.children@[k].fut.wf(rt));
            }
        },
    }
}

/// A suspended task stays wired to its waker through any change to the
/// table that leaves its own issued ids untouched.
pub proof fn lemma_suspended_preserved(
    t: Task,
    ws1: Seq<WakerEntry>,
    ws2: Seq<WakerEntry>,
    w: Waker,
    ctr: usize,
)
    requires
        t.suspended_on(ws1, w),
        forall|oid: usize| #[trigger] t.uses_id(oid) ==> oid < ctr,
        forall|oid: usize|
            oid < ctr && t.uses_id(oid) ==> #[trigger] waker_lookup(ws2, oid) == waker_lookup(
                ws1,
                oid,
            ),
    ensures
        t.suspended_on(ws2, w),
{
    match t {
        Task::Leaf(l) => {
            match l.state {
                LeafState::Waiting { id, .. } => {
                    assert(leaf_uses(l, id));
                    assert(t.uses_id(id));
                },
                _ => {},
            }
        },
        Task::Sequence(s) => {
            match s.current {
                Some(l) => {
                    match l.state {
                        LeafState::Waiting { id, .. } => {
                            assert(leaf_uses(l, id));
                            assert(t.uses_id(id));
                        },
                        _ => {},
                    }
                },
                None => {},
            }
        },
        Task::Join(j) => {
            assert forall|k: int|
                0 <= k < j.children@.len() && (#[trigger] j.children@[k]).out is None implies (
            j.children@[k].fut.state matches LeafState::Waiting { id, .. } && waker_lookup(
                ws2,
                id,
            ) == Some(w)) by {
                match j.children@[k].fut.state {
                    LeafState::Waiting { id, .. } => {
                        assert(child_uses(j.children@, k, id));
                        assert(children_use(j.children@, id));
                        assert(t.uses_id(id));
                    },
                    _ => {},
                }
            }
        },
    }
}

/// The closed set of tasks the scheduler drives: a bare leaf, a sequential
/// composite, or a join-all. Tagged-union dispatch keeps the variant set and
/// every state machine explicit.
pub enum Task {
    Leaf(LeafFuture),
    Sequence(SeqFuture),
    Join(JoinFuture),
}

impl Task {
    /// Resolved tasks must not be polled again.
    pub open spec fn resolved(&self) -> bool {
        match self {
            Task::Leaf(l) => l.resolved(),
            Task::Sequence(s) => s.resolved(),
            Task::Join(j) => j.resolved(),
        }
    }

    /// Soundness of the underlying state machine against the runtime.
    pub open spec fn wf(&self, rt: &Runtime) -> bool {
        match self {
            Task::Leaf(l) => l.wf(rt),
            Task::Sequence(s) => s.wf(rt),
            Task::Join(j) => j.wf(rt),
        }
    }

    /// How many fresh interest ids the held state machine can still allocate.
    pub open spec fn ids_needed(&self) -> nat {
        match self {
            Task::Leaf(l) => l.ids_needed(),
            Task::Sequence(s) => s.ids_needed(),
            Task::Join(j) => j.ids_needed(),
        }
    }

    /// Whether the task holds interest id `oid` for some suspension.
    pub open spec fn uses_id(&self, oid: usize) -> bool {
        match self {
            Task::Leaf(l) => leaf_uses(*l, oid),
            Task::Sequence(s) => s.uses_id(oid),
            Task::Join(j) => j.uses_id(oid),
        }
    }

    /// How many outcomes the task resolves with: one per leaf request.
    pub open spec fn size(&self) -> nat {
        match self {
            Task::Leaf(l) => 1,
            Task::Sequence(s) => s.requests@.len(),
            Task::Join(j) => j.children@.len(),
        }
    }

    /// A genuinely suspended task, wired for resumption through `w`: every
    /// suspension it still owes is a registered leaf whose stored waker is
    /// exactly `w`. A task that was never driven to suspension does not
    /// qualify.
    pub open spec fn suspended_on(&self, ws: Seq<WakerEntry>, w: Waker) -> bool {
        match self {
            Task::Leaf(l) => l.state matches LeafState::Waiting { id, .. } && waker_lookup(ws, id)
                == Some(w),
            Task::Sequence(s) => s.current matches Some(l) && (
            l.state matches LeafState::Waiting { id, .. } && waker_lookup(ws, id) == Some(w)),
            Task::Join(j) => forall|k: int|
                0 <= k < j.children@.len() && (#[trigger] j.children@[k]).out is None ==> (
                j.children@[k].fut.state matches LeafState::Waiting { id, .. } && waker_lookup(
                    ws,
                    id,
                ) == Some(w)),
        }
    }

    /// One poll of whichever state machine the task holds. `Ready` is
    /// terminal: it coincides exactly with the task being resolved, and the
    /// contract forbids polling afterwards.
    pub fn poll(&mut self, waker: &Waker, rt: &mut Runtime) -> (r: PollResult)
        requires
            old(rt).wf(),
            old(self).wf(old(rt)),
            !old(self).resolved(),
            waker.queue < old(rt).queues@.len(),
            old(rt).reactor.next_interest + old(self).ids_needed() <= usize::MAX,
        ensures
            final(rt).wf(),
            final(self).wf(final(rt)),
            r is Ready <==> final(self).resolved(),
            final(rt).queues == old(rt).queues,
            final(rt).net.scripts@ == old(rt).net.scripts@,
            final(rt).net.streams@.len() >= old(rt).net.streams@.len(),
            final(rt).reactor.next_interest >= old(rt).reactor.next_interest,
            final(rt).reactor.next_interest + final(self).ids_needed() <= old(rt).reactor.next_interest + old(self).ids_needed(),
            r matches PollResult::Ready(outs) ==> outs@.len() == old(self).size(),
            r is Pending ==> final(self).suspended_on(final(rt).reactor.wakers@, *waker),
            forall|oid: usize|
                oid < old(rt).reactor.next_interest && !old(self).uses_id(oid)
                    ==> #[trigger] waker_lookup(final(rt).reactor.wakers@, oid) == waker_lookup(
                    old(rt).reactor.wakers@,
                    oid,
                ),
            forall|oid: usize|
                #[trigger] final(self).uses_id(oid) ==> old(self).uses_id(oid) || oid >= old(
                    rt,
                ).reactor.next_interest,
    {
        match self {
            Task::Leaf(l) => {
                match l.poll(waker, rt) {
                    LeafPoll::Pending => PollResult::Pending,
                    LeafPoll::Ready(o) => {
                        let mut outs: Vec<Outcome> = Vec::new();
                        outs.push(o);
                        PollResult::Ready(outs)
                    },
                }
            },
            Task::Sequence(s) => s.poll(waker, rt),
            Task::Join(j) => j.poll(waker, rt),
        }
    }
}

} // verus!
