//! The leaf I/O future: one request/response exchange over one stream.
//!
//! A leaf future is an explicit suspend/resume state machine. On its first
//! poll it attempts the connection: a refusal resolves it immediately with a
//! failure value — connection failures are data, never propagated failures —
//! and touches neither the poller nor the waker table. On success it writes
//! the whole request, registers readable interest under a fresh interest id,
//! stores the current waker and reports `Pending`. On every later poll it
//! drains available bytes in a loop, as edge-triggered readiness demands:
//! a would-block re-stores the (possibly new) waker under the same id and
//! stays `Pending`; the end of the stream deregisters — exactly once — and
//! resolves with the accumulated payload, or with the reset or timeout value.
//! Polling a resolved future is a composition bug, which the contract rules
//! out; it is never a recoverable outcome.

use vstd::prelude::*;

use crate::net::{Fault, ReadStep};
use crate::poll::{remove_fd, watched, Watch, EDGE_TRIGGERED, READABLE};
use crate::poll::lemma_watched_member;
use crate::reactor::{table_add, waker_lookup, waker_remove};
use crate::reactor::{lemma_table_add_lookup_other, lemma_waker_remove_lookup_other};
use crate::runtime::Runtime;
use crate::waker::Waker;

verus! {

/// How many bytes one read attempt consumes at most.
pub const READ_CHUNK: usize = 4096;

/// What a leaf request resolves to: the payload read up to end-of-stream, or
/// one of the sentinel failure values, reported as data.
#[derive(Debug)]
pub enum Outcome {
    Payload(Vec<u8>),
    ConnectionFailure,
    ConnectionReset,
    TimedOut,
}

/// The result of polling a leaf future.
#[derive(Debug)]
pub enum LeafPoll {
    Pending,
    Ready(Outcome),
}

/// One request: the endpoint to reach and the fully formed request bytes to
/// write. Forming the bytes from path, protocol and headers is a
/// collaborator's concern; the runtime treats them as an opaque buffer.
pub struct Request {
    pub host: usize,
    pub payload: Vec<u8>,
}

/// Copies a request; a sequential composite hands each phase its own.
pub fn clone_request(r: &Request) -> (c: Request)
    ensures
        c.host == r.host,
        c.payload@ == r.payload@,
{
    let mut payload: Vec<u8> = Vec::new();
    let n = r.payload.len();
    let mut i: usize = 0;
    while i < n
        invariant
            i <= n,
            n == r.payload@.len(),
            payload@ == r.payload@.take(i as int),
        decreases n - i,
    {
        payload.push(r.payload[i]);
        proof {
            assert(r.payload@.take(i + 1) =~= r.payload@.take(i as int).push(r.payload@[i as int]));
        }
        i += 1;
    }
    proof {
        assert(r.payload@.take(n as int) =~= r.payload@);
    }
    Request { host: r.host, payload }
}

/// What one read attempt at the real I/O edge reports, reduced to the plain
/// facts the drain decision needs.
#[derive(Clone, Copy, PartialEq, Eq, Structural, Debug)]
pub enum ReadEvent {
    End,
    Data,
    WouldBlock,
    Failed,
}

/// What the drain does next with one read report.
#[derive(Clone, Copy, PartialEq, Eq, Structural, Debug)]
pub enum DrainAction {
    Finish,
    Continue,
    Suspend,
    Abort,
}

/// The decision rule of the edge-triggered drain — the same rule the leaf
/// future's verified read loop follows: a zero-byte read is the end of the
/// stream and finishes the exchange, data keeps draining, a would-block
/// suspends until the next readiness notification, and any other failure
/// aborts the exchange.
pub fn drain_decision(e: &ReadEvent) -> (a: DrainAction)
    ensures
        a == match *e {
            ReadEvent::End => DrainAction::Finish,
            ReadEvent::Data => DrainAction::Continue,
            ReadEvent::WouldBlock => DrainAction::Suspend,
            ReadEvent::Failed => DrainAction::Abort,
        },
{
    match e {
        ReadEvent::End => DrainAction::Finish,
        ReadEvent::Data => DrainAction::Continue,
        ReadEvent::WouldBlock => DrainAction::Suspend,
        ReadEvent::Failed => DrainAction::Abort,
    }
}

/// The phases of a leaf future: not yet connected, suspended on readable
/// interest, or resolved.
#[derive(Clone, Copy, PartialEq, Eq, Structural, Debug)]
pub enum LeafState {
    Start,
    Waiting { fd: usize, id: usize },
    Done,
}

/// A leaf I/O future. `buf` accumulates the response while the future is
/// suspended between polls.
pub struct LeafFuture {
    pub req: Request,
    pub buf: Vec<u8>,
    pub state: LeafState,
}

impl LeafFuture {
    /// Resolved futures must not be polled again.
    pub open spec fn resolved(&self) -> bool {
        self.state is Done
    }

    /// While suspended, the future's stream is open in the network model and
    /// its interest id has been issued; before connecting, nothing has been
    /// accumulated.
    pub open spec fn wf(&self, rt: &Runtime) -> bool {
        &&& (self.state matches LeafState::Waiting { fd, id } ==> fd < rt.net.streams@.len() && id
            < rt.reactor.next_interest)
        &&& (self.state is Start ==> self.buf@.len() == 0)
    }

    /// The interest id this future's next suspension concerns: the one it
    /// already holds, or the one the generator would issue it.
    pub open spec fn interest_id(&self, rt: &Runtime) -> usize {
        match self.state {
            LeafState::Waiting { id, .. } => id,
            _ => rt.reactor.next_interest,
        }
    }

    /// How many fresh interest ids this future can still allocate.
    pub open spec fn ids_needed(&self) -> nat {
        if self.state is Start {
            1
        } else {
            0
        }
    }

    /// Which stream this future is entitled to touch.
    pub open spec fn owns(&self, j: int) -> bool {
        self.state matches LeafState::Waiting { fd, .. } && j == fd
    }

    /// A fresh leaf future for `req`, not yet connected.
    pub fn new(req: Request) -> (r: LeafFuture)
        ensures
            r.state is Start,
            r.req == req,
            r.buf@.len() == 0,
    {
        LeafFuture { req, buf: Vec::new(), state: LeafState::Start }
    }

    /// One poll. The contract covers every phase: immediate resolution on a
    /// refused connection, suspension with registration on an accepted one,
    /// and the drain-read on resumption, ending in payload, reset or timeout.
    pub fn poll(&mut self, waker: &Waker, rt: &mut Runtime) -> (r: LeafPoll)
        requires
            old(rt).wf(),
            old(self).wf(old(rt)),
            !old(self).resolved(),
            waker.queue < old(rt).queues@.len(),
            old(rt).reactor.next_interest + old(self).ids_needed() <= usize::MAX,
        ensures
            final(rt).wf(),
            final(self).wf(final(rt)),
            final(self).req == old(self).req,
            r is Ready <==> final(self).resolved(),
            final(rt).queues == old(rt).queues,
            final(rt).net.scripts@ == old(rt).net.scripts@,
            final(rt).net.streams@.len() >= old(rt).net.streams@.len(),
            forall|j: int|
                0 <= j < old(rt).net.streams@.len() && !old(self).owns(j) ==> final(rt).net.streams@[j] == old(rt).net.streams@[j],
            final(rt).reactor.next_interest >= old(rt).reactor.next_interest,
            final(rt).reactor.next_interest + final(self).ids_needed() <= old(rt).reactor.next_interest + old(self).ids_needed(),
            final(rt).reactor.poller.arrivals@ == old(rt).reactor.poller.arrivals@,
            forall|j: int|
                #[trigger] final(self).owns(j) ==> old(self).owns(j) || j >= old(
                    rt,
                ).net.streams@.len(),
            r is Pending ==> (final(self).state matches LeafState::Waiting { id, .. }
                && waker_lookup(final(rt).reactor.wakers@, id) == Some(*waker)),
            final(self).state matches LeafState::Waiting { fd, id } ==> (old(self).state
                == final(self).state || (fd >= old(rt).net.streams@.len() && id
                >= old(rt).reactor.next_interest)),
            forall|oid: usize|
                oid != old(self).interest_id(old(rt)) ==> #[trigger] waker_lookup(
                    final(rt).reactor.wakers@,
                    oid,
                ) == waker_lookup(old(rt).reactor.wakers@, oid),
            old(self).state is Start && !old(rt).net.accepts(old(self).req.host) ==> {
                &&& *final(rt) == *old(rt)
                &&& r == LeafPoll::Ready(Outcome::ConnectionFailure)
                &&& final(self).state is Done
            },
            old(self).state is Start && old(rt).net.accepts(old(self).req.host) ==> ({
                let fd = old(rt).net.streams@.len() as usize;
                let id = old(rt).reactor.next_interest;
                &&& r is Pending
                &&& final(self).state == (LeafState::Waiting { fd, id })
                &&& final(self).buf@.len() == 0
                &&& final(rt).net.streams@.len() == old(rt).net.streams@.len() + 1
                &&& final(rt).net.streams@[fd as int].host == old(self).req.host
                &&& final(rt).net.streams@[fd as int].written@ == old(self).req.payload@
                &&& final(rt).net.streams@[fd as int].delivered == 0
                &&& final(rt).net.streams@[fd as int].read_pos == 0
                &&& final(rt).net.streams@[fd as int].closed == false
                &&& final(rt).reactor.watches() == old(rt).reactor.watches().push(
                    Watch { fd, token: id, interest: READABLE | EDGE_TRIGGERED },
                )
                &&& final(rt).reactor.wakers@ == table_add(old(rt).reactor.wakers@, id, *waker)
                &&& final(rt).reactor.next_interest == old(rt).reactor.next_interest + 1
            }),
            old(self).state matches LeafState::Waiting { fd, id } ==> ({
                let st = old(rt).net.streams@[fd as int];
                let got = old(self).buf@ + old(rt).net.response_of(fd as int).subrange(
                    st.read_pos as int,
                    st.delivered as int,
                );
                &&& final(rt).net.streams@[fd as int].read_pos == st.delivered
                &&& final(rt).net.streams@[fd as int].host == st.host
                &&& final(rt).net.streams@[fd as int].written@ == st.written@
                &&& final(rt).net.streams@[fd as int].delivered == st.delivered
                &&& final(rt).net.streams@[fd as int].closed == st.closed
                &&& final(rt).net.streams@.len() == old(rt).net.streams@.len()
                &&& final(rt).reactor.next_interest == old(rt).reactor.next_interest
                &&& if !st.closed {
                    &&& r is Pending
                    &&& final(self).state == old(self).state
                    &&& final(self).buf@ == got
                    &&& final(rt).reactor.wakers@ == table_add(
                        old(rt).reactor.wakers@,
                        id,
                        *waker,
                    )
                    &&& final(rt).reactor.watches() == old(rt).reactor.watches()
                } else {
                    &&& final(self).state is Done
                    &&& final(rt).reactor.wakers@ == waker_remove(old(rt).reactor.wakers@, id)
                    &&& final(rt).reactor.watches() == remove_fd(old(rt).reactor.watches(), fd)
                    &&& match old(rt).net.fault_of(fd as int) {
                        Fault::Clean => r matches LeafPoll::Ready(o) && o matches Outcome::Payload(
                            p,
                        ) && p@ == got,
                        Fault::Reset => r == LeafPoll::Ready(Outcome::ConnectionReset),
                        Fault::TimedOut => r == LeafPoll::Ready(Outcome::TimedOut),
                    }
                }
            }),
    {
        match self.state {
            LeafState::Start => {
                match rt.connect(self.req.host) {
                    None => {
                        self.state = LeafState::Done;
                        LeafPoll::Ready(Outcome::ConnectionFailure)
                    },
                    Some(fd) => {
                        rt.write(fd, &self.req.payload);
                        proof {
                            assert(rt.net.streams@[fd as int].written@ =~= self.req.payload@);
                        }
                        let id = rt.next_id();
                        proof {
                            if watched(rt.reactor.watches(), fd) {
                                lemma_watched_member(rt.reactor.watches(), fd);
                                let i = choose|i: int|
                                    0 <= i < rt.reactor.watches().len() && (
                                    #[trigger] rt.reactor.watches()[i]).fd == fd;
                                assert(old(rt).reactor.watches()[i].fd < old(rt).net.streams@.len());
                            }
                        }
                        rt.register(fd, READABLE | EDGE_TRIGGERED, id);
                        rt.add_waker(*waker, id);
                        proof {
                            assert forall|oid: usize| oid != id implies #[trigger] waker_lookup(
                                rt.reactor.wakers@,
                                oid,
                            ) == waker_lookup(old(rt).reactor.wakers@, oid) by {
                                lemma_table_add_lookup_other(
                                    old(rt).reactor.wakers@,
                                    id,
                                    *waker,
                                    oid,
                                );
                            }
                        }
                        self.state = LeafState::Waiting { fd, id };
                        LeafPoll::Pending
                    },
                }
            },
            LeafState::Waiting { fd, id } => {
                proof {
                    assert(old(rt).net.stream_wf(fd as int));
                    assert(old(self).buf@ + old(rt).net.response_of(fd as int).subrange(
                        old(rt).net.streams@[fd as int].read_pos as int,
                        old(rt).net.streams@[fd as int].read_pos as int,
                    ) =~= old(self).buf@);
                }
                loop
                    invariant
                        rt.wf(),
                        old(rt).wf(),
                        old(self).state == (LeafState::Waiting { fd, id }),
                        self.state == old(self).state,
                        self.req == old(self).req,
                        waker.queue < rt.queues@.len(),
                        fd < rt.net.streams@.len(),
                        id < rt.reactor.next_interest,
                        rt.net.streams@.len() == old(rt).net.streams@.len(),
                        rt.net.scripts@ == old(rt).net.scripts@,
                        forall|j: int|
                            0 <= j < old(rt).net.streams@.len() && j != fd ==> rt.net.streams@[j]
                                == old(rt).net.streams@[j],
                        rt.net.streams@[fd as int].host == old(rt).net.streams@[fd as int].host,
                        rt.net.streams@[fd as int].written@ == old(rt).net.streams@[fd as int].written@,
                        rt.net.streams@[fd as int].delivered == old(rt).net.streams@[fd as int].delivered,
                        rt.net.streams@[fd as int].closed == old(rt).net.streams@[fd as int].closed,
                        old(rt).net.streams@[fd as int].read_pos
                            <= rt.net.streams@[fd as int].read_pos,
                        rt.net.streams@[fd as int].read_pos
                            <= rt.net.streams@[fd as int].delivered,
                        self.buf@ == old(self).buf@ + old(rt).net.response_of(fd as int).subrange(
                            old(rt).net.streams@[fd as int].read_pos as int,
                            rt.net.streams@[fd as int].read_pos as int,
                        ),
                        rt.reactor == old(rt).reactor,
                        rt.queues == old(rt).queues,
                    decreases
                            rt.net.streams@[fd as int].delivered
                                - rt.net.streams@[fd as int].read_pos,
                {
                    let ghost pos_entry = old(rt).net.streams@[fd as int].read_pos as int;
                    let ghost pos_here = rt.net.streams@[fd as int].read_pos as int;
                    let ghost resp = old(rt).net.response_of(fd as int);
                    match rt.read_chunk(fd, READ_CHUNK) {
                        ReadStep::Bytes(mut b) => {
                            proof {
                                let pos_next = rt.net.streams@[fd as int].read_pos as int;
                                assert(rt.net.stream_wf(fd as int));
                                assert(rt.net.response_of(fd as int) == resp);
                                assert(resp.subrange(pos_entry, pos_here) + resp.subrange(
                                    pos_here,
                                    pos_next,
                                ) =~= resp.subrange(pos_entry, pos_next));
                                assert(self.buf@ + b@ =~= old(self).buf@ + resp.subrange(
                                    pos_entry,
                                    pos_next,
                                ));
                            }
                            self.buf.append(&mut b);
                        },
                        ReadStep::WouldBlock => {
                            rt.add_waker(*waker, id);
                            proof {
                                assert forall|oid: usize| oid != id implies #[trigger] waker_lookup(
                                    rt.reactor.wakers@,
                                    oid,
                                ) == waker_lookup(old(rt).reactor.wakers@, oid) by {
                                    lemma_table_add_lookup_other(
                                        old(rt).reactor.wakers@,
                                        id,
                                        *waker,
                                        oid,
                                    );
                                }
                            }
                            return LeafPoll::Pending;
                        },
                        ReadStep::End(f) => {
                            rt.deregister(fd, id);
                            proof {
                                assert forall|oid: usize| oid != id implies #[trigger] waker_lookup(
                                    rt.reactor.wakers@,
                                    oid,
                                ) == waker_lookup(old(rt).reactor.wakers@, oid) by {
                                    lemma_waker_remove_lookup_other(
                                        old(rt).reactor.wakers@,
                                        id,
                                        oid,
                                    );
                                }
                            }
                            self.state = LeafState::Done;
                            match f {
                                Fault::Clean => {
                                    let mut p: Vec<u8> = Vec::new();
                                    core::mem::swap(&mut p, &mut self.buf);
                                    return LeafPoll::Ready(Outcome::Payload(p));
                                },
                                Fault::Reset => {
                                    return LeafPoll::Ready(Outcome::ConnectionReset);
                                },
                                Fault::TimedOut => {
                                    return LeafPoll::Ready(Outcome::TimedOut);
                                },
                            }
                        },
                    }
                }
            },
            LeafState::Done => vstd::pervasive::unreached(),
        }
    }
}

} // verus!
