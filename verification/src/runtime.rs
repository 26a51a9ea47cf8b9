//! The runtime handle: reactor, network and ready queues in one place.
//!
//! In the threaded design these are the values shared across threads — the
//! registry, the mutex-guarded waker table, and each executor's mutex-guarded
//! ready queue. Here they live behind one handle that futures, executors and
//! the driver borrow in turn, which makes every suspension point and every
//! hand-off explicit. The driver-facing operations (`deliver`, `finish`,
//! `dispatch`, `pump`) stand for what the outside world and the reactor's
//! background thread do between two runs of an executor.

use vstd::prelude::*;

use crate::net::{Net, Script};
use crate::poll::{remove_fd, watched, Arrival, Watch, READABLE};
use crate::poll::lemma_remove_fd_membership;
use crate::reactor::{
    dispatch, lemma_remove_membership, table_add, waker_lookup, waker_remove, wakers_fit, Reactor,
    WakerEntry,
};
use crate::waker::{ReadyQueues, Waker};

verus! {

/// Every watched descriptor names an open stream of the network model.
pub open spec fn watches_valid(ws: Seq<Watch>, streams_len: nat) -> bool {
    forall|i: int| 0 <= i < ws.len() ==> (#[trigger] ws[i]).fd < streams_len
}

/// The one handle the whole runtime shares: the reactor (poller, waker table,
/// id generator), the modelled network, and the ready queues of all
/// executors.
pub struct Runtime {
    pub reactor: Reactor,
    pub net: Net,
    pub queues: ReadyQueues,
}

impl Runtime {
    /// The runtime is well formed: reactor and network are, every stored
    /// waker points at an existing ready queue, and every watched descriptor
    /// names an open stream.
    pub open spec fn wf(&self) -> bool {
        &&& self.reactor.wf()
        &&& self.net.wf()
        &&& wakers_fit(self.reactor.wakers@, self.queues@.len())
        &&& watches_valid(self.reactor.watches(), self.net.streams@.len())
    }

    /// Starts the runtime: a fresh reactor over an empty network, no ready
    /// queues yet. Creation is owed to succeed here; the fallible poller
    /// acquisition it models is handled at the boundary.
    pub fn start() -> (r: Runtime)
        ensures
            r.wf(),
            r.reactor.watches().len() == 0,
            r.reactor.wakers@.len() == 0,
            r.reactor.poller.arrivals@.len() == 0,
            r.reactor.next_interest == 1,
            r.net.scripts@.len() == 0,
            r.net.streams@.len() == 0,
            r.queues@.len() == 0,
    {
        let reactor = match Reactor::start() {
            Ok(rc) => rc,
            Err(_) => vstd::pervasive::unreached(),
        };
        Runtime { reactor, net: Net::new(), queues: ReadyQueues::new() }
    }

    /// Installs one scripted endpoint and returns its host id.
    pub fn add_endpoint(&mut self, script: Script) -> (h: usize)
        requires
            old(self).wf(),
        ensures
            final(self).wf(),
            h == old(self).net.scripts@.len(),
            final(self).net.scripts@ == old(self).net.scripts@.push(script),
            final(self).net.streams@ == old(self).net.streams@,
            final(self).reactor == old(self).reactor,
            final(self).queues == old(self).queues,
    {
        self.net.add_script(script)
    }

    /// Adds one ready queue for a new executor and returns its index.
    pub fn new_queue(&mut self) -> (q: usize)
        requires
            old(self).wf(),
        ensures
            final(self).wf(),
            q == old(self).queues@.len(),
            final(self).queues@.len() == old(self).queues@.len() + 1,
            forall|i: int|
                0 <= i < old(self).queues@.len() ==> final(self).queues@[i] == old(self).queues@[i],
            final(self).queues@[q as int].len() == 0,
            final(self).reactor == old(self).reactor,
            final(self).net == old(self).net,
    {
        self.queues.add_queue()
    }

    /// Allocates a fresh interest id.
    pub fn next_id(&mut self) -> (id: usize)
        requires
            old(self).wf(),
            old(self).reactor.next_interest < usize::MAX,
        ensures
            final(self).wf(),
            id == old(self).reactor.next_interest,
            final(self).reactor.next_interest == old(self).reactor.next_interest + 1,
            final(self).reactor.poller == old(self).reactor.poller,
            final(self).reactor.wakers == old(self).reactor.wakers,
            final(self).net == old(self).net,
            final(self).queues == old(self).queues,
    {
        self.reactor.next_id()
    }

    /// Registers interest in the open stream `fd` under `id` as the token.
    /// The caller hands in a descriptor that is not yet watched — leaf
    /// futures register each stream once, on first suspension — so the
    /// underlying registration is owed to succeed.
    pub fn register(&mut self, fd: usize, interest: u32, id: usize)
        requires
            old(self).wf(),
            fd < old(self).net.streams@.len(),
            !watched(old(self).reactor.watches(), fd),
        ensures
            final(self).wf(),
            final(self).reactor.watches() == old(self).reactor.watches().push(
                Watch { fd, token: id, interest },
            ),
            final(self).reactor.wakers == old(self).reactor.wakers,
            final(self).reactor.poller.arrivals@ == old(self).reactor.poller.arrivals@,
            final(self).reactor.next_interest == old(self).reactor.next_interest,
            final(self).net == old(self).net,
            final(self).queues == old(self).queues,
    {
        let r = self.reactor.register(fd, interest, id);
        proof {
            assert(r is Ok);
            assert forall|i: int| 0 <= i < self.reactor.watches().len() implies (
            #[trigger] self.reactor.watches()[i]).fd < self.net.streams@.len() by {
                if i < old(self).reactor.watches().len() {
                    assert(old(self).reactor.watches()[i].fd < self.net.streams@.len());
                }
            }
        }
    }

    /// Stores `w` as the waker for `id`, replacing any previous entry.
    pub fn add_waker(&mut self, w: Waker, id: usize)
        requires
            old(self).wf(),
            w.queue < old(self).queues@.len(),
        ensures
            final(self).wf(),
            final(self).reactor.wakers@ == table_add(old(self).reactor.wakers@, id, w),
            waker_lookup(final(self).reactor.wakers@, id) == Some(w),
            final(self).reactor.poller == old(self).reactor.poller,
            final(self).reactor.next_interest == old(self).reactor.next_interest,
            final(self).net == old(self).net,
            final(self).queues == old(self).queues,
    {
        self.reactor.add_waker(w, id);
        proof {
            lemma_remove_membership(old(self).reactor.wakers@, id);
            let rem = waker_remove(old(self).reactor.wakers@, id);
            assert forall|t: int| 0 <= t < self.reactor.wakers@.len() implies (
            #[trigger] self.reactor.wakers@[t]).waker.queue < self.queues@.len() by {
                if t < rem.len() {
                    assert(self.reactor.wakers@[t] == rem[t]);
                    let j = choose|j: int|
                        0 <= j < old(self).reactor.wakers@.len() && old(self).reactor.wakers@[j]
                            == rem[t];
                    assert(old(self).reactor.wakers@[j].waker.queue < self.queues@.len());
                }
            }
        }
    }

    /// Removes the waker entry for `id` and deregisters `fd`; called by a
    /// leaf future exactly once, when it resolves or permanently fails.
    pub fn deregister(&mut self, fd: usize, id: usize)
        requires
            old(self).wf(),
        ensures
            final(self).wf(),
            final(self).reactor.wakers@ == waker_remove(old(self).reactor.wakers@, id),
            final(self).reactor.watches() == remove_fd(old(self).reactor.watches(), fd),
            final(self).reactor.poller.arrivals@ == old(self).reactor.poller.arrivals@,
            final(self).reactor.next_interest == old(self).reactor.next_interest,
            final(self).net == old(self).net,
            final(self).queues == old(self).queues,
    {
        self.reactor.deregister(fd, id);
        proof {
            lemma_remove_membership(old(self).reactor.wakers@, id);
            assert forall|t: int| 0 <= t < self.reactor.wakers@.len() implies (
            #[trigger] self.reactor.wakers@[t]).waker.queue < self.queues@.len() by {
                let j = choose|j: int|
                    0 <= j < old(self).reactor.wakers@.len() && old(self).reactor.wakers@[j]
                        == self.reactor.wakers@[t];
                assert(old(self).reactor.wakers@[j].waker.queue < self.queues@.len());
            }
            lemma_remove_fd_membership(old(self).reactor.watches(), fd);
            assert forall|t: int| 0 <= t < self.reactor.watches().len() implies (
            #[trigger] self.reactor.watches()[t]).fd < self.net.streams@.len() by {
                let j = choose|j: int|
                    0 <= j < old(self).reactor.watches().len() && old(self).reactor.watches()[j]
                        == self.reactor.watches()[t];
                assert(old(self).reactor.watches()[j].fd < self.net.streams@.len());
            }
        }
    }

    /// Attempts a connection to `host` on behalf of a leaf future. A fresh
    /// stream is opened unless the endpoint is unknown or refuses.
    pub fn connect(&mut self, host: usize) -> (r: Option<usize>)
        requires
            old(self).wf(),
        ensures
            final(self).wf(),
            r is Some <==> host < old(self).net.scripts@.len() && !old(
                self,
            ).net.scripts@[host as int].refused,
            r is None ==> *final(self) == *old(self),
            final(self).reactor == old(self).reactor,
            final(self).queues == old(self).queues,
            r matches Some(fd) ==> {
                &&& fd == old(self).net.streams@.len()
                &&& final(self).net.scripts@ == old(self).net.scripts@
                &&& final(self).net.streams@.len() == old(self).net.streams@.len() + 1
                &&& (forall|j: int|
                    0 <= j < old(self).net.streams@.len() ==> final(self).net.streams@[j] == old(
                        self,
                    ).net.streams@[j])
                &&& final(self).net.streams@[fd as int].host == host
                &&& final(self).net.streams@[fd as int].written@.len() == 0
                &&& final(self).net.streams@[fd as int].delivered == 0
                &&& final(self).net.streams@[fd as int].read_pos == 0
                &&& final(self).net.streams@[fd as int].closed == false
            },
    {
        self.net.connect(host)
    }

    /// The client writes `data` on stream `fd`.
    pub fn write(&mut self, fd: usize, data: &Vec<u8>)
        requires
            old(self).wf(),
            fd < old(self).net.streams@.len(),
        ensures
            final(self).wf(),
            final(self).reactor == old(self).reactor,
            final(self).queues == old(self).queues,
            final(self).net.scripts@ == old(self).net.scripts@,
            final(self).net.streams@.len() == old(self).net.streams@.len(),
            forall|j: int|
                0 <= j < old(self).net.streams@.len() && j != fd ==> final(self).net.streams@[j]
                    == old(self).net.streams@[j],
            final(self).net.streams@[fd as int].written@ == old(
                self,
            ).net.streams@[fd as int].written@ + data@,
            final(self).net.streams@[fd as int].host == old(self).net.streams@[fd as int].host,
            final(self).net.streams@[fd as int].delivered == old(
                self,
            ).net.streams@[fd as int].delivered,
            final(self).net.streams@[fd as int].read_pos == old(
                self,
            ).net.streams@[fd as int].read_pos,
            final(self).net.streams@[fd as int].closed == old(self).net.streams@[fd as int].closed,
    {
        self.net.write(fd, data)
    }

    /// One non-blocking read of at most `max` bytes from stream `fd`.
    pub fn read_chunk(&mut self, fd: usize, max: usize) -> (r: crate::net::ReadStep)
        requires
            old(self).wf(),
            fd < old(self).net.streams@.len(),
            max >= 1,
        ensures
            final(self).wf(),
            final(self).reactor == old(self).reactor,
            final(self).queues == old(self).queues,
            final(self).net.scripts@ == old(self).net.scripts@,
            final(self).net.streams@.len() == old(self).net.streams@.len(),
            forall|j: int|
                0 <= j < old(self).net.streams@.len() && j != fd ==> final(self).net.streams@[j]
                    == old(self).net.streams@[j],
            final(self).net.streams@[fd as int].host == old(self).net.streams@[fd as int].host,
            final(self).net.streams@[fd as int].written@ == old(
                self,
            ).net.streams@[fd as int].written@,
            final(self).net.streams@[fd as int].delivered == old(
                self,
            ).net.streams@[fd as int].delivered,
            final(self).net.streams@[fd as int].closed == old(self).net.streams@[fd as int].closed,
            ({
                let pos = old(self).net.streams@[fd as int].read_pos;
                let avail = old(self).net.streams@[fd as int].delivered - pos;
                let k = if max <= avail {
                    max as int
                } else {
                    avail
                };
                if avail > 0 {
                    &&& r matches crate::net::ReadStep::Bytes(b)
                    &&& (r matches crate::net::ReadStep::Bytes(b) ==> b@ == old(
                        self,
                    ).net.response_of(fd as int).subrange(pos as int, pos + k))
                    &&& final(self).net.streams@[fd as int].read_pos == pos + k
                } else if !old(self).net.streams@[fd as int].closed {
                    &&& r is WouldBlock
                    &&& final(self).net.streams@[fd as int].read_pos == pos
                } else {
                    &&& r == crate::net::ReadStep::End(old(self).net.fault_of(fd as int))
                    &&& final(self).net.streams@[fd as int].read_pos == pos
                }
            }),
    {
        self.net.read_chunk(fd, max)
    }

    /// The server makes up to `n` more response bytes available on stream
    /// `fd`, and if anything arrived the kernel model queues one readable
    /// notification for it. Returns how many bytes arrived.
    pub fn deliver(&mut self, fd: usize, n: usize) -> (k: usize)
        requires
            old(self).wf(),
            fd < old(self).net.streams@.len(),
        ensures
            final(self).wf(),
            final(self).net.scripts@ == old(self).net.scripts@,
            final(self).net.streams@.len() == old(self).net.streams@.len(),
            forall|j: int|
                0 <= j < old(self).net.streams@.len() && j != fd ==> final(self).net.streams@[j]
                    == old(self).net.streams@[j],
            k == if n <= old(self).net.response_of(fd as int).len() - old(
                self,
            ).net.streams@[fd as int].delivered {
                n as int
            } else {
                old(self).net.response_of(fd as int).len() - old(
                    self,
                ).net.streams@[fd as int].delivered
            },
            final(self).net.streams@[fd as int].delivered == old(
                self,
            ).net.streams@[fd as int].delivered + k,
            final(self).net.streams@[fd as int].host == old(self).net.streams@[fd as int].host,
            final(self).net.streams@[fd as int].written@ == old(
                self,
            ).net.streams@[fd as int].written@,
            final(self).net.streams@[fd as int].read_pos == old(
                self,
            ).net.streams@[fd as int].read_pos,
            final(self).net.streams@[fd as int].closed == old(self).net.streams@[fd as int].closed,
            final(self).reactor.poller.registry == old(self).reactor.poller.registry,
            final(self).reactor.wakers == old(self).reactor.wakers,
            final(self).reactor.next_interest == old(self).reactor.next_interest,
            final(self).queues == old(self).queues,
            k > 0 ==> final(self).reactor.poller.arrivals@ == old(
                self,
            ).reactor.poller.arrivals@.push(Arrival { fd, bits: READABLE }),
            k == 0 ==> final(self).reactor.poller.arrivals@ == old(self).reactor.poller.arrivals@,
    {
        let k = self.net.deliver(fd, n);
        if k > 0 {
            self.reactor.poller.notify(fd, READABLE);
        }
        k
    }

    /// The server side of stream `fd` closes, and the kernel model queues one
    /// readable notification so the reader can observe the end of the stream.
    pub fn finish(&mut self, fd: usize)
        requires
            old(self).wf(),
            fd < old(self).net.streams@.len(),
        ensures
            final(self).wf(),
            final(self).net.scripts@ == old(self).net.scripts@,
            final(self).net.streams@.len() == old(self).net.streams@.len(),
            forall|j: int|
                0 <= j < old(self).net.streams@.len() && j != fd ==> final(self).net.streams@[j]
                    == old(self).net.streams@[j],
            final(self).net.streams@[fd as int].closed == true,
            final(self).net.streams@[fd as int].host == old(self).net.streams@[fd as int].host,
            final(self).net.streams@[fd as int].written@ == old(
                self,
            ).net.streams@[fd as int].written@,
            final(self).net.streams@[fd as int].delivered == old(
                self,
            ).net.streams@[fd as int].delivered,
            final(self).net.streams@[fd as int].read_pos == old(
                self,
            ).net.streams@[fd as int].read_pos,
            final(self).reactor.poller.registry == old(self).reactor.poller.registry,
            final(self).reactor.wakers == old(self).reactor.wakers,
            final(self).reactor.next_interest == old(self).reactor.next_interest,
            final(self).queues == old(self).queues,
            final(self).reactor.poller.arrivals@ == old(self).reactor.poller.arrivals@.push(
                Arrival { fd, bits: READABLE },
            ),
    {
        self.net.finish(fd);
        self.reactor.poller.notify(fd, READABLE);
    }

    /// One pass of the reactor's event loop over the queued arrivals: every
    /// delivered event whose token still has a waker entry consumes the entry
    /// and enqueues its task. Returns how many events were delivered.
    pub fn dispatch(&mut self) -> (n: usize)
        requires
            old(self).wf(),
        ensures
            final(self).wf(),
            final(self).queues@.len() == old(self).queues@.len(),
            final(self).reactor.poller.registry == old(self).reactor.poller.registry,
            final(self).reactor.poller.arrivals@.len() == 0,
            final(self).reactor.next_interest == old(self).reactor.next_interest,
            final(self).net == old(self).net,
            ({
                let evs = crate::poll::deliverable(
                    old(self).reactor.watches(),
                    old(self).reactor.poller.arrivals@,
                );
                let r = dispatch(old(self).reactor.wakers@, evs, old(self).queues@);
                &&& final(self).reactor.wakers@ == r.0
                &&& final(self).queues@ == r.1
                &&& n == evs.len()
            }),
    {
        self.reactor.step(&mut self.queues)
    }

    /// What a parked worker waits for: the network finishes every watched
    /// stream — all remaining scripted bytes arrive and the server side
    /// closes — and the reactor dispatches the resulting readiness. Returns
    /// whether anything at all happened; when it returns false, no wake can
    /// ever come and a parked worker would sleep forever.
    pub fn pump(&mut self) -> (progress: bool)
        requires
            old(self).wf(),
        ensures
            final(self).wf(),
            final(self).queues@.len() == old(self).queues@.len(),
            final(self).net.scripts@ == old(self).net.scripts@,
            final(self).net.streams@.len() == old(self).net.streams@.len(),
            final(self).reactor.next_interest == old(self).reactor.next_interest,
            !progress ==> {
                &&& final(self).queues@ == old(self).queues@
                &&& final(self).reactor.wakers@ == old(self).reactor.wakers@
                &&& final(self).reactor.watches() == old(self).reactor.watches()
                &&& final(self).net.streams@ == old(self).net.streams@
            },
            !progress ==> old(self).reactor.poller.arrivals@.len() == 0,
            !progress ==> forall|f: int|
                0 <= f < old(self).net.streams@.len() && watched(
                    old(self).reactor.watches(),
                    f as usize,
                ) ==> ((#[trigger] old(self).net.streams@[f]).closed && old(
                    self,
                ).net.streams@[f].delivered == old(self).net.response_of(f).len()),
    {
        let mut progress = self.reactor.poller.arrivals.len() > 0;
        let n = self.net.streams.len();
        let mut fd: usize = 0;
        while fd < n
            invariant
                fd <= n,
                self.wf(),
                n == self.net.streams@.len(),
                self.net.scripts@ == old(self).net.scripts@,
                self.queues@.len() == old(self).queues@.len(),
                self.reactor.next_interest == old(self).reactor.next_interest,
                !progress ==> *self == *old(self) && self.reactor.poller.arrivals@.len() == 0,
                !progress ==> forall|f: int|
                    0 <= f < fd && watched(old(self).reactor.watches(), f as usize) ==> ((
                    #[trigger] old(self).net.streams@[f]).closed && old(
                        self,
                    ).net.streams@[f].delivered == old(self).net.response_of(f).len()),
            decreases n - fd,
        {
            if self.reactor.poller.registry().lookup(fd).is_some() {
                let u = self.net.undelivered(fd);
                if u > 0 {
                    let _ = self.deliver(fd, u);
                    progress = true;
                }
                if !self.net.is_closed(fd) {
                    self.finish(fd);
                    progress = true;
                }
            }
            fd += 1;
        }
        proof {
            if !progress {
                crate::poll::lemma_idle_wait_is_empty(
                    self.reactor.watches(),
                    self.reactor.poller.arrivals@,
                );
            }
        }
        let _ = self.dispatch();
        progress
    }
}

} // verus!
