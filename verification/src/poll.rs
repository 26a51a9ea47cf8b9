//! Model of the OS readiness-notification facility.
//!
//! `Poll` owns a kernel-side event queue: a watch set (the `Registry`) and a
//! queue of readiness arrivals. `Poll::poll` drains every queued arrival and
//! delivers, for each arrival on a still-watched source, one `Event` carrying
//! the token that was given at registration. Delivery is edge-triggered: a
//! drained arrival is never reported twice, so a reader must consume all
//! available data after each notification.

use vstd::prelude::*;

verus! {

/// Readiness bit: the source can be read without blocking.
pub const READABLE: u32 = 0x1;
/// Readiness bit: the source can be written without blocking.
pub const WRITABLE: u32 = 0x4;
/// Readiness bit: an error condition is pending on the source.
pub const ERROR: u32 = 0x8;
/// Readiness bit: the peer hung up; reads will drain and then see end-of-stream.
pub const HANGUP: u32 = 0x10;
/// Interest bit: report only transitions to ready, not level readiness.
pub const EDGE_TRIGGERED: u32 = 0x80000000;

/// Raised when the underlying notification facility refuses a call, for
/// example on descriptor exhaustion at creation or a duplicate registration.
#[derive(Clone, Copy, PartialEq, Eq, Structural, Debug)]
pub struct OsResourceError;

/// One readiness notification: a bitmask of ready operations and the opaque
/// token under which the source was registered.
#[derive(Clone, Copy, PartialEq, Eq, Structural, Debug)]
pub struct Event {
    pub events: u32,
    pub data: usize,
}

impl Event {
    /// The token that was supplied when interest in this event's source was
    /// registered.
    pub fn token(&self) -> (t: usize)
        ensures
            t == self.data,
    {
        self.data
    }
}

/// One entry of the watch set: a source descriptor, the token to report it
/// under, and the readiness bits it is watched for.
#[derive(Clone, Copy, PartialEq, Eq, Structural, Debug)]
pub struct Watch {
    pub fd: usize,
    pub token: usize,
    pub interest: u32,
}

/// A readiness arrival the kernel model has queued but not yet delivered.
#[derive(Clone, Copy, PartialEq, Eq, Structural, Debug)]
pub struct Arrival {
    pub fd: usize,
    pub bits: u32,
}

/// The first watch-set entry for `fd`, if any.
pub open spec fn find_watch(ws: Seq<Watch>, fd: usize) -> Option<Watch>
    decreases ws.len(),
{
    if ws.len() == 0 {
        None
    } else if ws[0].fd == fd {
        Some(ws[0])
    } else {
        find_watch(ws.skip(1), fd)
    }
}

/// Whether `fd` is in the watch set.
pub open spec fn watched(ws: Seq<Watch>, fd: usize) -> bool {
    find_watch(ws, fd) is Some
}

/// No source descriptor appears twice in the watch set.
pub open spec fn unique_fds(ws: Seq<Watch>) -> bool {
    forall|i: int, j: int| 0 <= i < j < ws.len() ==> ws[i].fd != ws[j].fd
}

/// The watch set with every entry for `fd` removed.
pub open spec fn remove_fd(ws: Seq<Watch>, fd: usize) -> Seq<Watch>
    decreases ws.len(),
{
    if ws.len() == 0 {
        Seq::empty()
    } else if ws[0].fd == fd {
        remove_fd(ws.skip(1), fd)
    } else {
        seq![ws[0]] + remove_fd(ws.skip(1), fd)
    }
}

/// The events that a wait over watch set `ws` delivers for the queued
/// arrivals `arr`, in arrival order: one event per arrival whose source is
/// still watched, carrying the registered token; arrivals for sources no
/// longer watched are dropped.
pub open spec fn deliverable(ws: Seq<Watch>, arr: Seq<Arrival>) -> Seq<Event>
    decreases arr.len(),
{
    if arr.len() == 0 {
        Seq::empty()
    } else {
        let init = deliverable(ws, arr.drop_last());
        let a = arr.last();
        match find_watch(ws, a.fd) {
            Some(w) => init.push(Event { events: a.bits, data: w.token }),
            None => init,
        }
    }
}

/// A handle over the watch set: registration and deregistration of interest.
pub struct Registry {
    pub watches: Vec<Watch>,
}

impl Registry {
    /// The watch set is well formed when no descriptor is watched twice.
    pub open spec fn wf(&self) -> bool {
        unique_fds(self.watches@)
    }

    /// Adds `fd` to the watch set under `token`, interested in the readiness
    /// bits of `interest`. Registering an already-watched descriptor is
    /// refused, as the underlying facility refuses duplicate registrations.
    pub fn register(&mut self, fd: usize, token: usize, interest: u32) -> (r: Result<
        (),
        OsResourceError,
    >)
        requires
            old(self).wf(),
        ensures
            final(self).wf(),
            r is Ok <==> !watched(old(self).watches@, fd),
            r is Ok ==> final(self).watches@ == old(self).watches@.push(
                Watch { fd, token, interest },
            ),
            r is Err ==> final(self).watches@ == old(self).watches@,
    {
        let n = self.watches.len();
        let mut i: usize = 0;
        while i < n
            invariant
                i <= n,
                n == self.watches@.len(),
                *self == *old(self),
                old(self).wf(),
                forall|j: int| 0 <= j < i ==> self.watches@[j].fd != fd,
            decreases n - i,
        {
            if self.watches[i].fd == fd {
                proof {
                    lemma_find_watch_present(self.watches@, fd, i as int);
                }
                return Err(OsResourceError);
            }
            i += 1;
        }
        proof {
            lemma_find_watch_absent(self.watches@, fd);
            let w = Watch { fd, token, interest };
            assert(unique_fds(self.watches@.push(w))) by {
                let ws = self.watches@;
                assert forall|a: int, b: int|
                    0 <= a < b < ws.push(w).len() implies ws.push(w)[a].fd != ws.push(w)[b].fd by {
                    if b < ws.len() {
                        assert(ws[a].fd != ws[b].fd);
                    } else {
                        assert(ws.push(w)[a] == ws[a]);
                    }
                }
            }
        }
        self.watches.push(Watch { fd, token, interest });
        Ok(())
    }

    /// Removes `fd` from the watch set. Deregistering an unknown descriptor
    /// is not an error: the call reports whether anything was removed and
    /// otherwise leaves the set unchanged.
    pub fn deregister(&mut self, fd: usize) -> (found: bool)
        requires
            old(self).wf(),
        ensures
            final(self).wf(),
            final(self).watches@ == remove_fd(old(self).watches@, fd),
            found == watched(old(self).watches@, fd),
    {
        let ghost ws0 = self.watches@;
        let n = self.watches.len();
        let mut kept: Vec<Watch> = Vec::new();
        let mut found = false;
        let mut i: usize = 0;
        while i < n
            invariant
                i <= n,
                n == self.watches@.len(),
                *self == *old(self),
                kept@ == remove_fd(self.watches@.take(i as int), fd),
                found == watched(self.watches@.take(i as int), fd),
            decreases n - i,
        {
            let w = self.watches[i];
            proof {
                lemma_take_one_more(self.watches@, i as int);
                lemma_remove_fd_push(self.watches@.take(i as int), w, fd);
                lemma_find_watch_push(self.watches@.take(i as int), w, fd);
            }
            if w.fd == fd {
                found = true;
            } else {
                kept.push(w);
            }
            i += 1;
        }
        proof {
            assert(self.watches@.take(n as int) =~= self.watches@);
            lemma_remove_fd_unique(ws0, fd);
        }
        self.watches = kept;
        found
    }

    /// Looks `fd` up in the watch set and returns the token it was
    /// registered under, if it is watched.
    pub fn lookup(&self, fd: usize) -> (r: Option<usize>)
        ensures
            match r {
                Some(t) => find_watch(self.watches@, fd) matches Some(w) && w.token == t,
                None => !watched(self.watches@, fd),
            },
    {
        let n = self.watches.len();
        let mut i: usize = 0;
        while i < n
            invariant
                i <= n,
                n == self.watches@.len(),
                forall|j: int| 0 <= j < i ==> self.watches@[j].fd != fd,
            decreases n - i,
        {
            if self.watches[i].fd == fd {
                proof {
                    lemma_find_watch_present(self.watches@, fd, i as int);
                }
                return Some(self.watches[i].token);
            }
            i += 1;
        }
        proof {
            lemma_find_watch_absent(self.watches@, fd);
        }
        None
    }
}

/// If the first `i` entries miss `fd` and entry `i` matches it, the lookup
/// finds entry `i`.
proof fn lemma_find_watch_present(ws: Seq<Watch>, fd: usize, i: int)
    requires
        0 <= i < ws.len(),
        ws[i].fd == fd,
        forall|j: int| 0 <= j < i ==> ws[j].fd != fd,
    ensures
        find_watch(ws, fd) == Some(ws[i]),
    decreases i,
{
    if i == 0 {
    } else {
        assert(ws.skip(1)[i - 1] == ws[i]);
        assert(forall|j: int| 0 <= j < i - 1 ==> ws.skip(1)[j] == ws[j + 1]);
        lemma_find_watch_present(ws.skip(1), fd, i - 1);
    }
}

/// If no entry matches `fd`, the lookup finds nothing.
proof fn lemma_find_watch_absent(ws: Seq<Watch>, fd: usize)
    requires
        forall|j: int| 0 <= j < ws.len() ==> ws[j].fd != fd,
    ensures
        find_watch(ws, fd) is None,
    decreases ws.len(),
{
    if ws.len() > 0 {
        assert(forall|j: int| 0 <= j < ws.skip(1).len() ==> ws.skip(1)[j] == ws[j + 1]);
        lemma_find_watch_absent(ws.skip(1), fd);
    }
}

/// Taking one more element appends that element.
proof fn lemma_take_one_more(ws: Seq<Watch>, i: int)
    requires
        0 <= i < ws.len(),
    ensures
        ws.take(i + 1) == ws.take(i).push(ws[i]),
{
    assert(ws.take(i + 1) =~= ws.take(i).push(ws[i]));
}

/// How `remove_fd` treats one appended entry.
proof fn lemma_remove_fd_push(ws: Seq<Watch>, w: Watch, fd: usize)
    ensures
        w.fd == fd ==> remove_fd(ws.push(w), fd) == remove_fd(ws, fd),
        w.fd != fd ==> remove_fd(ws.push(w), fd) == remove_fd(ws, fd).push(w),
    decreases ws.len(),
{
    if ws.len() == 0 {
        assert(ws.push(w)[0] == w);
        assert(ws.push(w).skip(1) =~= ws);
        if w.fd != fd {
            assert(remove_fd(ws.push(w), fd) =~= remove_fd(ws, fd).push(w));
        }
    } else {
        assert(ws.push(w)[0] == ws[0]);
        assert(ws.push(w).skip(1) =~= ws.skip(1).push(w));
        lemma_remove_fd_push(ws.skip(1), w, fd);
        if ws[0].fd != fd && w.fd != fd {
            assert(remove_fd(ws.push(w), fd) =~= remove_fd(ws, fd).push(w));
        }
    }
}

/// How the lookup treats one appended entry.
proof fn lemma_find_watch_push(ws: Seq<Watch>, w: Watch, fd: usize)
    ensures
        watched(ws.push(w), fd) == (watched(ws, fd) || w.fd == fd),
    decreases ws.len(),
{
    if ws.len() == 0 {
        assert(ws.push(w)[0] == w);
        assert(ws.push(w).skip(1) =~= ws);
    } else {
        assert(ws.push(w)[0] == ws[0]);
        assert(ws.push(w).skip(1) =~= ws.skip(1).push(w));
        lemma_find_watch_push(ws.skip(1), w, fd);
    }
}

/// Removal keeps the watch set unique and drops exactly the entries for `fd`.
proof fn lemma_remove_fd_unique(ws: Seq<Watch>, fd: usize)
    requires
        unique_fds(ws),
    ensures
        unique_fds(remove_fd(ws, fd)),
    decreases ws.len(),
{
    if ws.len() > 0 {
        assert(forall|j: int| 0 <= j < ws.skip(1).len() ==> ws.skip(1)[j] == ws[j + 1]);
        lemma_remove_fd_unique(ws.skip(1), fd);
        if ws[0].fd != fd {
            lemma_remove_fd_membership(ws.skip(1), fd);
            let rest = remove_fd(ws.skip(1), fd);
            assert forall|a: int, b: int|
                0 <= a < b < (seq![ws[0]] + rest).len() implies (seq![ws[0]] + rest)[a].fd != (
            seq![ws[0]] + rest)[b].fd by {
                if a == 0 {
                    let k = choose|k: int| 0 <= k < ws.skip(1).len() && ws.skip(1)[k] == rest[b - 1];
                    assert(ws[k + 1] == rest[b - 1]);
                }
            }
        }
    }
}

/// Every entry that removal keeps comes from the original set.
pub proof fn lemma_remove_fd_membership(ws: Seq<Watch>, fd: usize)
    ensures
        forall|k: int|
            0 <= k < remove_fd(ws, fd).len() ==> exists|j: int|
                0 <= j < ws.len() && ws[j] == #[trigger] remove_fd(ws, fd)[k],
    decreases ws.len(),
{
    if ws.len() > 0 {
        lemma_remove_fd_membership(ws.skip(1), fd);
        let out = remove_fd(ws, fd);
        let rest = remove_fd(ws.skip(1), fd);
        assert forall|k: int| 0 <= k < out.len() implies exists|j: int|
            0 <= j < ws.len() && ws[j] == #[trigger] out[k] by {
            if ws[0].fd == fd {
                let j0 = choose|j: int| 0 <= j < ws.skip(1).len() && ws.skip(1)[j] == rest[k];
                assert(ws[j0 + 1] == out[k]);
            } else {
                if k == 0 {
                    assert(ws[0] == out[0]);
                } else {
                    let j0 = choose|j: int|
                        0 <= j < ws.skip(1).len() && ws.skip(1)[j] == rest[k - 1];
                    assert(ws[j0 + 1] == out[k]);
                }
            }
        }
    }
}

/// The kernel-side event queue: the watch set together with the readiness
/// arrivals that have not yet been delivered.
pub struct Poll {
    pub registry: Registry,
    pub arrivals: Vec<Arrival>,
}

impl Poll {
    /// The poller is well formed when its watch set is.
    pub open spec fn wf(&self) -> bool {
        self.registry.wf()
    }

    /// Acquires one event queue. In this model acquisition always succeeds;
    /// the fallible signature mirrors the facility it stands for, where
    /// creation can be refused on resource exhaustion.
    pub fn new() -> (r: Result<Poll, OsResourceError>)
        ensures
            r matches Ok(p) && p.wf() && p.registry.watches@.len() == 0 && p.arrivals@.len() == 0,
    {
        Ok(Poll { registry: Registry { watches: Vec::new() }, arrivals: Vec::new() })
    }

    /// A read-only handle on the watch set.
    pub fn registry(&self) -> (r: &Registry)
        ensures
            r == &self.registry,
    {
        &self.registry
    }

    /// The handle through which interest is registered and deregistered.
    pub fn registry_mut(&mut self) -> (r: &mut Registry)
        ensures
            *r == old(self).registry,
            final(self).registry == *final(r),
            final(self).arrivals@ == old(self).arrivals@,
    {
        &mut self.registry
    }

    /// The kernel model marks `fd` ready with the given bits: one arrival is
    /// queued for the next wait. Whether the arrival is delivered is decided
    /// at wait time, so interest deregistered in between suppresses it.
    pub fn notify(&mut self, fd: usize, bits: u32)
        ensures
            final(self).arrivals@ == old(self).arrivals@.push(Arrival { fd, bits }),
            final(self).registry == old(self).registry,
    {
        self.arrivals.push(Arrival { fd, bits });
    }

    /// Waits for readiness: drains every queued arrival and fills `events`
    /// with one event per arrival whose source is still watched, carrying the
    /// token given at registration. With nothing queued the wait returns an
    /// empty sequence — a timeout or spurious wake, never an error. The
    /// timeout only distinguishes a bounded block from an indefinite one;
    /// in this model the queued arrivals are what the blocked thread would
    /// eventually see, so the wait returns them without blocking.
    pub fn poll(&mut self, events: &mut Vec<Event>, timeout: Option<i32>) -> (r: Result<
        (),
        OsResourceError,
    >)
        requires
            old(self).wf(),
        ensures
            final(self).wf(),
            r is Ok,
            final(events)@ == deliverable(old(self).registry.watches@, old(self).arrivals@),
            final(self).registry == old(self).registry,
            final(self).arrivals@.len() == 0,
            old(self).arrivals@.len() == 0 ==> final(events)@.len() == 0,
    {
        events.clear();
        let n = self.arrivals.len();
        let mut i: usize = 0;
        while i < n
            invariant
                i <= n,
                n == self.arrivals@.len(),
                *self == *old(self),
                events@ == deliverable(self.registry.watches@, self.arrivals@.take(i as int)),
            decreases n - i,
        {
            let a = self.arrivals[i];
            proof {
                let arr = self.arrivals@;
                assert(arr.take(i + 1).drop_last() =~= arr.take(i as int));
                assert(arr.take(i + 1).last() == a);
            }
            match self.registry.lookup(a.fd) {
                Some(token) => {
                    events.push(Event { events: a.bits, data: token });
                },
                None => {},
            }
            i += 1;
        }
        proof {
            assert(self.arrivals@.take(n as int) =~= self.arrivals@);
        }
        self.arrivals.clear();
        Ok(())
    }
}

/// Law: a wait delivers the registered token. For any watch-set entry and any
/// queued arrival on that entry's source, the delivered events contain one
/// whose token is exactly the token of the registration and whose bits are
/// the arrival's.
pub proof fn lemma_registered_token_delivered(ws: Seq<Watch>, arr: Seq<Arrival>, i: int, j: int)
    requires
        unique_fds(ws),
        0 <= i < ws.len(),
        0 <= j < arr.len(),
        arr[j].fd == ws[i].fd,
    ensures
        exists|k: int|
            0 <= k < deliverable(ws, arr).len() && deliverable(ws, arr)[k] == (Event {
                events: arr[j].bits,
                data: ws[i].token,
            }),
    decreases arr.len(),
{
    let out = deliverable(ws, arr);
    let init = deliverable(ws, arr.drop_last());
    if j == arr.len() - 1 {
        lemma_find_watch_in_unique(ws, i);
        let w = find_watch(ws, arr[j].fd)->Some_0;
        assert(out[out.len() - 1] == (Event { events: arr[j].bits, data: ws[i].token }));
    } else {
        assert(arr.drop_last()[j] == arr[j]);
        lemma_registered_token_delivered(ws, arr.drop_last(), i, j);
        let k = choose|k: int|
            0 <= k < init.len() && init[k] == (Event { events: arr[j].bits, data: ws[i].token });
        assert(out[k] == init[k]);
    }
}

/// In a unique watch set the lookup finds exactly the entry that is present.
proof fn lemma_find_watch_in_unique(ws: Seq<Watch>, i: int)
    requires
        unique_fds(ws),
        0 <= i < ws.len(),
    ensures
        find_watch(ws, ws[i].fd) == Some(ws[i]),
    decreases i,
{
    if i == 0 {
    } else {
        assert(ws[0].fd != ws[i].fd);
        assert(forall|j: int| 0 <= j < ws.skip(1).len() ==> ws.skip(1)[j] == ws[j + 1]);
        assert(forall|a: int, b: int|
            0 <= a < b < ws.skip(1).len() ==> ws.skip(1)[a].fd != ws.skip(1)[b].fd);
        lemma_find_watch_in_unique(ws.skip(1), i - 1);
    }
}

/// A watched descriptor has a watch-set entry.
pub proof fn lemma_watched_member(ws: Seq<Watch>, fd: usize)
    requires
        watched(ws, fd),
    ensures
        exists|i: int| 0 <= i < ws.len() && (#[trigger] ws[i]).fd == fd,
    decreases ws.len(),
{
    if ws.len() > 0 {
        if ws[0].fd == fd {
            assert(ws[0].fd == fd);
        } else {
            lemma_watched_member(ws.skip(1), fd);
            let i = choose|i: int| 0 <= i < ws.skip(1).len() && (#[trigger] ws.skip(1)[i]).fd == fd;
            assert(ws[i + 1].fd == fd);
        }
    }
}

/// Law: a wait with no queued readiness delivers nothing — an expired timeout
/// with no ready sources yields an empty event sequence, not an error.
pub proof fn lemma_idle_wait_is_empty(ws: Seq<Watch>, arr: Seq<Arrival>)
    requires
        arr.len() == 0,
    ensures
        deliverable(ws, arr).len() == 0,
{
}

} // verus!
