//! Model of the network seen by leaf futures.
//!
//! An endpoint is a `Script`: either it refuses connections, or it accepts
//! and will send a fixed response, possibly ending in a fault instead of a
//! clean close. A `Stream` is one connection to an endpoint; the driver makes
//! response bytes available piece by piece (`deliver`) and closes the server
//! side (`finish`), and the connected client reads whatever has arrived
//! without ever blocking (`read_chunk`). Connection failures, resets and
//! timeouts are data-level outcomes here, never process failures.

use vstd::prelude::*;

verus! {

/// How a stream ends once the server side is done: a clean end-of-stream, a
/// connection reset, or a timeout.
#[derive(Clone, Copy, PartialEq, Eq, Structural, Debug)]
pub enum Fault {
    Clean,
    Reset,
    TimedOut,
}

/// One scripted endpoint: whether it refuses connections, the response it
/// sends to any connection it accepts, and how the stream ends.
pub struct Script {
    pub refused: bool,
    pub response: Vec<u8>,
    pub fault: Fault,
}

/// One connection: the endpoint it reaches, the bytes the client wrote, how
/// much of the response has arrived, how much the client has consumed, and
/// whether the server side has closed.
pub struct Stream {
    pub host: usize,
    pub written: Vec<u8>,
    pub delivered: usize,
    pub read_pos: usize,
    pub closed: bool,
}

/// One step of a non-blocking read: some bytes, a would-block condition, or
/// the end of the stream with its fault flavour.
#[derive(Debug)]
pub enum ReadStep {
    Bytes(Vec<u8>),
    WouldBlock,
    End(Fault),
}

/// The modelled network: the scripted endpoints and the open connections.
/// A connection's descriptor is its index in `streams`.
pub struct Net {
    pub scripts: Vec<Script>,
    pub streams: Vec<Stream>,
}

impl Net {
    /// The full response the endpoint behind stream `fd` sends.
    pub open spec fn response_of(&self, fd: int) -> Seq<u8> {
        self.scripts@[self.streams@[fd].host as int].response@
    }

    /// The end-of-stream flavour of the endpoint behind stream `fd`.
    pub open spec fn fault_of(&self, fd: int) -> Fault {
        self.scripts@[self.streams@[fd].host as int].fault
    }

    /// Whether `host` names an endpoint that accepts connections.
    pub open spec fn accepts(&self, host: usize) -> bool {
        host < self.scripts@.len() && !self.scripts@[host as int].refused
    }

    /// One stream is well formed: it points at an endpoint, and consumption
    /// never overtakes arrival, which never overtakes the scripted response.
    pub open spec fn stream_wf(&self, fd: int) -> bool {
        &&& self.streams@[fd].host < self.scripts@.len()
        &&& self.streams@[fd].read_pos <= self.streams@[fd].delivered
        &&& self.streams@[fd].delivered <= self.response_of(fd).len()
    }

    /// The whole network is well formed.
    pub open spec fn wf(&self) -> bool {
        forall|fd: int| 0 <= fd < self.streams@.len() ==> #[trigger] self.stream_wf(fd)
    }

    /// An empty network: no endpoints, no connections.
    pub fn new() -> (r: Net)
        ensures
            r.wf(),
            r.scripts@.len() == 0,
            r.streams@.len() == 0,
    {
        Net { scripts: Vec::new(), streams: Vec::new() }
    }

    /// Installs one scripted endpoint and returns its host id.
    pub fn add_script(&mut self, script: Script) -> (h: usize)
        requires
            old(self).wf(),
        ensures
            final(self).wf(),
            h == old(self).scripts@.len(),
            final(self).scripts@ == old(self).scripts@.push(script),
            final(self).streams@ == old(self).streams@,
    {
        let h = self.scripts.len();
        self.scripts.push(script);
        proof {
            assert forall|fd: int| 0 <= fd < self.streams@.len() implies #[trigger] self.stream_wf(
                fd,
            ) by {
                assert(old(self).stream_wf(fd));
            }
        }
        h
    }

    /// Attempts a connection to `host`. An unknown or refusing endpoint
    /// yields `None` and changes nothing; otherwise a fresh stream is opened
    /// and its descriptor returned.
    pub fn connect(&mut self, host: usize) -> (r: Option<usize>)
        requires
            old(self).wf(),
        ensures
            final(self).wf(),
            r is Some <==> host < old(self).scripts@.len() && !old(self).scripts@[host as int].refused,
            r is None ==> *final(self) == *old(self),
            r matches Some(fd) ==> {
                &&& fd == old(self).streams@.len()
                &&& final(self).scripts@ == old(self).scripts@
                &&& final(self).streams@.len() == old(self).streams@.len() + 1
                &&& (forall|j: int|
                    0 <= j < old(self).streams@.len() ==> final(self).streams@[j] == old(
                        self,
                    ).streams@[j])
                &&& final(self).streams@[fd as int].host == host
                &&& final(self).streams@[fd as int].written@.len() == 0
                &&& final(self).streams@[fd as int].delivered == 0
                &&& final(self).streams@[fd as int].read_pos == 0
                &&& final(self).streams@[fd as int].closed == false
            },
    {
        if host >= self.scripts.len() {
            return None;
        }
        if self.scripts[host].refused {
            return None;
        }
        let fd = self.streams.len();
        self.streams.push(
            Stream { host, written: Vec::new(), delivered: 0, read_pos: 0, closed: false },
        );
        proof {
            assert forall|j: int| 0 <= j < self.streams@.len() implies #[trigger] self.stream_wf(
                j,
            ) by {
                if j < self.streams@.len() - 1 {
                    assert(old(self).stream_wf(j));
                }
            }
        }
        Some(fd)
    }

    /// The client writes `data` on stream `fd`; the model records the bytes.
    pub fn write(&mut self, fd: usize, data: &Vec<u8>)
        requires
            old(self).wf(),
            fd < old(self).streams@.len(),
        ensures
            final(self).wf(),
            final(self).scripts@ == old(self).scripts@,
            final(self).streams@.len() == old(self).streams@.len(),
            forall|j: int|
                0 <= j < old(self).streams@.len() && j != fd ==> final(self).streams@[j] == old(
                    self,
                ).streams@[j],
            final(self).streams@[fd as int].written@ == old(self).streams@[fd as int].written@
                + data@,
            final(self).streams@[fd as int].host == old(self).streams@[fd as int].host,
            final(self).streams@[fd as int].delivered == old(self).streams@[fd as int].delivered,
            final(self).streams@[fd as int].read_pos == old(self).streams@[fd as int].read_pos,
            final(self).streams@[fd as int].closed == old(self).streams@[fd as int].closed,
    {
        let ghost streams0 = self.streams@;
        let mut st = self.streams.remove(fd);
        let ghost w0 = st.written@;
        let n = data.len();
        let mut i: usize = 0;
        while i < n
            invariant
                i <= n,
                n == data@.len(),
                st.written@ == w0 + data@.take(i as int),
                st.host == streams0[fd as int].host,
                st.delivered == streams0[fd as int].delivered,
                st.read_pos == streams0[fd as int].read_pos,
                st.closed == streams0[fd as int].closed,
            decreases n - i,
        {
            st.written.push(data[i]);
            proof {
                assert(data@.take(i + 1) =~= data@.take(i as int).push(data@[i as int]));
            }
            i += 1;
        }
        proof {
            assert(data@.take(n as int) =~= data@);
        }
        self.streams.insert(fd, st);
        proof {
            assert(final(self).streams@ =~= streams0.update(
                fd as int,
                final(self).streams@[fd as int],
            ));
            assert forall|j: int| 0 <= j < self.streams@.len() implies #[trigger] self.stream_wf(
                j,
            ) by {
                assert(old(self).stream_wf(j));
            }
        }
    }

    /// The server makes up to `n` more response bytes available on stream
    /// `fd`; returns how many actually arrived (fewer only when the script
    /// runs out).
    pub fn deliver(&mut self, fd: usize, n: usize) -> (k: usize)
        requires
            old(self).wf(),
            fd < old(self).streams@.len(),
        ensures
            final(self).wf(),
            final(self).scripts@ == old(self).scripts@,
            final(self).streams@.len() == old(self).streams@.len(),
            forall|j: int|
                0 <= j < old(self).streams@.len() && j != fd ==> final(self).streams@[j] == old(
                    self,
                ).streams@[j],
            k == if n <= old(self).response_of(fd as int).len() - old(self).streams@[fd as int].delivered {
                n as int
            } else {
                old(self).response_of(fd as int).len() - old(self).streams@[fd as int].delivered
            },
            final(self).streams@[fd as int].delivered == old(self).streams@[fd as int].delivered
                + k,
            final(self).streams@[fd as int].host == old(self).streams@[fd as int].host,
            final(self).streams@[fd as int].written@ == old(self).streams@[fd as int].written@,
            final(self).streams@[fd as int].read_pos == old(self).streams@[fd as int].read_pos,
            final(self).streams@[fd as int].closed == old(self).streams@[fd as int].closed,
    {
        let ghost streams0 = self.streams@;
        let mut st = self.streams.remove(fd);
        proof {
            assert(old(self).stream_wf(fd as int));
        }
        let total = self.scripts[st.host].response.len();
        let left = total - st.delivered;
        let k = if n <= left {
            n
        } else {
            left
        };
        st.delivered = st.delivered + k;
        self.streams.insert(fd, st);
        proof {
            assert(final(self).streams@ =~= streams0.update(
                fd as int,
                final(self).streams@[fd as int],
            ));
            assert forall|j: int| 0 <= j < self.streams@.len() implies #[trigger] self.stream_wf(
                j,
            ) by {
                assert(old(self).stream_wf(j));
            }
        }
        k
    }

    /// The server side of stream `fd` closes: once all arrived bytes are
    /// consumed, reads will see the scripted end-of-stream flavour.
    pub fn finish(&mut self, fd: usize)
        requires
            old(self).wf(),
            fd < old(self).streams@.len(),
        ensures
            final(self).wf(),
            final(self).scripts@ == old(self).scripts@,
            final(self).streams@.len() == old(self).streams@.len(),
            forall|j: int|
                0 <= j < old(self).streams@.len() && j != fd ==> final(self).streams@[j] == old(
                    self,
                ).streams@[j],
            final(self).streams@[fd as int].closed == true,
            final(self).streams@[fd as int].host == old(self).streams@[fd as int].host,
            final(self).streams@[fd as int].written@ == old(self).streams@[fd as int].written@,
            final(self).streams@[fd as int].delivered == old(self).streams@[fd as int].delivered,
            final(self).streams@[fd as int].read_pos == old(self).streams@[fd as int].read_pos,
    {
        let ghost streams0 = self.streams@;
        let mut st = self.streams.remove(fd);
        st.closed = true;
        self.streams.insert(fd, st);
        proof {
            assert(final(self).streams@ =~= streams0.update(
                fd as int,
                final(self).streams@[fd as int],
            ));
            assert forall|j: int| 0 <= j < self.streams@.len() implies #[trigger] self.stream_wf(
                j,
            ) by {
                assert(old(self).stream_wf(j));
            }
        }
    }

    /// How many arrived bytes stream `fd` still holds unread.
    pub fn available(&self, fd: usize) -> (k: usize)
        requires
            self.wf(),
            fd < self.streams@.len(),
        ensures
            k == self.streams@[fd as int].delivered - self.streams@[fd as int].read_pos,
    {
        proof {
            assert(self.stream_wf(fd as int));
        }
        self.streams[fd].delivered - self.streams[fd].read_pos
    }

    /// How many scripted response bytes have not yet arrived on stream `fd`.
    pub fn undelivered(&self, fd: usize) -> (k: usize)
        requires
            self.wf(),
            fd < self.streams@.len(),
        ensures
            k == self.response_of(fd as int).len() - self.streams@[fd as int].delivered,
    {
        proof {
            assert(self.stream_wf(fd as int));
        }
        self.scripts[self.streams[fd].host].response.len() - self.streams[fd].delivered
    }

    /// Whether the server side of stream `fd` has closed.
    pub fn is_closed(&self, fd: usize) -> (b: bool)
        requires
            fd < self.streams@.len(),
        ensures
            b == self.streams@[fd as int].closed,
    {
        self.streams[fd].closed
    }

    /// One non-blocking read of at most `max` bytes from stream `fd`: bytes
    /// if any have arrived and are unread, otherwise would-block while the
    /// server is still up, otherwise the scripted end of the stream. Reading
    /// consumes; nothing else changes.
    pub fn read_chunk(&mut self, fd: usize, max: usize) -> (r: ReadStep)
        requires
            old(self).wf(),
            fd < old(self).streams@.len(),
            max >= 1,
        ensures
            final(self).wf(),
            final(self).scripts@ == old(self).scripts@,
            final(self).streams@.len() == old(self).streams@.len(),
            forall|j: int|
                0 <= j < old(self).streams@.len() && j != fd ==> final(self).streams@[j] == old(
                    self,
                ).streams@[j],
            final(self).streams@[fd as int].host == old(self).streams@[fd as int].host,
            final(self).streams@[fd as int].written@ == old(self).streams@[fd as int].written@,
            final(self).streams@[fd as int].delivered == old(self).streams@[fd as int].delivered,
            final(self).streams@[fd as int].closed == old(self).streams@[fd as int].closed,
            ({
                let pos = old(self).streams@[fd as int].read_pos;
                let avail = old(self).streams@[fd as int].delivered - pos;
                let k = if max <= avail {
                    max as int
                } else {
                    avail
                };
                if avail > 0 {
                    &&& r matches ReadStep::Bytes(b)
                    &&& (r matches ReadStep::Bytes(b) ==> b@ == old(self).response_of(
                        fd as int,
                    ).subrange(pos as int, pos + k))
                    &&& final(self).streams@[fd as int].read_pos == pos + k
                } else if !old(self).streams@[fd as int].closed {
                    &&& r is WouldBlock
                    &&& final(self).streams@[fd as int].read_pos == pos
                } else {
                    &&& r == ReadStep::End(old(self).fault_of(fd as int))
                    &&& final(self).streams@[fd as int].read_pos == pos
                }
            }),
    {
        proof {
            assert(old(self).stream_wf(fd as int));
        }
        let ghost streams0 = self.streams@;
        let mut st = self.streams.remove(fd);
        let avail = st.delivered - st.read_pos;
        if avail == 0 {
            let r = if st.closed {
                ReadStep::End(self.scripts[st.host].fault)
            } else {
                ReadStep::WouldBlock
            };
            self.streams.insert(fd, st);
            proof {
                assert(final(self).streams@ =~= streams0);
                assert forall|j: int|
                    0 <= j < self.streams@.len() implies #[trigger] self.stream_wf(j) by {
                    assert(old(self).stream_wf(j));
                }
            }
            return r;
        }
        let k = if max <= avail {
            max
        } else {
            avail
        };
        let mut bytes: Vec<u8> = Vec::new();
        let resp = &self.scripts[st.host].response;
        let mut i: usize = 0;
        while i < k
            invariant
                i <= k,
                st.read_pos + k <= st.delivered,
                st.delivered <= resp@.len(),
                bytes@ == resp@.subrange(st.read_pos as int, st.read_pos + i),
            decreases k - i,
        {
            bytes.push(resp[st.read_pos + i]);
            proof {
                assert(resp@.subrange(st.read_pos as int, st.read_pos + i + 1) =~= resp@.subrange(
                    st.read_pos as int,
                    st.read_pos + i,
                ).push(resp@[st.read_pos + i]));
            }
            i += 1;
        }
        st.read_pos = st.read_pos + k;
        self.streams.insert(fd, st);
        proof {
            assert(final(self).streams@ =~= streams0.update(
                fd as int,
                final(self).streams@[fd as int],
            ));
            assert forall|j: int| 0 <= j < self.streams@.len() implies #[trigger] self.stream_wf(
                j,
            ) by {
                assert(old(self).stream_wf(j));
            }
        }
        ReadStep::Bytes(bytes)
    }
}

} // verus!
