//! A cooperative asynchronous I/O runtime, modelled and verified.
//!
//! The crate is organised leaf-first:
//! - [`poll`] models the OS readiness-notification facility: a watch set of
//!   sources, queued readiness arrivals, and a drain-style wait.
//! - [`net`] models the network seen by leaf futures: scripted endpoints,
//!   connected streams, non-blocking reads.
//! - [`waker`] holds the per-executor ready queues and the waker capability
//!   that re-enqueues a task for resumption.
//! - [`reactor`] owns the poller and a table of pending wakers keyed by
//!   interest id, and translates readiness events into waker invocations.
//! - [`future`] defines the leaf I/O future: one request/response exchange,
//!   suspending on readable interest and draining on resumption.
//! - [`composite`] builds on it: the sequential and join-all composites, and
//!   the closed task type the scheduler dispatches over.
//! - [`executor`] is the single-thread cooperative scheduler over one task
//!   table and one ready queue.
//! - [`runtime`] bundles reactor, network and ready queues into the one
//!   handle that futures and drivers share.
//!
//! Suspension points are explicit: a leaf future that cannot read without
//! blocking registers interest, stores a waker and reports `Pending`; the
//! reactor resolves later readiness back to that waker, which re-enqueues the
//! task. Thread parking is a driver concern: the executor returns control at
//! the point where a worker thread would park, and resumes when called again
//! after new readiness has been dispatched.

pub mod composite;
pub mod executor;
pub mod future;
pub mod net;
pub mod poll;
pub mod runtime;
pub mod reactor;
pub mod waker;
