//! End-to-end tests for the reactor, executor, wakers and futures over the
//! modelled network.

use eclient::composite::{JoinFuture, PollResult, SeqFuture, Task};
use eclient::executor::Executor;
use eclient::future::{drain_decision, DrainAction, LeafFuture, LeafPoll, Outcome, ReadEvent, Request};
use eclient::net::{Fault, Script};
use eclient::poll::READABLE;
use eclient::reactor::Reactor;
use eclient::runtime::Runtime;
use eclient::waker::{ReadyQueues, Waker};

fn accepting(response: &[u8]) -> Script {
    Script { refused: false, response: response.to_vec(), fault: Fault::Clean }
}

fn refusing() -> Script {
    Script { refused: true, response: Vec::new(), fault: Fault::Clean }
}

/// Drives one executor to completion: run to the park boundary, then let the
/// network finish every watched stream and dispatch readiness, as the
/// reactor's thread would, until the task table empties.
fn drive(ex: &mut Executor, rt: &mut Runtime) -> Vec<(usize, Vec<Outcome>)> {
    let mut reports = Vec::new();
    loop {
        for done in ex.run(rt) {
            reports.push((done.id, done.outcomes));
        }
        if ex.task_count() == 0 {
            return reports;
        }
        assert!(rt.pump(), "pending tasks but nothing left to deliver");
    }
}

#[test]
fn stale_waker_is_suppressed() {
    let mut rc = Reactor::start().unwrap();
    let mut queues = ReadyQueues::new();
    let q0 = queues.add_queue();
    let q1 = queues.add_queue();
    let id = rc.next_id();
    rc.register(5, READABLE, id).unwrap();
    rc.add_waker(Waker { queue: q0, task: 1 }, id);
    rc.add_waker(Waker { queue: q1, task: 2 }, id);
    rc.poller.notify(5, READABLE);
    let delivered = rc.step(&mut queues);
    assert_eq!(delivered, 1);
    assert_eq!(queues.len_of(q0), 0, "the replaced waker must never fire");
    assert_eq!(queues.pop(q1), Some(2));
}

#[test]
fn wake_consumes_the_waker_table_entry() {
    let mut rc = Reactor::start().unwrap();
    let mut queues = ReadyQueues::new();
    let q = queues.add_queue();
    let id = rc.next_id();
    rc.register(8, READABLE, id).unwrap();
    rc.add_waker(Waker { queue: q, task: 3 }, id);
    rc.poller.notify(8, READABLE);
    rc.step(&mut queues);
    assert_eq!(queues.pop(q), Some(3));
    // A second readiness burst finds no stored waker: a normal condition.
    rc.poller.notify(8, READABLE);
    rc.step(&mut queues);
    assert_eq!(queues.len_of(q), 0);
    assert!(rc.lookup_waker(id).is_none());
}

#[test]
fn spawn_then_run_reports_once_and_empties_the_table() {
    let mut rt = Runtime::start();
    let host = rt.add_endpoint(refusing());
    let mut ex = Executor::new(&mut rt);
    let id = ex.spawn(&mut rt, Task::Leaf(LeafFuture::new(Request { host, payload: Vec::new() })));
    let results = ex.run(&mut rt);
    assert_eq!(results.len(), 1);
    assert_eq!(results[0].id, id);
    assert!(matches!(results[0].outcomes[0], Outcome::ConnectionFailure));
    assert_eq!(ex.task_count(), 0);
}

#[test]
fn duplicate_wake_is_a_harmless_extra_pop() {
    let mut rt = Runtime::start();
    let host = rt.add_endpoint(refusing());
    let mut ex = Executor::new(&mut rt);
    let id = ex.spawn(&mut rt, Task::Leaf(LeafFuture::new(Request { host, payload: Vec::new() })));
    // A second wake before the task is polled queues a duplicate id.
    let w = Waker { queue: ex.queue_id, task: id };
    w.wake(&mut rt.queues);
    let results = ex.run(&mut rt);
    assert_eq!(results.len(), 1, "one report despite two queued wakes");
    assert_eq!(ex.task_count(), 0);
}

#[test]
fn leaf_suspends_then_resolves_with_the_full_response() {
    let mut rt = Runtime::start();
    let host = rt.add_endpoint(accepting(b"hello from the peer"));
    let mut ex = Executor::new(&mut rt);
    let payload = b"GET / HTTP/1.1\r\nHost: peer\r\nConnection: close\r\n\r\n".to_vec();
    ex.spawn(&mut rt, Task::Leaf(LeafFuture::new(Request { host, payload: payload.clone() })));
    let reports = drive(&mut ex, &mut rt);
    assert_eq!(reports.len(), 1);
    match &reports[0].1[0] {
        Outcome::Payload(p) => assert_eq!(p, &b"hello from the peer".to_vec()),
        other => panic!("expected a payload, got {:?}", other),
    }
    // The request bytes were written on the leaf's stream before suspending.
    assert_eq!(rt.net.streams[0].written, payload);
    // Resolution deregistered the leaf's interest: nothing remains watched.
    assert!(rt.reactor.poller.registry().lookup(0).is_none());
    assert_eq!(rt.reactor.wakers.len(), 0);
}

#[test]
fn reset_and_timeout_resolve_as_data() {
    let mut rt = Runtime::start();
    let reset_host = rt.add_endpoint(Script {
        refused: false,
        response: b"partial".to_vec(),
        fault: Fault::Reset,
    });
    let timeout_host = rt.add_endpoint(Script {
        refused: false,
        response: Vec::new(),
        fault: Fault::TimedOut,
    });
    let mut ex = Executor::new(&mut rt);
    let a = ex.spawn(
        &mut rt,
        Task::Leaf(LeafFuture::new(Request { host: reset_host, payload: Vec::new() })),
    );
    let b = ex.spawn(
        &mut rt,
        Task::Leaf(LeafFuture::new(Request { host: timeout_host, payload: Vec::new() })),
    );
    let reports = drive(&mut ex, &mut rt);
    assert_eq!(reports.len(), 2);
    for (id, outcomes) in reports {
        if id == a {
            assert!(matches!(outcomes[0], Outcome::ConnectionReset));
        } else {
            assert_eq!(id, b);
            assert!(matches!(outcomes[0], Outcome::TimedOut));
        }
    }
}

#[test]
fn join_resolves_only_after_every_child() {
    let mut rt = Runtime::start();
    let host_a = rt.add_endpoint(accepting(b"aaaa"));
    let host_b = rt.add_endpoint(accepting(b"bb"));
    let q = rt.new_queue();
    let waker = Waker { queue: q, task: 0 };
    let mut join = JoinFuture::new(vec![
        Request { host: host_a, payload: b"ra".to_vec() },
        Request { host: host_b, payload: b"rb".to_vec() },
    ]);
    // First poll: both children connect, write and suspend.
    assert!(matches!(join.poll(&waker, &mut rt), PollResult::Pending));
    // The first child's stream finishes; the second stays open.
    rt.deliver(0, 1024);
    rt.finish(0);
    assert!(matches!(join.poll(&waker, &mut rt), PollResult::Pending));
    // With one child pending the join keeps reporting pending, indefinitely.
    assert!(matches!(join.poll(&waker, &mut rt), PollResult::Pending));
    assert!(matches!(join.poll(&waker, &mut rt), PollResult::Pending));
    // Once the last child's stream finishes, the join resolves, in order.
    rt.deliver(1, 1024);
    rt.finish(1);
    match join.poll(&waker, &mut rt) {
        PollResult::Ready(outs) => {
            assert_eq!(outs.len(), 2);
            match (&outs[0], &outs[1]) {
                (Outcome::Payload(a), Outcome::Payload(b)) => {
                    assert_eq!(a, &b"aaaa".to_vec());
                    assert_eq!(b, &b"bb".to_vec());
                },
                other => panic!("expected two payloads, got {:?}", other),
            }
        },
        PollResult::Pending => panic!("join must resolve once all children have"),
    }
}

#[test]
fn two_sequential_composites_complete_end_to_end() {
    let mut rt = Runtime::start();
    let host_a = rt.add_endpoint(accepting(b"response from a"));
    let host_b = rt.add_endpoint(accepting(b"response from b"));
    let mut ex = Executor::new(&mut rt);
    let a = ex.spawn(
        &mut rt,
        Task::Sequence(SeqFuture::new(vec![Request { host: host_a, payload: b"qa".to_vec() }])),
    );
    let b = ex.spawn(
        &mut rt,
        Task::Sequence(SeqFuture::new(vec![Request { host: host_b, payload: b"qb".to_vec() }])),
    );
    let reports = drive(&mut ex, &mut rt);
    assert_eq!(reports.len(), 2);
    assert_eq!(ex.task_count(), 0);
    for (id, outcomes) in reports {
        let want: &[u8] = if id == a {
            b"response from a"
        } else {
            assert_eq!(id, b);
            b"response from b"
        };
        match &outcomes[0] {
            Outcome::Payload(p) => assert_eq!(p, &want.to_vec(), "fully read up to end-of-stream"),
            other => panic!("expected a payload, got {:?}", other),
        }
    }
}

#[test]
fn sequential_composite_runs_its_phases_in_order() {
    let mut rt = Runtime::start();
    let first = rt.add_endpoint(accepting(b"first"));
    let second = rt.add_endpoint(accepting(b"second"));
    let mut ex = Executor::new(&mut rt);
    ex.spawn(
        &mut rt,
        Task::Sequence(SeqFuture::new(vec![
            Request { host: first, payload: Vec::new() },
            Request { host: second, payload: Vec::new() },
        ])),
    );
    let reports = drive(&mut ex, &mut rt);
    assert_eq!(reports.len(), 1);
    let outcomes = &reports[0].1;
    assert_eq!(outcomes.len(), 2);
    match (&outcomes[0], &outcomes[1]) {
        (Outcome::Payload(a), Outcome::Payload(b)) => {
            assert_eq!(a, &b"first".to_vec());
            assert_eq!(b, &b"second".to_vec());
        },
        other => panic!("expected two payloads, got {:?}", other),
    }
}

#[test]
fn refused_connection_resolves_immediately_without_registering() {
    let mut rt = Runtime::start();
    let host = rt.add_endpoint(refusing());
    let q = rt.new_queue();
    let waker = Waker { queue: q, task: 0 };
    let mut leaf = LeafFuture::new(Request { host, payload: b"never sent".to_vec() });
    match leaf.poll(&waker, &mut rt) {
        LeafPoll::Ready(Outcome::ConnectionFailure) => {},
        other => panic!("expected the failure sentinel on first poll, got {:?}", other),
    }
    // Nothing was registered, no stream was opened, no waker was stored.
    assert_eq!(rt.reactor.poller.registry().watches.len(), 0);
    assert_eq!(rt.net.streams.len(), 0);
    assert_eq!(rt.reactor.wakers.len(), 0);
}

#[test]
fn empty_response_with_clean_close_yields_an_empty_payload() {
    let mut rt = Runtime::start();
    let host = rt.add_endpoint(accepting(b""));
    let mut ex = Executor::new(&mut rt);
    ex.spawn(&mut rt, Task::Leaf(LeafFuture::new(Request { host, payload: Vec::new() })));
    let reports = drive(&mut ex, &mut rt);
    assert_eq!(reports.len(), 1);
    match &reports[0].1[0] {
        Outcome::Payload(p) => assert!(p.is_empty()),
        other => panic!("expected an empty payload, got {:?}", other),
    }
}

#[test]
fn readiness_travels_from_delivery_through_dispatch_to_resumption() {
    let mut rt = Runtime::start();
    let host = rt.add_endpoint(accepting(b"ok"));
    let mut ex = Executor::new(&mut rt);
    let id = ex.spawn(&mut rt, Task::Leaf(LeafFuture::new(Request { host, payload: Vec::new() })));
    // First run: the leaf connects, registers and suspends; nothing resolves.
    assert!(ex.run(&mut rt).is_empty());
    assert_eq!(ex.task_count(), 1);
    // The worker is parked. Bytes arrive and the stream closes: the kernel
    // model queues readiness, and one reactor pass wakes the stored waker.
    rt.deliver(0, 1024);
    rt.finish(0);
    let delivered = rt.dispatch();
    assert!(delivered >= 1);
    // The wake enqueued the task id, so the re-entered run resolves it.
    let results = ex.run(&mut rt);
    assert_eq!(results.len(), 1);
    assert_eq!(results[0].id, id);
    match &results[0].outcomes[0] {
        Outcome::Payload(p) => assert_eq!(p, &b"ok".to_vec()),
        other => panic!("expected a payload, got {:?}", other),
    }
    assert_eq!(ex.task_count(), 0);
}

#[test]
fn drain_rule_matches_the_verified_read_loop() {
    assert!(matches!(drain_decision(&ReadEvent::End), DrainAction::Finish));
    assert!(matches!(drain_decision(&ReadEvent::Data), DrainAction::Continue));
    assert!(matches!(drain_decision(&ReadEvent::WouldBlock), DrainAction::Suspend));
    assert!(matches!(drain_decision(&ReadEvent::Failed), DrainAction::Abort));
}

#[test]
fn unknown_host_counts_as_a_connection_failure() {
    let mut rt = Runtime::start();
    let mut ex = Executor::new(&mut rt);
    ex.spawn(&mut rt, Task::Leaf(LeafFuture::new(Request { host: 77, payload: Vec::new() })));
    let reports = drive(&mut ex, &mut rt);
    assert_eq!(reports.len(), 1);
    assert!(matches!(reports[0].1[0], Outcome::ConnectionFailure));
}
