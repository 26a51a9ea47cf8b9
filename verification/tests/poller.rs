//! Tests for the readiness-notification model: registration, tokens,
//! timeouts and deregistration.

use eclient::poll::{Poll, EDGE_TRIGGERED, READABLE};

#[test]
fn wait_returns_registered_token() {
    let mut p = Poll::new().unwrap();
    p.registry_mut().register(7, 42, READABLE | EDGE_TRIGGERED).unwrap();
    p.notify(7, READABLE);
    let mut events = Vec::new();
    p.poll(&mut events, Some(0)).unwrap();
    assert_eq!(events.len(), 1);
    assert_eq!(events[0].token(), 42);
    assert_eq!(events[0].events, READABLE);
}

#[test]
fn wait_returns_every_token_in_arrival_order() {
    let mut p = Poll::new().unwrap();
    p.registry_mut().register(3, 30, READABLE).unwrap();
    p.registry_mut().register(4, 40, READABLE).unwrap();
    p.notify(4, READABLE);
    p.notify(3, READABLE);
    let mut events = Vec::new();
    p.poll(&mut events, None).unwrap();
    assert_eq!(events.len(), 2);
    assert_eq!(events[0].token(), 40);
    assert_eq!(events[1].token(), 30);
}

#[test]
fn expired_timeout_with_no_ready_sources_is_empty_not_error() {
    let mut p = Poll::new().unwrap();
    p.registry_mut().register(1, 11, READABLE).unwrap();
    let mut events = vec![eclient::poll::Event { events: 0, data: 999 }];
    let r = p.poll(&mut events, Some(0));
    assert!(r.is_ok());
    assert!(events.is_empty());
}

#[test]
fn wait_is_edge_triggered_and_drains_arrivals() {
    let mut p = Poll::new().unwrap();
    p.registry_mut().register(2, 20, READABLE).unwrap();
    p.notify(2, READABLE);
    let mut events = Vec::new();
    p.poll(&mut events, Some(0)).unwrap();
    assert_eq!(events.len(), 1);
    p.poll(&mut events, Some(0)).unwrap();
    assert!(events.is_empty());
}

#[test]
fn deregistered_source_is_not_reported() {
    let mut p = Poll::new().unwrap();
    p.registry_mut().register(5, 50, READABLE).unwrap();
    p.notify(5, READABLE);
    let found = p.registry_mut().deregister(5);
    assert!(found);
    let mut events = Vec::new();
    p.poll(&mut events, Some(0)).unwrap();
    assert!(events.is_empty());
}

#[test]
fn duplicate_registration_is_refused() {
    let mut p = Poll::new().unwrap();
    p.registry_mut().register(6, 60, READABLE).unwrap();
    assert!(p.registry_mut().register(6, 61, READABLE).is_err());
    assert_eq!(p.registry_mut().lookup(6), Some(60));
}

#[test]
fn deregistering_an_unknown_source_is_harmless() {
    let mut p = Poll::new().unwrap();
    let found = p.registry_mut().deregister(123);
    assert!(!found);
    assert!(p.registry().lookup(123).is_none());
}
