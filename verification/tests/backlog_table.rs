use mpudp::backlog::{Backlog, EphemeralVec, PushResult};
use mpudp::message::Session;

const SEC: u64 = 1_000_000_000;
const TIMEOUT: u64 = 60 * SEC;

#[test]
fn assembly_completes_in_order() {
    let mut b: Backlog<u32> = Backlog::new(4);
    let s = Session::new(1);
    assert_eq!(b.handle(s, 10, 3, 0), None);
    assert_eq!(b.handle(s, 11, 3, 1), None);
    assert_eq!(b.handle(s, 12, 3, 2), Some(vec![10, 11, 12]));
}

#[test]
fn assembly_completes_out_of_order() {
    // the same session assembled from each arrival order of its two values
    for (first, second) in [(10u32, 11u32), (11, 10)] {
        let mut b: Backlog<u32> = Backlog::new(4);
        let s = Session::new(7);
        assert_eq!(b.handle(s, first, 2, 0), None);
        assert_eq!(b.handle(s, second, 2, 0), Some(vec![first, second]));
    }
}

#[test]
fn assembly_of_one_completes_at_once() {
    let mut b: Backlog<u32> = Backlog::new(4);
    assert_eq!(b.handle(Session::new(5), 99, 1, 0), Some(vec![99]));
    // the entry never rested in the table, so the slot is still free
    assert_eq!(b.handle(Session::new(6), 1, 2, 0), None);
    assert_eq!(b.handle(Session::new(6), 2, 2, 0), Some(vec![1, 2]));
}

#[test]
fn completion_removes_the_entry() {
    let mut b: Backlog<u32> = Backlog::new(4);
    let s = Session::new(3);
    assert_eq!(b.handle(s, 1, 2, 0), None);
    assert_eq!(b.handle(s, 2, 2, 0), Some(vec![1, 2]));
    // a later value of the same session starts a fresh assembly
    assert_eq!(b.handle(s, 3, 2, 0), None);
    assert_eq!(b.handle(s, 4, 2, 0), Some(vec![3, 4]));
}

#[test]
fn interleaved_sessions_do_not_mix() {
    let mut b: Backlog<u32> = Backlog::new(4);
    let s1 = Session::new(1);
    let s2 = Session::new(2);
    assert_eq!(b.handle(s1, 10, 2, 0), None);
    assert_eq!(b.handle(s2, 20, 2, 0), None);
    assert_eq!(b.handle(s2, 21, 2, 0), Some(vec![20, 21]));
    assert_eq!(b.handle(s1, 11, 2, 0), Some(vec![10, 11]));
}

#[test]
fn session_cap_drops_new_sessions() {
    let mut b: Backlog<u32> = Backlog::new(1);
    let s1 = Session::new(1);
    let s2 = Session::new(2);
    assert_eq!(b.handle(s1, 10, 2, 0), None);
    // the table is full: the second session's first datagram is dropped
    assert_eq!(b.handle(s2, 20, 2, 0), None);
    assert_eq!(b.handle(s2, 21, 2, 0), None);
    // the first session was not perturbed
    assert_eq!(b.handle(s1, 11, 2, 5), Some(vec![10, 11]));
}

#[test]
fn sweep_frees_the_table_after_timeout() {
    let mut b: Backlog<u32> = Backlog::new(1);
    let s1 = Session::new(1);
    let s2 = Session::new(2);
    assert_eq!(b.handle(s1, 10, 2, 0), None);
    assert_eq!(b.handle(s2, 20, 2, 0), None);
    // just after the timeout the janitor sweeps the stale entry
    b.clean(TIMEOUT + 1, TIMEOUT);
    assert_eq!(b.handle(s2, 20, 2, TIMEOUT + 1), None);
    assert_eq!(b.handle(s2, 21, 2, TIMEOUT + 1), Some(vec![20, 21]));
    // the swept session must start over
    assert_eq!(b.handle(s1, 11, 2, TIMEOUT + 1), None);
}

#[test]
fn sweep_keeps_entries_within_timeout() {
    let mut b: Backlog<u32> = Backlog::new(4);
    let s = Session::new(1);
    assert_eq!(b.handle(s, 10, 2, 0), None);
    // exactly at the timeout the entry survives: the bound is strict
    b.clean(TIMEOUT, TIMEOUT);
    assert_eq!(b.handle(s, 11, 2, TIMEOUT), Some(vec![10, 11]));
}

#[test]
fn sweep_refreshed_by_insert() {
    let mut b: Backlog<u32> = Backlog::new(4);
    let s = Session::new(1);
    assert_eq!(b.handle(s, 10, 3, 0), None);
    assert_eq!(b.handle(s, 11, 3, 30 * SEC), None);
    // the second insert refreshed the timestamp, so the entry survives
    b.clean(61 * SEC, TIMEOUT);
    assert_eq!(b.handle(s, 12, 3, 61 * SEC), Some(vec![10, 11, 12]));
}

#[test]
fn ephemeral_vec_push_and_timeout() {
    let e: EphemeralVec<u32> = EphemeralVec::new(2, 5);
    assert!(!e.timed_out(5 + TIMEOUT, TIMEOUT));
    assert!(e.timed_out(5 + TIMEOUT + 1, TIMEOUT));
    let e = match e.push(1, 9) {
        PushResult::Incomplete(e) => e,
        PushResult::Complete(_) => panic!("assembly of two cannot complete on one value"),
    };
    // the insert refreshed the timestamp
    assert!(!e.timed_out(9 + TIMEOUT, TIMEOUT));
    match e.push(2, 11) {
        PushResult::Complete(l) => assert_eq!(l, vec![1, 2]),
        PushResult::Incomplete(_) => panic!("assembly of two must complete on the second value"),
    }
}
