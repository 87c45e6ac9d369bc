use state_crdt::common::ExtendWith;
use state_crdt::gcounter::{Convergent, GCounter};

const REPLICA_1: u64 = 123;
const REPLICA_2: u64 = 456;

#[test]
fn gcounter_initial_value_is_zero() {
    let counter = GCounter::new();
    assert_eq!(counter.value(), 0);
}

#[test]
fn gcounter_increment() {
    let mut counter = GCounter::new();
    counter.inc(REPLICA_1);
    assert_eq!(counter.value(), 1);
}

#[test]
fn gcounter_merge_1() {
    let mut counter1 = GCounter::new();
    let mut counter2 = GCounter::new();

    // counter1 does one increment, counter2 does two increments
    counter1.inc(REPLICA_1);
    counter2.inc(REPLICA_2);
    counter2.inc(REPLICA_2);

    // Now, merge counter2 into counter1
    counter1.merge(counter2);

    // counter1 should now have the value 1 from node1 and 2 from node2
    assert_eq!(counter1.value(), 3);
}

#[test]
fn gcounter_merge_2() {
    let mut counter1 = GCounter::new();
    let mut counter2 = GCounter::new();

    // both counters increment the same replica
    counter1.inc(REPLICA_1);
    counter2.inc(REPLICA_1);

    // Merge counter2 into counter1
    counter1.merge(counter2);

    assert_eq!(counter1.value(), 1);
}

#[test]
fn gcounter_merge_3() {
    let mut counter1 = GCounter::new();
    let mut counter2 = GCounter::new();

    // both counters increment the same replica
    counter1.inc(REPLICA_1);
    counter2.inc(REPLICA_1);
    counter2.inc(REPLICA_1);

    // Merge counter2 into counter1
    counter1.merge(counter2);

    assert_eq!(counter1.value(), 2);
}

#[test]
fn gcounter_merge_is_idempotent() {
    let mut counter1 = GCounter::new();
    let mut counter2 = GCounter::new();

    counter1.inc(REPLICA_1);
    counter2.inc(REPLICA_2);
    counter2.inc(REPLICA_2);

    counter1.merge(counter2.clone());
    let after_once = counter1.value();
    counter1.merge(counter2);
    assert_eq!(counter1.value(), after_once);
}

#[test]
fn gcounter_merge_is_commutative() {
    let mut counter1 = GCounter::new();
    let mut counter2 = GCounter::new();

    counter1.inc(REPLICA_1);
    counter2.inc(REPLICA_1);
    counter2.inc(REPLICA_2);

    let mut a = counter1.clone();
    a.merge(counter2.clone());
    let mut b = counter2;
    b.merge(counter1);

    assert_eq!(a.value(), b.value());
    assert_eq!(a.get(&REPLICA_1), b.get(&REPLICA_1));
    assert_eq!(a.get(&REPLICA_2), b.get(&REPLICA_2));
}

#[test]
fn gcounter_keys_lists_each_replica_once() {
    let mut counter = GCounter::new();
    counter.inc(REPLICA_1);
    counter.inc(REPLICA_1);
    counter.inc(REPLICA_2);
    let mut keys = counter.keys();
    keys.sort();
    assert_eq!(keys, vec![REPLICA_1, REPLICA_2]);
}

#[test]
fn gcounter_delta_is_snapshot() {
    let mut counter1 = GCounter::new();
    counter1.inc(REPLICA_1);

    let delta = counter1.take_delta().unwrap();
    assert_eq!(counter1.value(), 1);

    let mut counter2 = GCounter::new();
    counter2.inc(REPLICA_2);
    counter2.merge_delta(delta);
    assert_eq!(counter2.value(), 2);
}

#[test]
fn extend_with_combines_collisions() {
    let mut a: Vec<(u64, u64)> = vec![(1, 5), (2, 7)];
    let b: Vec<(u64, u64)> = vec![(2, 9), (3, 4)];
    ExtendWith::extend_with(&mut a, b, |x: u64, y: u64| if x >= y { x } else { y });
    a.sort();
    assert_eq!(a, vec![(1, 5), (2, 9), (3, 4)]);
}
