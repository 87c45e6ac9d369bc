use state_crdt::vclock::VClock;
use std::cmp::Ordering;

const REPLICA_1: u64 = 123;
const REPLICA_2: u64 = 456;

#[test]
fn vclock_merge_1() {
    let mut clock1 = VClock::new();
    let mut clock2 = VClock::new();

    // clock1 does one increment, clock2 does two increments
    clock1.inc(REPLICA_1);
    clock2.inc(REPLICA_2);
    clock2.inc(REPLICA_2);

    // Now, merge clock2 into clock1
    clock1.merge(&clock2);

    // clock1 should now have the value 1 from node1 and 2 from node2
    assert_eq!(clock1.get(&REPLICA_1), 1);
    assert_eq!(clock1.get(&REPLICA_2), 2);
}

#[test]
fn vclock_merge_2() {
    let mut clock1 = VClock::new();
    let mut clock2 = VClock::new();

    // both clocks increment the same replica
    clock1.inc(REPLICA_1);
    clock2.inc(REPLICA_1);

    // Merge clock2 into clock1
    clock1.merge(&clock2);

    assert_eq!(clock1.get(&REPLICA_1), 1);
}

#[test]
fn compare_1() {
    let mut clock1 = VClock::new();
    let mut clock2 = VClock::new();

    assert_eq!(clock1.partial_cmp(&clock2), Some(Ordering::Equal));
    assert_eq!(clock1, clock2);

    assert_eq!(clock1.inc(REPLICA_1), 1);

    assert_eq!(clock1.partial_cmp(&clock2), Some(Ordering::Greater));
    assert_ne!(clock1, clock2);

    assert_eq!(clock2.inc(REPLICA_1), 1);

    assert_eq!(clock1.partial_cmp(&clock2), Some(Ordering::Equal));
    assert_eq!(clock1, clock2);
}

#[test]
fn compare_2() {
    let mut clock1 = VClock::new();
    let mut clock2 = VClock::new();

    assert_eq!(clock1.inc(REPLICA_1), 1);
    assert_eq!(clock1.inc(REPLICA_1), 2);
    assert_eq!(clock1.inc(REPLICA_2), 1);

    clock2.inc(REPLICA_1);
    clock2.inc(REPLICA_2);

    assert_eq!(clock1.partial_cmp(&clock2), Some(Ordering::Greater));
    assert_ne!(clock1, clock2);
}

#[test]
fn compare_3() {
    let mut clock1 = VClock::new();
    let mut clock2 = VClock::new();

    clock1.inc(REPLICA_1);
    clock1.inc(REPLICA_2);

    clock2.inc(REPLICA_1);
    clock2.inc(REPLICA_1);
    clock2.inc(REPLICA_2);

    assert_eq!(clock1.partial_cmp(&clock2), Some(Ordering::Less));
    assert_ne!(clock1, clock2);
}

#[test]
fn compare_4() {
    let mut clock1 = VClock::new();
    let mut clock2 = VClock::new();

    clock1.inc(REPLICA_1);
    clock2.inc(REPLICA_2);

    assert_eq!(clock1.partial_cmp(&clock2), None);
    assert_ne!(clock1, clock2);
}

#[test]
fn gtc_greater_or_concurrent() {
    let mut clock1 = VClock::new();
    let mut clock2 = VClock::new();

    // concurrent clocks are "greater or concurrent" in both directions
    clock1.inc(REPLICA_1);
    clock2.inc(REPLICA_2);
    assert!(clock1.gtc(&clock2));
    assert!(clock2.gtc(&clock1));

    // a strictly greater clock is, a strictly smaller one is not
    clock1.merge(&clock2);
    clock1.inc(REPLICA_1);
    assert!(clock1.gtc(&clock2));
    assert!(!clock2.gtc(&clock1));

    // equal clocks are not
    let clock3 = clock1.clone();
    assert!(!clock1.gtc(&clock3));
}

#[test]
fn merge_is_commutative() {
    let mut clock1 = VClock::new();
    let mut clock2 = VClock::new();

    clock1.inc(REPLICA_1);
    clock1.inc(REPLICA_1);
    clock2.inc(REPLICA_2);

    let mut a = clock1.clone();
    a.merge(&clock2);
    let mut b = clock2.clone();
    b.merge(&clock1);

    assert_eq!(a.get(&REPLICA_1), b.get(&REPLICA_1));
    assert_eq!(a.get(&REPLICA_2), b.get(&REPLICA_2));
    assert_eq!(a.partial_cmp(&b), Some(Ordering::Equal));
}

#[test]
fn eq_is_model_equality() {
    // equality ignores insertion order: it compares the models
    let mut a = VClock::new();
    a.inc(REPLICA_1);
    a.inc(REPLICA_2);
    let mut b = VClock::new();
    b.inc(REPLICA_2);
    b.inc(REPLICA_1);
    assert_eq!(a, b);
    assert_eq!(a.partial_cmp(&b), Some(Ordering::Equal));
}
