use state_crdt::awormap::AWORMap;
use state_crdt::gcounter::{Convergent, GCounter};
use state_crdt::pncounter::PNCounter;

const REPLICA_1: u64 = 123;
const REPLICA_2: u64 = 456;

#[test]
fn basic_sync() {
    let mut m1 = AWORMap::new(REPLICA_1);
    m1.insert("foo".to_owned(), GCounter::new());
    m1.get_mut("foo").inc(REPLICA_1);
    assert_eq!(m1.get("foo").unwrap().value(), 1);

    let mut m2 = AWORMap::new(REPLICA_2);
    m2.insert("foo".to_owned(), GCounter::new());
    m2.get_mut("foo").inc(REPLICA_2);
    assert_eq!(m2.get("foo").unwrap().value(), 1);

    m2.merge(m1.clone());
    assert_eq!(m2.get("foo").unwrap().value(), 2);
}

#[test]
fn can_remove_value() {
    let mut m1 = AWORMap::new(REPLICA_1);
    m1.insert("foo".to_owned(), GCounter::new());
    m1.remove("foo");
    assert!(m1.get("foo").is_none());
}

#[test]
fn merge_after_removal() {
    let mut m1 = AWORMap::new(REPLICA_1);
    m1.insert("foo".to_owned(), GCounter::new());
    m1.remove("foo");

    let mut m2 = AWORMap::new(REPLICA_2);
    m2.insert("foo".to_owned(), GCounter::new());
    m2.get_mut("foo").inc(REPLICA_2);

    m2.merge(m1.clone());
    assert_eq!(m2.get("foo").unwrap().value(), 1);
}

#[test]
fn basic_delta_sync() {
    let mut m1 = AWORMap::new(REPLICA_1);
    m1.insert("foo".to_owned(), GCounter::new());
    m1.get_mut("foo").inc(REPLICA_1);
    assert_eq!(m1.get("foo").unwrap().value(), 1);

    let mut m2 = AWORMap::new(REPLICA_2);
    m2.insert("bar".to_owned(), GCounter::new());
    m2.get_mut("bar").inc(REPLICA_2);
    assert_eq!(m2.get("bar").unwrap().value(), 1);

    m1.merge_delta(m2.take_delta().unwrap());
    assert_eq!(m1.get("foo").unwrap().value(), 1);
    assert_eq!(m1.get("bar").unwrap().value(), 1);
}

#[test]
fn nested_counters_converge() {
    // concurrent mutations of the counter under one key converge to the
    // counter merge
    let mut m1 = AWORMap::new(REPLICA_1);
    m1.insert("hits".to_owned(), PNCounter::new());
    m1.get_mut("hits").inc(REPLICA_1);
    m1.get_mut("hits").inc(REPLICA_1);

    let mut m2 = AWORMap::new(REPLICA_2);
    m2.insert("hits".to_owned(), PNCounter::new());
    m2.get_mut("hits").inc(REPLICA_2);
    m2.get_mut("hits").dec(REPLICA_2);
    m2.get_mut("hits").dec(REPLICA_2);

    let mut a = m1.clone();
    a.merge(m2.clone());
    let mut b = m2;
    b.merge(m1);

    assert_eq!(a.get("hits").unwrap().value(), 1);
    assert_eq!(b.get("hits").unwrap().value(), 1);
}

#[test]
fn reinsert_after_remove_wins() {
    let mut m1 = AWORMap::new(REPLICA_1);
    m1.insert("foo".to_owned(), GCounter::new());
    m1.remove("foo");

    let mut m2 = AWORMap::new(REPLICA_2);
    m2.insert("foo".to_owned(), GCounter::new());
    m2.get_mut("foo").inc(REPLICA_2);
    m2.get_mut("foo").inc(REPLICA_2);

    // the independent insert survives the other replica's removal
    let mut merged = m1.clone();
    merged.merge(m2.clone());
    assert_eq!(merged.get("foo").unwrap().value(), 2);
}

#[test]
fn take_delta_on_idle_map_is_none() {
    let mut m: AWORMap<GCounter> = AWORMap::new(REPLICA_1);
    assert!(m.take_delta().is_none());
    m.insert("foo".to_owned(), GCounter::new());
    assert!(m.take_delta().is_some());
}
