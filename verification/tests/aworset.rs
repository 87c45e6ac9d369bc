use state_crdt::aworset::AWORSet;
use state_crdt::gcounter::Convergent;

const REPLICA_1: u64 = 123;
const REPLICA_2: u64 = 456;
const REPLICA_3: u64 = 789;

#[test]
fn aworset_simple() {
    let mut s1 = AWORSet::new(REPLICA_1);

    assert!(!s1.contains("foo"));
    s1.add("foo");
    assert!(s1.contains("foo"));
}

#[test]
fn aworset_remove_after_add() {
    let mut s1 = AWORSet::new(REPLICA_1);

    s1.add("foo");
    assert!(s1.contains("foo"));

    s1.remove("foo");
    assert!(!s1.contains("foo"));
}

#[test]
fn aworset_merge_adds_converge() {
    let mut s1 = AWORSet::new(REPLICA_1);
    let mut s2 = AWORSet::new(REPLICA_2);

    s1.add("foo");
    s2.add("bar");

    s1.merge(s2.clone());
    s2.merge(s1.clone());

    assert!(s1.contains("foo"));
    assert!(s1.contains("bar"));
    assert!(s2.contains("foo"));
    assert!(s2.contains("bar"));
}

#[test]
fn aworset_merge_with_removal() {
    let mut s1 = AWORSet::new(REPLICA_1);
    let mut s2 = AWORSet::new(REPLICA_2);

    s1.add("foo");
    s2.add("foo");

    // remove from one replica
    s1.remove("foo");

    s1.merge(s2.clone());

    // should still exist because set2 added it independently
    assert!(s1.contains("foo"));

    s2.merge(s1.clone());
    assert!(s2.contains("foo"));

    // now remove from set2 as well
    s2.remove("foo");
    s1.merge(s2.clone());

    assert!(!s1.contains("foo"));
    assert!(!s2.contains("foo"));
}

#[test]
fn aworset_idempotent_merge() {
    let mut set1 = AWORSet::new(REPLICA_1);
    let mut set2 = AWORSet::new(REPLICA_2);

    set1.add("grape");
    set2.merge(set1.clone());

    let snapshot = set2.clone();
    set2.merge(set1.clone()); // merge again should not change anything

    assert_eq!(set2, snapshot);
}

#[test]
fn aworset_commutativity_and_associativity_of_merge() {
    let mut a = AWORSet::new(REPLICA_1);
    let mut b = AWORSet::new(REPLICA_2);
    let mut c = AWORSet::new(REPLICA_3);

    a.add("kiwi");
    b.add("lemon");
    c.add("mango");

    // (a merge b) merge c
    let mut ab = a.clone();
    ab.merge(b.clone());
    ab.merge(c.clone());

    // a merge (b merge c)
    let mut bc = b.clone();
    bc.merge(c.clone());
    let mut abc = a.clone();
    abc.merge(bc.clone());

    assert_eq!(ab, abc);
}

#[test]
fn aworset_delta_round_trip_matches_full_merge() {
    // replicas start equal
    let mut a = AWORSet::new(REPLICA_1);
    let mut b = AWORSet::new(REPLICA_2);
    a.add("pear");
    b.merge(a.clone());
    let _ = a.split_delta();
    let _ = b.split_delta();

    // arbitrary operations on a
    a.add("plum");
    a.remove("pear");
    a.add("fig");

    // one peer folds the delta in, the other merges the full state
    let mut via_delta = b.clone();
    via_delta.merge_delta(a.split_delta());
    let mut via_full = b.clone();
    via_full.merge(a.clone());

    for key in ["pear", "plum", "fig"] {
        assert_eq!(via_delta.contains(key), via_full.contains(key));
    }
    assert!(via_delta.contains("plum"));
    assert!(via_delta.contains("fig"));
    assert!(!via_delta.contains("pear"));
}

#[test]
fn aworset_keys_reports_elements() {
    let mut s = AWORSet::new(REPLICA_1);
    s.add("foo");
    s.add("bar");
    s.remove("foo");
    let keys = s.keys();
    assert_eq!(keys, vec!["bar".to_owned()]);
}

#[test]
fn take_delta_on_idle_set_is_none() {
    let mut s = AWORSet::new(REPLICA_1);
    assert!(s.take_delta().is_none());
    s.add("foo");
    assert!(s.take_delta().is_some());
    assert!(s.take_delta().is_none());
}
