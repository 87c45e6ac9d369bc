use state_crdt::gcounter::Convergent;
use state_crdt::orset::ORSet;

const REPLICA_1: u64 = 123;
const REPLICA_2: u64 = 456;
const REPLICA_3: u64 = 789;

#[test]
fn orset_simple() {
    let mut s1 = ORSet::new(REPLICA_1);

    assert!(!s1.contains("foo"));
    s1.add("foo");
    assert!(s1.contains("foo"));
}

#[test]
fn orset_remove_after_add() {
    let mut s1 = ORSet::new(REPLICA_1);

    s1.add("foo");
    assert!(s1.contains("foo"));

    s1.remove("foo");
    assert!(!s1.contains("foo"));
}

#[test]
fn remove_nonexistent() {
    let mut s1 = ORSet::new(REPLICA_1);

    s1.remove("foo");
    assert!(!s1.contains("foo"));
}

#[test]
fn orset_merge_adds_converge() {
    let mut s1 = ORSet::new(REPLICA_1);
    let mut s2 = ORSet::new(REPLICA_2);

    s1.add("foo");
    s2.add("bar");

    s1.merge(s2.clone());
    s2.merge(s1.clone());

    assert!(s1.contains("foo"));
    assert!(s1.contains("bar"));
    assert!(s2.contains("foo"));
    assert!(s2.contains("bar"));
}

#[test]
fn orset_merge_with_removal() {
    let mut s1 = ORSet::new(REPLICA_1);
    let mut s2 = ORSet::new(REPLICA_2);

    s1.add("foo");
    s2.add("foo");

    // remove from one replica
    s1.remove("foo");

    s1.merge(s2.clone());

    // should still exist because set2 added it independently
    assert!(s1.contains("foo"));

    s2.merge(s1.clone());
    assert!(s2.contains("foo"));

    // now remove from set2 as well
    s2.remove("foo");
    s1.merge(s2.clone());

    assert!(!s1.contains("foo"));
    assert!(!s2.contains("foo"));
}

#[test]
fn orset_idempotent_merge() {
    let mut set1 = ORSet::new(REPLICA_1);
    let mut set2 = ORSet::new(REPLICA_2);

    set1.add("grape");
    set2.merge(set1.clone());

    let snapshot = set2.clone();
    set2.merge(set1.clone()); // merge again should not change anything
    assert_eq!(set2, snapshot);
}

#[test]
fn orset_commutativity_and_associativity_of_merge() {
    let mut a = ORSet::new(REPLICA_1);
    let mut b = ORSet::new(REPLICA_2);
    let mut c = ORSet::new(REPLICA_3);

    a.add("kiwi");
    b.add("lemon");
    c.add("mango");

    // (a merge b) merge c
    let mut ab = a.clone();
    ab.merge(b.clone());
    ab.merge(c.clone());

    // a merge (b merge c)
    let mut bc = b.clone();
    bc.merge(c.clone());
    let mut abc = a.clone();
    abc.merge(bc.clone());

    assert_eq!(ab, abc);
}
