use state_crdt::aworset::{Dot, DotContext};

const REPLICA_1: u64 = 11;
const REPLICA_2: u64 = 22;

#[test]
fn next_dot_counts_from_one() {
    let mut c = DotContext::new();
    assert_eq!(c.next_dot(REPLICA_1), Dot(REPLICA_1, 1));
    assert_eq!(c.next_dot(REPLICA_1), Dot(REPLICA_1, 2));
    assert_eq!(c.next_dot(REPLICA_2), Dot(REPLICA_2, 1));
    assert!(c.contains(&Dot(REPLICA_1, 2)));
    assert!(!c.contains(&Dot(REPLICA_2, 2)));
}

#[test]
fn compaction_folds_contiguous_dots() {
    let mut c = DotContext::new();
    // a loose dot beyond the clock stays loose
    c.add(Dot(REPLICA_1, 3));
    c.compact();
    assert!(c.contains(&Dot(REPLICA_1, 3)));
    assert!(!c.contains(&Dot(REPLICA_1, 1)));

    // filling the gap folds the whole run into the clock
    c.add(Dot(REPLICA_1, 1));
    c.compact();
    c.add(Dot(REPLICA_1, 2));
    c.compact();
    assert!(c.contains(&Dot(REPLICA_1, 1)));
    assert!(c.contains(&Dot(REPLICA_1, 2)));
    assert!(c.contains(&Dot(REPLICA_1, 3)));
    // the next dot continues after the folded run
    assert_eq!(c.next_dot(REPLICA_1), Dot(REPLICA_1, 4));
}

#[test]
fn merge_unites_histories() {
    let mut c1 = DotContext::new();
    let mut c2 = DotContext::new();
    c1.next_dot(REPLICA_1);
    c2.next_dot(REPLICA_2);
    c2.add(Dot(REPLICA_1, 2));
    c2.compact();

    c1.merge(c2);
    assert!(c1.contains(&Dot(REPLICA_1, 1)));
    assert!(c1.contains(&Dot(REPLICA_1, 2)));
    assert!(c1.contains(&Dot(REPLICA_2, 1)));
    assert!(!c1.contains(&Dot(REPLICA_2, 2)));
}
