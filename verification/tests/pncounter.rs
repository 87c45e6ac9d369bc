use state_crdt::gcounter::Convergent;
use state_crdt::pncounter::PNCounter;

const CLIENT_1: u64 = 100;
const CLIENT_2: u64 = 200;

#[test]
fn pncounter_counts_up_and_down() {
    let mut c1 = PNCounter::new();
    c1.inc(CLIENT_1);
    c1.inc(CLIENT_2);
    c1.inc(CLIENT_2);

    let mut c2 = PNCounter::new();
    c2.inc(CLIENT_2);
    c2.dec(CLIENT_1);

    c1.merge(c2);

    assert_eq!(c1.value(), 2);
}

#[test]
fn pncounter_value_may_be_negative() {
    let mut c = PNCounter::new();
    c.dec(CLIENT_1);
    c.dec(CLIENT_1);
    c.inc(CLIENT_2);
    assert_eq!(c.value(), -1);
}

#[test]
fn pncounter_delta_is_snapshot() {
    let mut c1 = PNCounter::new();
    c1.inc(CLIENT_1);
    c1.dec(CLIENT_2);

    let mut c2 = PNCounter::new();
    c2.merge_delta(c1.take_delta().unwrap());
    assert_eq!(c2.value(), 0);
    c2.inc(CLIENT_2);
    assert_eq!(c2.value(), 1);
}
