use crdt_sync::lamport_clock::LamportClock;

#[test]
fn new_clock_starts_at_zero() {
    let c = LamportClock::new();
    assert_eq!(c.time(), 0);
}

#[test]
fn default_clock_starts_at_zero() {
    assert_eq!(LamportClock::default(), LamportClock::new());
}

#[test]
fn tick_increments_and_returns_new_time() {
    let mut c = LamportClock::new();
    assert_eq!(c.tick(), 1);
    assert_eq!(c.tick(), 2);
    assert_eq!(c.time(), 2);
}

#[test]
fn update_advances_past_received_timestamp() {
    let mut c = LamportClock::new();
    c.update(5);
    assert_eq!(c.time(), 6);
}

#[test]
fn update_does_not_go_backwards() {
    let mut c = LamportClock::new();
    c.tick();
    c.tick();
    c.tick();
    c.update(1);
    assert_eq!(c.time(), 4);
}

#[test]
fn tick_after_update_is_ordered_after_received() {
    let mut sender = LamportClock::new();
    let mut receiver = LamportClock::new();

    let ts = sender.tick();
    receiver.update(ts);
    let ts2 = receiver.tick();

    assert!(ts2 > ts);
}

#[test]
fn causal_ordering_across_three_nodes() {
    let mut a = LamportClock::new();
    let mut b = LamportClock::new();
    let mut c = LamportClock::new();

    let ts_a1 = a.tick();
    b.update(ts_a1);
    let ts_b1 = b.tick();
    c.update(ts_b1);
    let ts_c1 = c.tick();

    assert!(ts_c1 > ts_b1);
    assert!(ts_b1 > ts_a1);
}

#[test]
fn concurrent_events_may_have_equal_timestamps() {
    let mut a = LamportClock::new();
    let mut b = LamportClock::new();

    let ts_a = a.tick();
    let ts_b = b.tick();

    assert_eq!(ts_a, ts_b);
}

#[test]
fn lamport_clock_serialise_and_deserialise() {
    let mut c = LamportClock::new();
    c.tick();
    c.tick();
    let json = serde_json::to_string(&c.time()).unwrap();
    let c2 = LamportClock::at(serde_json::from_str(&json).unwrap());
    assert_eq!(c, c2);
}

#[test]
fn exact_value_after_a_history() {
    let mut c = LamportClock::new();
    c.tick();
    c.update(10);
    c.tick();
    c.update(3);
    assert_eq!(c.time(), 13);
}

#[test]
fn clock_reaches_the_greatest_value() {
    let mut c = LamportClock::at(u64::MAX - 1);
    assert_eq!(c.tick(), u64::MAX);
    let mut d = LamportClock::new();
    d.update(u64::MAX - 1);
    assert_eq!(d.time(), u64::MAX);
}

#[test]
fn clone_is_at_the_same_time() {
    let clock = LamportClock::at(7);
    assert_eq!(clock.clone().time(), 7);
    assert_eq!(clock.clone(), clock);
}
