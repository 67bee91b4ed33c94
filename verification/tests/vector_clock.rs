use crdt_sync::str_map::StrMap;
use crdt_sync::vector_clock::{VectorClock, VectorTimestamp};

fn at(v: &VectorTimestamp, node: &str) -> u64 {
    v.0.get(node).copied().unwrap_or(0)
}

fn stamp(entries: &[(&str, u64)]) -> VectorTimestamp {
    let mut map = StrMap::new();
    for (node, count) in entries {
        map.insert(node, *count);
    }
    VectorTimestamp(map)
}

#[test]
fn new_clock_has_no_entries() {
    let c = VectorClock::new("A");
    assert_eq!(c.local_time(), 0);
    assert_eq!(c.snapshot(), VectorTimestamp(StrMap::new()));
}

#[test]
fn increment_increases_local_counter() {
    let mut c = VectorClock::new("A");
    let v1 = c.increment();
    assert_eq!(v1.0.get("A").copied().unwrap_or(0), 1);
    let v2 = c.increment();
    assert_eq!(v2.0.get("A").copied().unwrap_or(0), 2);
}

#[test]
fn update_merges_and_increments_local() {
    let mut a = VectorClock::new("A");
    let mut b = VectorClock::new("B");

    let v_a = a.increment();
    b.update(&v_a);

    let snap = b.snapshot();
    assert_eq!(snap.0.get("A").copied().unwrap_or(0), 1);
    assert_eq!(snap.0.get("B").copied().unwrap_or(0), 1);
}

#[test]
fn happened_before_simple_causal_chain() {
    let mut a = VectorClock::new("A");
    let mut b = VectorClock::new("B");

    let v1 = a.increment();
    b.update(&v1);
    let v2 = b.increment();

    assert!(v1.happened_before(&v2));
    assert!(!v2.happened_before(&v1));
}

#[test]
fn concurrent_events_detected() {
    let mut a = VectorClock::new("A");
    let mut b = VectorClock::new("B");

    let v_a = a.increment();
    let v_b = b.increment();

    assert!(!v_a.happened_before(&v_b));
    assert!(!v_b.happened_before(&v_a));
    assert!(v_a.concurrent_with(&v_b));
}

#[test]
fn equal_timestamps_are_not_concurrent() {
    let c = VectorClock::new("A");
    let v = c.snapshot();
    assert!(!v.concurrent_with(&v));
    assert!(!v.happened_before(&v));
}

#[test]
fn transitive_causal_ordering() {
    let mut a = VectorClock::new("A");
    let mut b = VectorClock::new("B");
    let mut c = VectorClock::new("C");

    let v_a = a.increment();
    b.update(&v_a);
    let v_b = b.increment();
    c.update(&v_b);
    let v_c = c.increment();

    assert!(v_a.happened_before(&v_b));
    assert!(v_b.happened_before(&v_c));
    assert!(v_a.happened_before(&v_c));
}

#[test]
fn concurrent_then_merge_is_ordered() {
    let mut a = VectorClock::new("A");
    let mut b = VectorClock::new("B");

    let v_a = a.increment();
    let v_b = b.increment();

    a.update(&v_b);
    let v_a2 = a.increment();

    assert!(v_b.happened_before(&v_a2));
    assert!(v_a.concurrent_with(&v_b));
    assert_eq!(at(&v_a2, "A"), 3);
    assert_eq!(at(&v_a2, "B"), 1);
}

#[test]
fn vector_clock_serialise_and_deserialise() {
    let mut c = VectorClock::new("node-1");
    c.increment();
    c.increment();
    let snap = c.snapshot();

    let mut object = serde_json::Map::new();
    for i in 0..snap.0.len() {
        object.insert(snap.0.key_at(i).to_string(), (*snap.0.value_at(i)).into());
    }
    let json = serde_json::to_string(&object).unwrap();
    assert_eq!(json, "{\"node-1\":2}");

    let read: std::collections::HashMap<String, u64> = serde_json::from_str(&json).unwrap();
    let mut map = StrMap::new();
    for (node, count) in &read {
        map.insert(node, *count);
    }
    let snap2 = VectorTimestamp(map);
    assert_eq!(snap, snap2);
}

#[test]
fn missing_entries_count_as_zero() {
    assert!(stamp(&[]).happened_before(&stamp(&[("A", 1)])));
    assert!(stamp(&[("A", 1)]).happened_before(&stamp(&[("A", 1), ("B", 1)])));
    assert!(!stamp(&[("A", 0)]).happened_before(&stamp(&[])));
    assert!(stamp(&[("A", 0), ("B", 1)]).happened_before(&stamp(&[("B", 2)])));
}

#[test]
fn stamps_with_equal_counters_are_not_concurrent() {
    assert!(!stamp(&[("A", 0)]).concurrent_with(&stamp(&[])));
    assert!(!stamp(&[]).concurrent_with(&stamp(&[("A", 0)])));
    assert!(!stamp(&[("A", 0), ("B", 1)]).concurrent_with(&stamp(&[("B", 1)])));
    assert!(stamp(&[("A", 0), ("B", 1)]).concurrent_with(&stamp(&[("C", 1)])));
}

#[test]
fn order_of_entries_does_not_matter() {
    assert_eq!(stamp(&[("A", 1), ("B", 2)]), stamp(&[("B", 2), ("A", 1)]));
    assert_ne!(stamp(&[("A", 1)]), stamp(&[("A", 2)]));
    assert_ne!(stamp(&[("A", 1)]), stamp(&[("A", 1), ("B", 1)]));
}

#[test]
fn update_takes_the_greater_counters() {
    let mut a = VectorClock::new("A");
    a.update(&stamp(&[("B", 5), ("C", 1)]));
    a.update(&stamp(&[("B", 3), ("C", 4), ("A", 7)]));
    let v = a.snapshot();
    assert_eq!((at(&v, "A"), at(&v, "B"), at(&v, "C")), (8, 5, 4));
    assert_eq!(a.local_time(), 8);
    assert_eq!(a.clone().snapshot(), v);
}
