use crdt_sync::json::JsonValue;
use crdt_sync::proxy::StateProxy;
use crdt_sync::state_store::StateStore;

fn json<T: serde::Serialize>(value: T) -> JsonValue {
    JsonValue::parse(&serde_json::to_value(value).unwrap().to_string()).unwrap()
}

fn value<T: serde::de::DeserializeOwned>(value: Option<&JsonValue>) -> Option<T> {
    value.and_then(|v| serde_json::from_str(v.text()).ok())
}

fn values<T: serde::de::DeserializeOwned>(values: Vec<&JsonValue>) -> Vec<T> {
    values.iter().filter_map(|v| serde_json::from_str(v.text()).ok()).collect()
}

#[test]
fn set_intercepts_and_queues_operation() {
    let mut store = StateStore::new("n1");
    let mut proxy = StateProxy::new(&mut store);
    proxy.set("x", json(42_i32));
    assert_eq!(proxy.pending_count(), 1);
}

#[test]
fn set_updates_local_state() {
    let mut store = StateStore::new("n1");
    let mut proxy = StateProxy::new(&mut store);
    proxy.set("x", json(42_i32));
    assert_eq!(value::<i32>(proxy.get("x")), Some(42));
}

#[test]
fn chained_sets_queue_all_operations() {
    let mut store = StateStore::new("n1");
    let mut proxy = StateProxy::new(&mut store);
    proxy.set("a", json(1_i32)).set("b", json(2_i32)).set("c", json(3_i32));
    assert_eq!(proxy.pending_count(), 3);
}

#[test]
fn drain_pending_returns_and_clears_queue() {
    let mut store = StateStore::new("n1");
    let mut proxy = StateProxy::new(&mut store);
    proxy.set("x", json(1_i32)).set("y", json(2_i32));

    let ops = proxy.drain_pending();
    assert_eq!(ops.len(), 2);
    assert_eq!(proxy.pending_count(), 0);
}

#[test]
fn broadcast_via_drain_pending_syncs_peer() {
    let mut store_a = StateStore::new("A");
    let mut store_b = StateStore::new("B");

    {
        let mut proxy = StateProxy::new(&mut store_a);
        proxy.set("robot.x", json(10.0_f64)).set("robot.y", json(20.0_f64));
        for env in proxy.drain_pending() {
            store_b.apply_envelope(env);
        }
    }

    assert_eq!(value::<f64>(store_b.get_register("robot.x")), Some(10.0));
    assert_eq!(value::<f64>(store_b.get_register("robot.y")), Some(20.0));
}

#[test]
fn proxy_convenience_method_on_store() {
    let mut store_a = StateStore::new("A");
    let mut store_b = StateStore::new("B");

    let ops = {
        let mut proxy = store_a.proxy();
        proxy.set("speed", json(99_i32));
        proxy.drain_pending()
    };

    for env in ops {
        store_b.apply_envelope(env);
    }

    assert_eq!(value::<i32>(store_b.get_register("speed")), Some(99));
}

#[test]
fn set_add_intercepts_and_queues() {
    let mut store = StateStore::new("n1");
    let mut proxy = StateProxy::new(&mut store);
    proxy.set_add("fleet", json("unit-1"));
    assert_eq!(proxy.pending_count(), 1);
    assert!(proxy.set_contains("fleet", &json("unit-1")));
}

#[test]
fn set_remove_intercepts_present_element() {
    let mut store = StateStore::new("n1");
    let mut proxy = StateProxy::new(&mut store);
    proxy.set_add("fleet", json("unit-1"));
    proxy.drain_pending();

    let removed = proxy.set_remove("fleet", json("unit-1"));
    assert!(removed);
    assert_eq!(proxy.pending_count(), 1);
    assert!(!proxy.set_contains("fleet", &json("unit-1")));
}

#[test]
fn set_remove_absent_element_returns_false() {
    let mut store = StateStore::new("n1");
    let mut proxy = StateProxy::new(&mut store);
    assert!(!proxy.set_remove("fleet", json("ghost")));
    assert_eq!(proxy.pending_count(), 0);
}

#[test]
fn set_operations_sync_peer() {
    let mut store_a = StateStore::new("A");
    let mut store_b = StateStore::new("B");

    {
        let mut proxy = StateProxy::new(&mut store_a);
        proxy.set_add("fleet", json("unit-1")).set_add("fleet", json("unit-2"));
        for env in proxy.drain_pending() {
            store_b.apply_envelope(env);
        }
    }

    assert!(store_b.set_contains("fleet", &json("unit-1")));
    assert!(store_b.set_contains("fleet", &json("unit-2")));
}

#[test]
fn seq_push_intercepts_and_queues() {
    let mut store = StateStore::new("n1");
    let mut proxy = StateProxy::new(&mut store);
    proxy.seq_push("log", json("entry-1"));
    assert_eq!(proxy.pending_count(), 1);
    assert_eq!(values::<String>(proxy.seq_items("log")), vec!["entry-1"]);
}

#[test]
fn seq_push_appends_in_order() {
    let mut store = StateStore::new("n1");
    let mut proxy = StateProxy::new(&mut store);
    proxy
        .seq_push("log", json("a"))
        .seq_push("log", json("b"))
        .seq_push("log", json("c"));
    assert_eq!(values::<String>(proxy.seq_items("log")), vec!["a", "b", "c"]);
}

#[test]
fn seq_delete_intercepts_present_index() {
    let mut store = StateStore::new("n1");
    let mut proxy = StateProxy::new(&mut store);
    proxy.seq_push("log", json("x"));
    proxy.drain_pending();

    let deleted = proxy.seq_delete("log", 0);
    assert!(deleted);
    assert_eq!(proxy.pending_count(), 1);
    assert!(values::<String>(proxy.seq_items("log")).is_empty());
}

#[test]
fn seq_delete_out_of_bounds_returns_false() {
    let mut store = StateStore::new("n1");
    let mut proxy = StateProxy::new(&mut store);
    assert!(!proxy.seq_delete("log", 5));
    assert_eq!(proxy.pending_count(), 0);
}

#[test]
fn seq_operations_sync_peer() {
    let mut store_a = StateStore::new("A");
    let mut store_b = StateStore::new("B");

    {
        let mut proxy = StateProxy::new(&mut store_a);
        proxy.seq_push("events", json("boot")).seq_push("events", json("ready"));
        for env in proxy.drain_pending() {
            store_b.apply_envelope(env);
        }
    }

    assert_eq!(
        values::<String>(store_b.seq_items("events")),
        vec!["boot", "ready"]
    );
}

#[test]
fn mixed_operations_all_queued() {
    let mut store = StateStore::new("n1");
    let mut proxy = StateProxy::new(&mut store);
    proxy.set("name", json("robot-1"));
    proxy.set_add("tags", json("active"));
    proxy.seq_push("log", json("started"));
    assert_eq!(proxy.pending_count(), 3);
}

#[test]
fn multiple_drain_calls_accumulate_separately() {
    let mut store = StateStore::new("n1");
    let mut proxy = StateProxy::new(&mut store);

    proxy.set("a", json(1_i32));
    let batch1 = proxy.drain_pending();
    assert_eq!(batch1.len(), 1);

    proxy.set("b", json(2_i32)).set("c", json(3_i32));
    let batch2 = proxy.drain_pending();
    assert_eq!(batch2.len(), 2);

    assert_eq!(proxy.pending_count(), 0);
}

#[test]
fn queue_keeps_the_order_of_changes() {
    let mut store = StateStore::new("n1");
    let ops = {
        let mut proxy = store.proxy();
        proxy.set("a", json(1)).seq_insert("q", 0, json(2)).seq_insert("q", 0, json(3));
        proxy.set_remove("s", json(9));
        proxy.set("b", json(4));
        assert_eq!(proxy.store().clock(), 5);
        proxy.drain_pending()
    };
    let times: Vec<u64> = ops.iter().map(|env| env.timestamp).collect();
    assert_eq!(times, vec![1, 2, 3, 5]);
    assert_eq!(values::<i32>(store.seq_items("q")), vec![3, 2]);
}

#[test]
fn queue_holds_every_change() {
    let mut store = StateStore::new("n1");
    let mut other = StateStore::new("n2");
    let mut proxy = StateProxy::new(&mut store);
    proxy.set("x", json(1_i32)).set_add("s", json("a")).seq_push("q", json(1_i32));
    assert!(!proxy.set_remove("s", json("b")));
    assert!(!proxy.seq_delete("q", 1));
    proxy.seq_push("q", json(2_i32));
    assert!(proxy.set_remove("s", json("a")));
    assert!(proxy.seq_delete("q", 0));
    for env in proxy.drain_pending() {
        other.apply_envelope(env);
    }
    assert_eq!(value::<i32>(other.get_register("x")), Some(1));
    assert!(other.set_items("s").is_empty());
    assert_eq!(values::<i32>(other.seq_items("q")), vec![2]);
    assert_eq!(values::<i32>(store.seq_items("q")), vec![2]);
    assert_eq!(store.clock(), 8);
    assert_eq!(other.clock(), 8);
}

#[test]
fn queued_envelopes_are_not_signed() {
    let mut store = StateStore::new("n1");
    let mut proxy = StateProxy::new(&mut store);
    proxy.set("x", json(1)).set_add("tags", json("a")).seq_push("log", json("b"));
    assert!(proxy.set_remove("tags", json("a")));
    assert!(proxy.seq_delete("log", 0));
    assert!(!proxy.seq_delete("log", 0));
    let envs = proxy.drain_pending();
    assert_eq!(envs.len(), 5);
    assert!(envs.iter().all(|env| env.signature.is_none()));
}
