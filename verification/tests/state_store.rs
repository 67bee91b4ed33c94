use crdt_sync::json::JsonValue;
use crdt_sync::lww_register::LWWRegister;
use crdt_sync::or_set::{ORSet, ORSetOp};
use crdt_sync::rga::{RGAOp, RGA};
use crdt_sync::state_store::{Envelope, StateStore, StoreOp};
use crdt_sync::str_map::StrMap;

fn json<T: serde::Serialize>(value: T) -> JsonValue {
    JsonValue::parse(&serde_json::to_value(value).unwrap().to_string()).unwrap()
}

fn register<T: serde::de::DeserializeOwned>(store: &StateStore, key: &str) -> Option<T> {
    store.get_register(key).and_then(|v| serde_json::from_str(v.text()).ok())
}

fn items<T: serde::de::DeserializeOwned>(store: &StateStore, key: &str) -> Vec<T> {
    store.seq_items(key).iter().filter_map(|v| serde_json::from_str(v.text()).ok()).collect()
}

#[test]
fn register_write_and_read() {
    let mut store = StateStore::new("n1");
    store.set_register("robot.x", json(10.0_f64));
    assert_eq!(register::<f64>(&store, "robot.x"), Some(10.0));
}

#[test]
fn register_sync_between_nodes() {
    let mut a = StateStore::new("A");
    let mut b = StateStore::new("B");

    let env = a.set_register("robot.x", json(42.0_f64));
    b.apply_envelope(env);

    assert_eq!(register::<f64>(&b, "robot.x"), Some(42.0));
}

#[test]
fn register_lww_semantics() {
    let mut a = StateStore::new("A");
    let mut b = StateStore::new("B");

    let env1 = a.set_register("val", json(1_i64));
    let env2 = b.set_register("val", json(2_i64));

    a.apply_envelope(env2.clone());
    b.apply_envelope(env1.clone());

    assert_eq!(register::<i64>(&a, "val"), register::<i64>(&b, "val"));
    assert_eq!(register::<i64>(&a, "val"), Some(2));
}

#[test]
fn or_set_add_remove() {
    let mut store = StateStore::new("n1");
    store.set_add("robots", json("robot-A"));
    assert!(store.set_contains("robots", &json("robot-A")));
    store.set_remove("robots", json("robot-A")).unwrap();
    assert!(!store.set_contains("robots", &json("robot-A")));
}

#[test]
fn or_set_sync_between_nodes() {
    let mut a = StateStore::new("A");
    let mut b = StateStore::new("B");

    let env = a.set_add("fleet", json("unit-1"));
    b.apply_envelope(env);

    assert!(b.set_contains("fleet", &json("unit-1")));
}

#[test]
fn sequence_insert_sync() {
    let mut a = StateStore::new("A");
    let mut b = StateStore::new("B");

    let op1 = a.seq_insert("log", 0, json("entry-1"));
    let op2 = a.seq_insert("log", 1, json("entry-2"));

    b.apply_envelope(op2);
    b.apply_envelope(op1);

    assert_eq!(items::<String>(&a, "log"), items::<String>(&b, "log"));
    assert_eq!(items::<String>(&b, "log"), vec!["entry-1", "entry-2"]);
}

#[test]
fn sequence_delete_sync() {
    let mut a = StateStore::new("A");
    let mut b = StateStore::new("B");

    let ins = a.seq_insert("items", 0, json("x"));
    b.apply_envelope(ins);

    let del = a.seq_delete("items", 0).unwrap();
    b.apply_envelope(del);

    assert_eq!(items::<String>(&a, "items"), Vec::<String>::new());
    assert_eq!(items::<String>(&b, "items"), Vec::<String>::new());
}

#[test]
fn lamport_clock_advances_on_receive() {
    let mut a = StateStore::new("A");
    let mut b = StateStore::new("B");

    for _ in 0..10 {
        b.set_register("dummy", json(0_i32));
    }
    assert_eq!(b.clock(), 10);

    let env = b.set_register("x", json(99_i32));
    a.apply_envelope(env);
    assert!(a.clock() >= 11);
}

#[test]
fn apply_envelope_is_idempotent() {
    let mut a = StateStore::new("A");
    let mut b = StateStore::new("B");

    let env = a.set_register("k", json(7_i32));
    b.apply_envelope(env.clone());
    b.apply_envelope(env.clone());
    b.apply_envelope(env);

    assert_eq!(register::<i32>(&b, "k"), Some(7));
}

#[test]
fn nothing_is_found_in_an_empty_store() {
    let mut store = StateStore::new("n");
    assert!(store.get_register("x").is_none());
    assert!(!store.set_contains("x", &json(1)));
    assert!(store.set_items("x").is_empty());
    assert!(store.seq_items("x").is_empty());
    assert_eq!(store.seq_len("x"), 0);
    assert!(store.set_remove("x", json(1)).is_none());
    assert!(store.seq_delete("x", 0).is_none());
    assert_eq!(store.clock(), 2);
}

#[test]
fn envelopes_carry_time_node_and_operation() {
    let mut store = StateStore::new("n1");
    store.set_register("a", json(1));
    let env = store.set_register("k", json("v"));
    assert_eq!((env.timestamp, env.node_id.as_str()), (2, "n1"));
    assert!(env.signature.is_none());
    match env.op {
        StoreOp::Register { key, op } => {
            assert_eq!(key, "k");
            assert_eq!(op.value.text(), "\"v\"");
            assert_eq!((op.timestamp, op.node_id.as_str()), (2, "n1"));
        }
        _ => panic!("not a write"),
    }
    let env = store.set_add_with("s", json(true), "tail");
    match env.op {
        StoreOp::OrSet { op: ORSetOp::Add { value, token }, .. } => {
            assert_eq!(value.text(), "true");
            assert_eq!(token, "n1-tail");
        }
        _ => panic!("not an addition"),
    }
    let env = store.seq_insert("q", 0, json(3));
    assert_eq!(env.timestamp, 4);
    match env.op {
        StoreOp::Sequence { op: RGAOp::Insert { id, after_id, .. }, .. } => {
            assert_eq!((id.clock, id.node_id.as_str()), (1, "n1"));
            assert!(after_id.is_none());
        }
        _ => panic!("not an insertion"),
    }
}

#[test]
fn kinds_do_not_share_names() {
    let mut store = StateStore::new("n");
    store.set_register("x", json(1));
    store.set_add("x", json(2));
    store.seq_insert("x", 0, json(3));
    assert_eq!(register::<i32>(&store, "x"), Some(1));
    assert!(store.set_contains("x", &json(2)));
    assert!(!store.set_contains("x", &json(1)));
    assert_eq!(items::<i32>(&store, "x"), vec![3]);
}

#[test]
fn json_values_are_compared_by_what_they_say() {
    let mut store = StateStore::new("n");
    let a = JsonValue::parse("{ \"b\": 1, \"a\": [1, 2.50] }").unwrap();
    let b = JsonValue::parse("{\"a\":[1,2.5],\"b\":1}").unwrap();
    assert_eq!(a.text(), "{\"a\":[1,2.5],\"b\":1}");
    assert_eq!(a, b);
    store.set_add("s", a);
    assert!(store.set_contains("s", &b));
    assert_ne!(json(1), json(1.0));
    let error = JsonValue::parse("{").unwrap_err();
    assert_eq!(error.message, "EOF while parsing an object at line 1 column 1");
}

fn filled() -> StateStore {
    let mut store = StateStore::new("server");
    store.set_register("robot.x", json(7_i32));
    store.set_add("fleet", json("unit-1"));
    store.seq_insert("log", 0, json("a"));
    store.seq_insert("log", 1, json("b"));
    store.seq_insert("log", 2, json("c"));
    store.seq_delete("log", 1);
    store
}

#[test]
fn merge_into_a_new_store_shows_the_same() {
    let source = filled();
    let mut store = StateStore::new("client");
    store.merge(&source);
    assert_eq!(register::<i32>(&store, "robot.x"), Some(7));
    assert!(store.set_contains("fleet", &json("unit-1")));
    assert_eq!(items::<String>(&store, "log"), vec!["a", "c"]);
    assert_eq!(store.clock(), 6);
    assert_eq!(store.node_id(), "client");
}

#[test]
fn stores_merge_in_either_order() {
    let mut a = filled();
    let mut b = StateStore::new("peer");
    b.set_register("robot.x", json(8_i32));
    b.set_register("robot.y", json(9_i32));
    b.set_add("fleet", json("unit-2"));
    b.seq_insert("log", 0, json("z"));
    let (a2, b2) = (a.clone(), b.clone());
    a.merge(&b2);
    b.merge(&a2);
    for store in [&a, &b] {
        assert_eq!(register::<i32>(store, "robot.x"), Some(7));
        assert_eq!(register::<i32>(store, "robot.y"), Some(9));
        assert!(store.set_contains("fleet", &json("unit-1")));
        assert!(store.set_contains("fleet", &json("unit-2")));
        assert_eq!(store.clock(), 6);
    }
    assert_eq!(items::<String>(&a, "log"), items::<String>(&b, "log"));
    assert_eq!(items::<String>(&a, "log").len(), 3);
    let before = items::<String>(&a, "log");
    let itself = a.clone();
    a.merge(&itself);
    assert_eq!(items::<String>(&a, "log"), before);
}

#[test]
fn pruning_is_not_seen() {
    let mut store = filled();
    assert_eq!(store.sequences().get("log").unwrap().state().nodes.len(), 3);
    store.prune_tombstones(1);
    assert_eq!(store.sequences().get("log").unwrap().state().nodes.len(), 3);
    store.prune_tombstones(2);
    assert_eq!(store.sequences().get("log").unwrap().state().nodes.len(), 2);
    assert_eq!(items::<String>(&store, "log"), vec!["a", "c"]);
}

#[test]
fn store_is_rebuilt_from_its_parts() {
    let store = filled();
    let mut registers = StrMap::new();
    for i in 0..store.registers().len() {
        let held = store.registers().value_at(i).held();
        registers.insert(store.registers().key_at(i), LWWRegister::restore("server", held));
    }
    let mut sets = StrMap::new();
    for i in 0..store.sets().len() {
        let source = store.sets().value_at(i);
        let mut set = ORSet::new("server");
        for value in source.iter() {
            if let Some(ORSetOp::Remove { tokens }) = source.remove(value) {
                for token in tokens {
                    set.apply(ORSetOp::Add { value: value.clone(), token });
                }
            }
        }
        sets.insert(store.sets().key_at(i), set);
    }
    let mut sequences = StrMap::new();
    for i in 0..store.sequences().len() {
        let state = store.sequences().value_at(i).state();
        sequences.insert(store.sequences().key_at(i), RGA::restore("server", state).unwrap());
    }
    let back = StateStore::from_parts(store.node_id(), store.clock(), registers, sets, sequences);
    assert_eq!(register::<i32>(&back, "robot.x"), Some(7));
    assert!(back.set_contains("fleet", &json("unit-1")));
    assert_eq!(items::<String>(&back, "log"), vec!["a", "c"]);
    assert_eq!(back.clock(), store.clock());
}

#[test]
fn stores_converge_whatever_the_order() {
    let mut a = StateStore::new("A");
    let mut b = StateStore::new("B");
    let mut envs: Vec<Envelope> = Vec::new();
    for k in 0..5 {
        envs.push(a.set_register("x", json(k)));
        envs.push(b.set_register("x", json(10 + k)));
        envs.push(a.set_add("s", json(k)));
        envs.push(b.seq_insert("q", 0, json(k)));
        envs.push(a.seq_insert("q", 0, json(20 + k)));
    }
    let mut forwards = StateStore::new("C");
    let mut backwards = StateStore::new("D");
    for env in &envs {
        forwards.apply_envelope(env.clone());
        forwards.apply_envelope(env.clone());
    }
    for env in envs.iter().rev() {
        backwards.apply_envelope(env.clone());
    }
    assert_eq!(register::<i32>(&forwards, "x"), register::<i32>(&backwards, "x"));
    assert_eq!(items::<i32>(&forwards, "q"), items::<i32>(&backwards, "q"));
    assert_eq!(items::<i32>(&forwards, "q").len(), 10);
    assert_eq!(forwards.set_items("s").len(), 5);
    assert_eq!(backwards.set_items("s").len(), 5);
    assert_eq!(forwards.clock(), backwards.clock());
    assert_eq!(forwards.clock(), 15);
}

#[test]
fn later_local_write_wins_over_what_was_received() {
    let mut a = StateStore::new("Z");
    for _ in 0..5 {
        a.set_register("x", json(0));
    }
    let env = a.set_register("x", json(1));
    let mut b = StateStore::new("A");
    b.apply_envelope(env);
    b.set_register("x", json(2));
    assert_eq!(register::<i32>(&b, "x"), Some(2));
}

#[test]
fn removal_and_deletion_may_arrive_first() {
    let mut a = StateStore::new("a");
    let added = a.set_add("s", json(1));
    let removed = a.set_remove("s", json(1)).unwrap();
    let inserted = a.seq_insert("q", 0, json(1));
    let deleted = a.seq_delete("q", 0).unwrap();
    let mut b = StateStore::new("b");
    for env in [&deleted, &removed, &inserted, &added, &added, &inserted] {
        b.apply_envelope(env.clone());
    }
    assert!(!b.set_contains("s", &json(1)));
    assert!(items::<i32>(&b, "q").is_empty());
    assert_eq!(b.clock(), a.clock());
}

#[test]
fn zeros_are_equal_whatever_their_sign() {
    let plain = |text: &str| JsonValue::parse(text).unwrap();
    assert_eq!(plain("-0.0").text(), "-0.0");
    assert!(plain("-0.0") == plain("0.0"));
    assert!(plain("-0") == plain("0.0"));
    assert!(plain("0") != plain("0.0"));
    assert!(plain("[-0.0,{\"a\":-0.0}]") == plain("[0.0,{\"a\":0.0}]"));
    assert!(plain("\"-0.0\"") != plain("\"0.0\""));
    assert!(plain("[\"\\\"\",-0.0]") == plain("[\"\\\"\",0.0]"));
    assert!(plain("-0.01") != plain("0.01"));
    let mut store = StateStore::new("n");
    store.set_add("s", plain("-0.0"));
    assert!(store.set_contains("s", &plain("0.0")));
    store.set_add("s", plain("0.0"));
    assert_eq!(store.set_items("s").len(), 1);
}

#[test]
fn merging_again_changes_nothing() {
    let a = filled();
    let mut b = StateStore::new("b");
    b.set_add("fleet", json("z"));
    b.seq_insert("log", 0, json("z"));
    b.merge(&a);
    assert_eq!(b.set_items("fleet").len(), 2);
    let once = (b.clock(), b.set_items("fleet").len(), items::<String>(&b, "log"));
    b.merge(&a);
    assert_eq!((b.clock(), b.set_items("fleet").len(), items::<String>(&b, "log")), once);
}

fn texts(store: &StateStore, key: &str) -> Vec<String> {
    store.set_items(key).into_iter().map(|value| value.text().to_owned()).collect()
}

#[test]
fn first_of_equal_values_stands_for_the_element() {
    let plain = |text: &str| JsonValue::parse(text).unwrap();
    let mut store = StateStore::new("n1");
    let env = store.set_add("s", plain("-0.0"));
    match env.op {
        StoreOp::OrSet { op: ORSetOp::Add { value, .. }, .. } => assert_eq!(value.text(), "-0.0"),
        _ => panic!("an addition"),
    }
    store.set_add("s", plain("0.0"));
    assert_eq!(texts(&store, "s"), vec!["-0.0"]);

    store.set_remove("s", plain("0.0")).unwrap();
    assert_eq!(texts(&store, "s").len(), 0);
    store.set_add("s", plain("0.0"));
    assert_eq!(texts(&store, "s"), vec!["-0.0"]);

    let mut own = StateStore::new("n2");
    own.set_add("s", plain("0.0"));
    own.merge(&store);
    assert_eq!(texts(&own, "s"), vec!["0.0"]);
    let mut new = StateStore::new("n3");
    new.merge(&store);
    assert_eq!(texts(&new, "s"), vec!["-0.0"]);
    assert_eq!(texts(&store.clone(), "s"), vec!["-0.0"]);
}

#[test]
fn deeply_nested_values_are_held() {
    let deep = format!("{}{}", "[".repeat(200), "]".repeat(200));
    assert!(JsonValue::parse(&deep).is_err());
    let value = JsonValue::from_text(&deep);
    assert_eq!(value.text(), deep);
    assert!(value == JsonValue::from_text(&deep));
    assert!(value != JsonValue::parse("[[]]").unwrap());
    assert!(JsonValue::from_text("[1,2]") == JsonValue::parse("[1, 2]").unwrap());

    let mut store = StateStore::new("n1");
    let mut peer = StateStore::new("n2");
    peer.apply_envelope(store.set_register("r", value.clone()));
    peer.apply_envelope(store.set_add("s", value.clone()));
    peer.apply_envelope(store.seq_insert("q", 0, value.clone()));
    assert_eq!(peer.get_register("r").unwrap().text(), deep);
    assert!(peer.set_contains("s", &value));
    assert_eq!(peer.seq_items("q")[0].text(), deep);
    let mut other = StateStore::new("n3");
    other.merge(&peer);
    assert_eq!(texts(&other, "s"), vec![deep]);
}
