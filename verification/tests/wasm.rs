use crdt_sync::state_store::{StateStore, StoreOp};
use crdt_sync::wasm::WasmStateStore;

#[test]
fn values_are_json_text() {
    let mut store = WasmStateStore::new("node-1");
    let env = store.set_register("robot.x", "42.0").unwrap();
    let mut peer = WasmStateStore::new("node-2");
    peer.apply_envelope(env);
    assert_eq!(peer.get_register("robot.x"), Some("42.0".to_string()));
    assert_eq!(peer.get_register("robot.y"), None);
    assert_eq!(peer.clock(), 1);
}

#[test]
fn text_is_read_as_json() {
    let mut store = WasmStateStore::new("n");
    store.set_register("k", " { \"b\" : [ ] , \"a\" : \"\\u0041\" } ").unwrap();
    assert_eq!(store.get_register("k"), Some("{\"a\":\"A\",\"b\":[]}".to_string()));
}

#[test]
fn text_that_is_not_json_is_refused() {
    let mut store = WasmStateStore::new("n");
    assert_eq!(
        store.set_register("k", "nope").unwrap_err().message,
        "expected ident at line 1 column 2"
    );
    assert!(store.set_add("k", "").is_err());
    assert!(store.set_remove("k", "[1,").is_err());
    assert!(store.seq_insert("k", 0, "1 2").is_err());
    assert!(!store.set_contains("k", "nope"));
    assert_eq!(store.clock(), 0);
    assert_eq!(store.get_register("k"), None);
}

#[test]
fn sets_are_shown_as_arrays() {
    let mut store = WasmStateStore::new("n");
    assert_eq!(store.set_items("s"), "[]");
    store.set_add("s", "\"a\"").unwrap();
    store.set_add("s", "\"a\"").unwrap();
    assert_eq!(store.set_items("s"), "[\"a\"]");
    assert!(store.set_contains("s", " \"a\" "));
    assert!(store.set_remove("s", "\"b\"").unwrap().is_none());
    let env = store.set_remove("s", "\"a\"").unwrap().unwrap();
    assert_eq!(env.timestamp, 4);
    assert_eq!(store.set_items("s"), "[]");
}

#[test]
fn sequences_are_shown_as_arrays() {
    let mut store = WasmStateStore::new("n");
    store.seq_insert("q", 0, "1").unwrap();
    store.seq_insert("q", 1, "{\"k\":null}").unwrap();
    store.seq_insert("q", 1, "\"x\"").unwrap();
    assert_eq!(store.seq_items("q"), "[1,\"x\",{\"k\":null}]");
    assert_eq!(store.seq_len("q"), 3);
    assert_eq!(store.seq_clock("q"), 3);
    let env = store.seq_delete("q", 0).unwrap();
    assert!(matches!(env.op, StoreOp::Sequence { .. }));
    assert!(store.seq_delete("q", 2).is_none());
    assert_eq!(store.seq_items("q"), "[\"x\",{\"k\":null}]");
    store.prune_tombstones(9);
    assert_eq!(store.seq_items("q"), "[\"x\",{\"k\":null}]");
    assert_eq!(store.seq_items("none"), "[]");
}

#[test]
fn insertion_past_the_end_is_not_tried() {
    let mut store = WasmStateStore::new("n");
    assert!(store.try_seq_insert("q", 1, "1").is_none());
    assert!(store.try_seq_insert("q", 1, "nope").unwrap().is_err());
    assert!(store.seq_insert("q", 1, "nope").is_err());
    assert_eq!(store.clock(), 0);
    assert!(store.try_seq_insert("q", 0, " 1 ").unwrap().is_ok());
    assert_eq!(store.seq_items("q"), "[1]");
}

#[test]
fn snapshot_is_taken_over() {
    let mut server = WasmStateStore::new("server-side");
    let mut source = StateStore::new("server");
    for text in ["1", "2"] {
        let env = server.seq_insert("q", server.seq_len("q"), text).unwrap();
        source.apply_envelope(env);
    }
    let mut store = WasmStateStore::new("n");
    store.set_register("mine", "true").unwrap();
    store.merge_snapshot(&source);
    assert_eq!(store.seq_items("q"), "[1,2]");
    assert_eq!(store.get_register("mine"), Some("true".to_string()));
    assert_eq!(store.clock(), 2);
}
