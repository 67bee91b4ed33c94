use crdt_sync::config::{build_acl_from_env, build_key_registry_from_env, parse_port_arg};
use crdt_sync::json::JsonValue;
use crdt_sync::lww_register::LWWOp;
use crdt_sync::relay::{read_frame, Rooms, Submission, Verdict};
use crdt_sync::security::{
    acl_allows, check_signature, envelope_key, hex_decode_32, hex_nibble, judge,
    verify_envelope_signature, Acl, KeyRegistry, SignatureError,
};
use crdt_sync::state_store::{Envelope, StateStore, StoreOp};
use ed25519_dalek::{Signer, SigningKey};
use rand_core::OsRng;

#[test]
fn hex_decode_32_valid() {
    let hex = "00".repeat(32);
    assert_eq!(hex_decode_32(&hex), Ok([0u8; 32]));

    let hex = format!("{}{}", "0f".repeat(16), "f0".repeat(16));
    let result = hex_decode_32(&hex).unwrap();
    assert_eq!(result[0], 0x0f);
    assert_eq!(result[16], 0xf0);
}

#[test]
fn hex_decode_32_invalid_length() {
    assert!(hex_decode_32("aabb").is_err());
    assert!(hex_decode_32("").is_err());
}

#[test]
fn hex_decode_32_invalid_chars() {
    let bad = "zz".repeat(32);
    assert!(hex_decode_32(&bad).is_err());
}

#[test]
fn hex_decode_32_takes_both_cases_and_white_space() {
    let hex = format!("\t{}{}\u{2003}\n", "aB".repeat(16), "9E".repeat(16));
    let result = hex_decode_32(&hex).unwrap();
    assert_eq!((result[15], result[16], result[31]), (0xab, 0x9e, 0x9e));
    assert!(hex_decode_32(&format!("{} 0", "0".repeat(62))).is_err());
    assert!(hex_decode_32(&"\u{e4}".repeat(32)).is_err());
    assert!(hex_decode_32(&"\u{660}".repeat(64)).is_err());
}

#[test]
fn hex_nibble_values() {
    assert_eq!(hex_nibble(b'0'), Ok(0));
    assert_eq!(hex_nibble(b'9'), Ok(9));
    assert_eq!(hex_nibble(b'a'), Ok(10));
    assert_eq!(hex_nibble(b'F'), Ok(15));
    for b in [b'/', b':', b'@', b'G', b'`', b'g', 0, 255] {
        assert_eq!(hex_nibble(b), Err(()));
    }
}

#[test]
fn acl_allows_unrestricted_node() {
    let acl: Acl = Acl::new();
    assert!(acl_allows(&acl, "any-node", "sensors.battery"));
}

#[test]
fn acl_allows_exact_key_match() {
    let mut acl: Acl = Acl::new();
    acl.insert("node-1", vec!["sensors.battery".to_string()]);

    assert!(acl_allows(&acl, "node-1", "sensors.battery"));
    assert!(!acl_allows(&acl, "node-1", "sensors.temp"));
    assert!(!acl_allows(&acl, "node-1", "robot.x"));
}

#[test]
fn acl_allows_prefix_match() {
    let mut acl: Acl = Acl::new();
    acl.insert("node-1", vec!["sensors.".to_string()]);

    assert!(acl_allows(&acl, "node-1", "sensors.battery"));
    assert!(acl_allows(&acl, "node-1", "sensors.temp"));
    assert!(!acl_allows(&acl, "node-1", "robot.x"));
}

fn json(text: &str) -> JsonValue {
    JsonValue::parse(text).unwrap()
}

fn make_envelope(node_id: &str, key: &str, value: i32) -> Envelope {
    Envelope {
        timestamp: 1,
        node_id: node_id.to_string(),
        op: StoreOp::Register {
            key: key.to_string(),
            op: LWWOp {
                value: json(&value.to_string()),
                timestamp: 1,
                node_id: node_id.to_string(),
            },
        },
        signature: None,
    }
}

/// Bytes that stand for the envelope without its signature.
fn payload_of(env: &Envelope) -> Vec<u8> {
    let value = match &env.op {
        StoreOp::Register { op, .. } => op.value.text(),
        _ => panic!("not a write"),
    };
    rmp_serde::to_vec_named(&(env.timestamp, &env.node_id, envelope_key(env), value))
        .expect("serialisation must succeed")
}

fn sign_envelope(env: &mut Envelope, signing_key: &SigningKey) {
    let sig = signing_key.sign(&payload_of(env));
    env.signature = Some(sig.to_bytes().to_vec());
}

#[test]
fn verify_unregistered_node_always_passes() {
    let registry: KeyRegistry = KeyRegistry::new();
    let env = make_envelope("unknown", "x", 1);
    assert!(verify_envelope_signature(&registry, &env, &Some(payload_of(&env))).is_ok());
    assert!(verify_envelope_signature(&registry, &env, &None).is_ok());
}

#[test]
fn verify_valid_signature_passes() {
    let signing_key = SigningKey::generate(&mut OsRng);
    let verifying_key: [u8; 32] = signing_key.verifying_key().to_bytes();

    let mut registry: KeyRegistry = KeyRegistry::new();
    registry.insert("node-1", verifying_key);

    let mut env = make_envelope("node-1", "x", 42);
    sign_envelope(&mut env, &signing_key);

    assert!(verify_envelope_signature(&registry, &env, &Some(payload_of(&env))).is_ok());
}

#[test]
fn verify_missing_signature_from_registered_node_fails() {
    let signing_key = SigningKey::generate(&mut OsRng);
    let verifying_key: [u8; 32] = signing_key.verifying_key().to_bytes();

    let mut registry: KeyRegistry = KeyRegistry::new();
    registry.insert("node-1", verifying_key);

    let env = make_envelope("node-1", "x", 42);
    assert!(verify_envelope_signature(&registry, &env, &Some(payload_of(&env))).is_err());
}

#[test]
fn verify_invalid_signature_from_registered_node_fails() {
    let signing_key = SigningKey::generate(&mut OsRng);
    let verifying_key: [u8; 32] = signing_key.verifying_key().to_bytes();

    let mut registry: KeyRegistry = KeyRegistry::new();
    registry.insert("node-1", verifying_key);

    let mut env = make_envelope("node-1", "x", 42);
    env.signature = Some(vec![0u8; 64]);

    assert!(verify_envelope_signature(&registry, &env, &Some(payload_of(&env))).is_err());
}

#[test]
fn each_signature_error_has_its_input() {
    let signing_key = SigningKey::from_bytes(&[7u8; 32]);
    let key: [u8; 32] = signing_key.verifying_key().to_bytes();
    let mut registry: KeyRegistry = KeyRegistry::new();
    registry.insert("node-1", key);
    // These bytes decode to no point of the curve.
    let mut bad_key = [0u8; 32];
    bad_key[0] = 2;
    registry.insert("node-2", bad_key);

    let mut env = make_envelope("node-1", "x", 42);
    let payload = Some(payload_of(&env));
    let check = |env: &Envelope, payload: &Option<Vec<u8>>| {
        verify_envelope_signature(&registry, env, payload).unwrap_err()
    };
    assert_eq!(check(&env, &payload), SignatureError::Missing);
    env.signature = Some(vec![1u8; 63]);
    assert_eq!(check(&env, &payload), SignatureError::Length);
    sign_envelope(&mut env, &signing_key);
    assert_eq!(check(&env, &None), SignatureError::Payload);
    let other = Some(payload_of(&make_envelope("node-1", "x", 43)));
    assert_eq!(check(&env, &other), SignatureError::Invalid);
    assert!(verify_envelope_signature(&registry, &env, &payload).is_ok());
    env.node_id = "node-2".to_string();
    assert_eq!(check(&env, &payload), SignatureError::Key);
    assert_eq!(check_signature(&bad_key, &env.signature, &None), Err(SignatureError::Key));
    assert_eq!(SignatureError::Length.message(), "signature must be 64 bytes");
    assert_eq!(SignatureError::Missing.message(), "missing signature from registered node");
}

#[test]
fn judge_looks_at_the_key_first() {
    assert_eq!(judge(false, Some(true)), Err(SignatureError::Key));
    assert_eq!(judge(true, None), Err(SignatureError::Payload));
    assert_eq!(judge(true, Some(false)), Err(SignatureError::Invalid));
    assert_eq!(judge(true, Some(true)), Ok(()));
}

#[test]
fn frames_hold_blobs() {
    let blobs: Vec<Vec<u8>> = vec![vec![1, 2, 200], vec![], vec![0]];
    let frame = rmp_serde::to_vec(&blobs).unwrap();
    assert_ne!(frame, blobs.concat());
    assert_eq!(read_frame(&frame), Some(blobs));
    assert_eq!(read_frame(&vec![0xc0]), None);
    assert_eq!(read_frame(&vec![]), None);
}

fn strings(items: &[&str]) -> Vec<String> {
    items.iter().map(|s| s.to_string()).collect()
}

#[test]
fn port_argument() {
    assert_eq!(parse_port_arg(&strings(&["relay", "--port", "3001"])), Some(3001));
    assert_eq!(parse_port_arg(&strings(&["relay", "--port", "+0080", "x"])), Some(80));
    assert_eq!(parse_port_arg(&strings(&["relay", "--port", "65535"])), Some(65535));
    assert_eq!(parse_port_arg(&strings(&["relay"])), None);
    assert_eq!(parse_port_arg(&strings(&["relay", "--port"])), None);
    for bad in ["65536", "", "+", "-1", " 1", "1 ", "0x10", "\u{661}", "99999999999999999999"] {
        assert_eq!(parse_port_arg(&strings(&["relay", "--port", bad])), None);
        assert_eq!(parse_port_arg(&strings(&["relay", "--port", bad, "--port", "1"])), None);
    }
}

fn vars(items: &[(&str, &str)]) -> Vec<(String, String)> {
    items.iter().map(|(k, v)| (k.to_string(), v.to_string())).collect()
}

#[test]
fn keys_from_the_environment() {
    let one = "01".repeat(32);
    let two = "02".repeat(32);
    let registry = build_key_registry_from_env(&vars(&[
        ("CRDT_KEY_a", &one),
        ("CRDT_KEY_b", "junk"),
        ("CRDT_ACL_c", &one),
        ("PATH", &one),
        ("CRDT_KEY_", &two),
        ("CRDT_KEY_d", &one),
        ("CRDT_KEY_d", &two),
        ("CRDT_KEY_d", "junk"),
    ]));
    assert_eq!(registry.len(), 3);
    assert_eq!(registry.get("a"), Some(&[1u8; 32]));
    assert_eq!(registry.get(""), Some(&[2u8; 32]));
    assert_eq!(registry.get("d"), Some(&[2u8; 32]));
    assert!(!registry.contains_key("b"));
}

#[test]
fn access_lists_from_the_environment() {
    let acl = build_acl_from_env(&vars(&[
        ("CRDT_ACL_a", "sensors.,status"),
        ("CRDT_ACL_b", " x ,, y z ,"),
        ("CRDT_ACL_c", " , "),
        ("CRDT_KEY_d", "x"),
    ]));
    assert_eq!(acl.len(), 2);
    assert_eq!(acl.get("a"), Some(&strings(&["sensors.", "status"])));
    assert_eq!(acl.get("b"), Some(&strings(&["x", "y z"])));
    assert!(acl_allows(&acl, "c", "anything"));
    assert!(!acl_allows(&acl, "a", "robot.x"));
    assert!(acl_allows(&acl, "a", "status.x"));
}

fn submit(envelope: Envelope) -> Submission {
    Submission { envelope, payload: Some(vec![1]) }
}

fn at(mut env: Envelope, timestamp: u64) -> Envelope {
    env.timestamp = timestamp;
    env
}

fn none() -> (KeyRegistry, Acl) {
    (KeyRegistry::new(), Acl::new())
}

#[test]
fn batch_is_applied_and_forwarded() {
    let (keys, acl) = none();
    let mut rooms = Rooms::new();
    rooms.join("r", None, 1);
    rooms.join("r", None, 2);
    rooms.join("r", None, 3);
    let mut client = StateStore::new("c");
    let batch = vec![
        submit(client.set_register("x", json("1"))),
        submit(client.set_register("x", json("2"))),
    ];
    let outcome = rooms.receive("r", 2, batch, &keys, &acl).unwrap();
    assert_eq!(outcome.verdicts, vec![Verdict::Accepted, Verdict::Accepted]);
    let mut peers = outcome.peers;
    peers.sort();
    assert_eq!(peers, vec![1, 3]);
    assert_eq!(outcome.prune, None);
    let store = rooms.get("r").unwrap().store();
    assert_eq!(store.get_register("x").unwrap().text(), "2");
    assert_eq!(store.clock(), 2);
    assert_eq!(store.node_id(), "server");
}

#[test]
fn refused_envelopes_are_not_applied() {
    let signing_key = SigningKey::from_bytes(&[9u8; 32]);
    let (mut keys, mut acl) = none();
    keys.insert("signed", signing_key.verifying_key().to_bytes());
    acl.insert("bound", vec!["ok.".to_string()]);
    let mut rooms = Rooms::new();
    rooms.join("r", None, 1);
    let mut good = make_envelope("signed", "s", 5);
    sign_envelope(&mut good, &signing_key);
    let payload = Some(payload_of(&good));
    let batch = vec![
        submit(make_envelope("signed", "a", 1)),
        submit(make_envelope("bound", "b", 2)),
        submit(make_envelope("bound", "ok.c", 3)),
        submit(make_envelope("free", "d", 4)),
        Submission { envelope: good, payload },
    ];
    let outcome = rooms.receive("r", 1, batch, &keys, &acl).unwrap();
    assert_eq!(
        outcome.verdicts,
        vec![
            Verdict::BadSignature(SignatureError::Missing),
            Verdict::NotAllowed,
            Verdict::Accepted,
            Verdict::Accepted,
            Verdict::Accepted,
        ]
    );
    let store = rooms.get("r").unwrap().store();
    assert!(store.get_register("a").is_none());
    assert!(store.get_register("b").is_none());
    assert_eq!(store.get_register("ok.c").unwrap().text(), "3");
    assert_eq!(store.get_register("d").unwrap().text(), "4");
    assert_eq!(store.get_register("s").unwrap().text(), "5");
}

#[test]
fn rooms_are_apart() {
    let (keys, acl) = none();
    let mut rooms = Rooms::new();
    rooms.join("a", None, 1);
    rooms.join("b", None, 2);
    rooms.receive("a", 1, vec![submit(make_envelope("n", "x", 1))], &keys, &acl);
    assert!(rooms.get("b").unwrap().store().get_register("x").is_none());
    assert!(rooms.receive("c", 1, vec![], &keys, &acl).is_none());
    assert!(rooms.get("c").is_none());
}

#[test]
fn empty_room_is_dropped() {
    let mut rooms = Rooms::new();
    rooms.join("r", None, 1);
    rooms.join("r", None, 2);
    rooms.leave("r", 1);
    rooms.leave("r", 7);
    rooms.leave("none", 1);
    assert_eq!(rooms.get("r").unwrap().client_count(), 1);
    assert!(rooms.get("r").unwrap().has_client(2));
    rooms.leave("r", 2);
    assert!(rooms.get("r").is_none());
    assert_eq!(rooms.rooms().len(), 0);
}

#[test]
fn saved_store_is_used_once() {
    let mut saved = StateStore::new("server");
    saved.set_register("x", json("7"));
    let mut rooms = Rooms::new();
    rooms.join("r", Some(saved), 1);
    rooms.join("r", Some(StateStore::new("server")), 2);
    let store = rooms.get("r").unwrap().store();
    assert_eq!(store.get_register("x").unwrap().text(), "7");
}

#[test]
fn removals_are_forgotten_when_all_have_moved_on() {
    let (keys, acl) = none();
    let mut rooms = Rooms::new();
    rooms.join("r", None, 1);
    rooms.join("r", None, 2);
    let mut a = StateStore::new("a");
    let insertion = a.seq_insert("q", 0, json("1"));
    let deletion = a.seq_delete("q", 0).unwrap();
    let addition = a.set_add("s", json("1"));
    let removal = a.set_remove("s", json("1")).unwrap();
    let batch = vec![
        submit(insertion),
        submit(deletion),
        submit(addition),
        submit(removal),
    ];
    // Times 1 to 4; the removals are at 2 and 4.
    let outcome = rooms.receive("r", 1, batch, &keys, &acl).unwrap();
    assert_eq!(outcome.prune, None);
    // The other client is at 3: past the first removal, not the second.
    let write = at(make_envelope("b", "x", 1), 3);
    let outcome = rooms.receive("r", 2, vec![submit(write)], &keys, &acl).unwrap();
    assert_eq!(outcome.prune, Some(2));
    // A third client starts at the latest time, 4; at 5 all have moved past 4 but it.
    rooms.join("r", None, 3);
    let write = at(make_envelope("b", "x", 2), 5);
    let outcome = rooms.receive("r", 2, vec![submit(write)], &keys, &acl).unwrap();
    assert_eq!(outcome.prune, None);
    rooms.leave("r", 3);
    rooms.leave("r", 1);
    let write = at(make_envelope("b", "x", 3), 6);
    let outcome = rooms.receive("r", 2, vec![submit(write)], &keys, &acl).unwrap();
    assert_eq!(outcome.prune, Some(4));
    let outcome = rooms.receive("r", 2, vec![], &keys, &acl).unwrap();
    assert_eq!(outcome.prune, None);
}

#[test]
fn batch_from_outside_the_room_lets_nobody_in() {
    let (keys, acl) = none();
    let mut rooms = Rooms::new();
    rooms.join("r", None, 1);
    let write = submit(make_envelope("n", "x", 1));
    let outcome = rooms.receive("r", 9, vec![write], &keys, &acl).unwrap();
    assert_eq!(outcome.peers, vec![1]);
    assert!(!rooms.get("r").unwrap().has_client(9));
    assert_eq!(rooms.get("r").unwrap().client_count(), 1);
    let write = submit(make_envelope("n", "x", 2));
    let outcome = rooms.receive("r", 1, vec![write], &keys, &acl).unwrap();
    assert!(outcome.peers.is_empty());
}

#[test]
fn fresh_room_belongs_to_the_server() {
    let mut rooms = Rooms::new();
    rooms.join("r", None, 1);
    assert_eq!(rooms.get("r").unwrap().store().node_id(), "server");
    rooms.join("s", Some(StateStore::new("other")), 1);
    assert_eq!(rooms.get("s").unwrap().store().node_id(), "other");
}
