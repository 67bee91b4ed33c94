use crdt_sync::or_set::{ORSet, ORSetOp};

fn in_order<T: Ord + Clone>(items: Vec<&T>) -> Vec<T> {
    let mut items: Vec<T> = items.into_iter().cloned().collect();
    items.sort();
    items
}

#[test]
fn empty_set() {
    let s: ORSet<i32> = ORSet::new("n1");
    assert!(s.is_empty());
    assert!(!s.contains(&1));
}

#[test]
fn add_and_contains() {
    let mut s: ORSet<i32> = ORSet::new("n1");
    let op = s.add(42);
    s.apply(op);
    assert!(s.contains(&42));
    assert_eq!(s.len(), 1);
}

#[test]
fn remove_element() {
    let mut s: ORSet<i32> = ORSet::new("n1");
    let add_op = s.add(42);
    s.apply(add_op);

    let rem_op = s.remove(&42).unwrap();
    s.apply(rem_op);

    assert!(!s.contains(&42));
    assert!(s.is_empty());
}

#[test]
fn remove_nonexistent_returns_none() {
    let s: ORSet<i32> = ORSet::new("n1");
    assert!(s.remove(&99).is_none());
}

#[test]
fn concurrent_add_beats_remove() {
    let mut node_a: ORSet<&str> = ORSet::new("A");
    let mut node_b: ORSet<&str> = ORSet::new("B");

    let first_add = node_a.add("x");
    node_a.apply(first_add.clone());
    node_b.apply(first_add);

    let remove_op = node_b.remove(&"x").unwrap();

    let second_add = node_a.add("x");

    node_a.apply(remove_op.clone());
    node_a.apply(second_add.clone());

    node_b.apply(second_add);
    node_b.apply(remove_op);

    assert!(node_a.contains(&"x"));
    assert!(node_b.contains(&"x"));
}

#[test]
fn or_set_apply_is_idempotent() {
    let mut s: ORSet<i32> = ORSet::new("n1");
    let op = s.add(1);
    s.apply(op.clone());
    s.apply(op.clone());
    s.apply(op);
    assert_eq!(s.len(), 1);
}

#[test]
fn multiple_elements() {
    let mut s: ORSet<i32> = ORSet::new("n1");
    for i in 0..5 {
        let op = s.add(i);
        s.apply(op);
    }
    assert_eq!(s.len(), 5);
    let rem = s.remove(&2).unwrap();
    s.apply(rem);
    assert_eq!(s.len(), 4);
    assert!(!s.contains(&2));
}

#[test]
fn or_set_apply_is_commutative() {
    let mut s1: ORSet<i32> = ORSet::new("n1");
    let mut s2: ORSet<i32> = ORSet::new("n1");

    let op_a = s1.add(1);
    let op_b = s1.add(2);

    s1.apply(op_a.clone());
    s1.apply(op_b.clone());

    s2.apply(op_b);
    s2.apply(op_a);

    assert_eq!(in_order(s1.iter()), in_order(s2.iter()));
    assert_eq!(in_order(s1.iter()), vec![1, 2]);
}

fn token_of(op: &ORSetOp<i32>) -> String {
    match op {
        ORSetOp::Add { token, .. } => token.clone(),
        ORSetOp::Remove { .. } => panic!("not an addition"),
    }
}

#[test]
fn tokens_hold_a_random_uuid() {
    let s: ORSet<i32> = ORSet::new("node");
    let (a, b) = (token_of(&s.add(1)), token_of(&s.add(1)));
    assert_ne!(a, b);
    let suffix = a.strip_prefix("node-").unwrap();
    assert_eq!(suffix.len(), 36);
    for (i, c) in suffix.chars().enumerate() {
        if [8, 13, 18, 23].contains(&i) {
            assert_eq!(c, '-');
        } else {
            assert!(c.is_ascii_digit() || ('a'..='f').contains(&c));
        }
    }
    assert_eq!(suffix.as_bytes()[14], b'4');
    assert!(b"89ab".contains(&suffix.as_bytes()[19]));
}

#[test]
fn add_with_makes_the_token() {
    let s: ORSet<i32> = ORSet::new("A");
    assert_eq!(s.add_with(5, "x"), ORSetOp::Add { value: 5, token: "A-x".into() });
    assert!(s.is_empty());
}

#[test]
fn remove_lists_all_tokens_seen() {
    let mut s: ORSet<i32> = ORSet::new("A");
    for suffix in ["1", "2", "2"] {
        let op = s.add_with(7, suffix);
        s.apply(op);
    }
    let other = s.add_with(8, "3");
    s.apply(other);
    match s.remove(&7).unwrap() {
        ORSetOp::Remove { mut tokens } => {
            tokens.sort();
            assert_eq!(tokens, vec!["A-1".to_string(), "A-2".to_string()]);
        }
        ORSetOp::Add { .. } => panic!("not a removal"),
    }
}

#[test]
fn removal_takes_tokens_from_every_element() {
    let mut s: ORSet<i32> = ORSet::new("A");
    s.apply(ORSetOp::Add { value: 1, token: "t".into() });
    s.apply(ORSetOp::Add { value: 2, token: "t".into() });
    s.apply(ORSetOp::Add { value: 2, token: "u".into() });
    s.apply(ORSetOp::Remove { tokens: vec!["t".into()] });
    assert_eq!(in_order(s.iter()), vec![2]);
}

#[test]
fn removal_that_arrives_first_holds() {
    let mut s: ORSet<i32> = ORSet::new("A");
    s.apply(ORSetOp::Remove { tokens: vec!["t".into()] });
    assert_eq!(s.removed(), &vec!["t".to_string()]);
    s.apply(ORSetOp::Add { value: 1, token: "t".into() });
    assert!(!s.contains(&1));
    s.apply(ORSetOp::Add { value: 1, token: "u".into() });
    assert!(s.contains(&1));
}

#[test]
fn replayed_addition_does_not_bring_back() {
    let mut s: ORSet<i32> = ORSet::new("n1");
    let op = ORSetOp::Add { value: 1, token: "t1".into() };
    s.apply(op.clone());
    s.apply(ORSetOp::Remove { tokens: vec!["t1".into()] });
    s.apply(op);
    assert!(!s.contains(&1));
    assert_eq!(s.len(), 0);
}

#[test]
fn merge_takes_over_removals() {
    let mut a: ORSet<i32> = ORSet::new("A");
    a.apply(ORSetOp::Add { value: 1, token: "t".into() });
    a.apply(ORSetOp::Add { value: 2, token: "u".into() });
    let mut b = a.clone();
    b.apply(ORSetOp::Remove { tokens: vec!["t".into()] });
    let mut ab = a.clone();
    ab.merge(&b);
    let mut ba = b.clone();
    ba.merge(&a);
    assert_eq!(in_order(ab.iter()), vec![2]);
    assert_eq!(in_order(ba.iter()), vec![2]);
    ab.apply(ORSetOp::Add { value: 1, token: "t".into() });
    assert_eq!(in_order(ab.iter()), vec![2]);
}

#[test]
fn or_set_merge_unites() {
    let mut a: ORSet<i32> = ORSet::new("A");
    let mut b: ORSet<i32> = ORSet::new("B");
    a.apply(ORSetOp::Add { value: 1, token: "a".into() });
    b.apply(ORSetOp::Add { value: 1, token: "b".into() });
    b.apply(ORSetOp::Add { value: 2, token: "c".into() });
    let mut ab = a.clone();
    ab.merge(&b);
    let mut ba = b.clone();
    ba.merge(&a);
    ba.merge(&a);
    assert_eq!(in_order(ab.iter()), vec![1, 2]);
    assert_eq!(in_order(ba.iter()), vec![1, 2]);
    ab.apply(ORSetOp::Remove { tokens: vec!["a".into()] });
    assert_eq!(in_order(ab.iter()), vec![1, 2]);
    ab.apply(ORSetOp::Remove { tokens: vec!["b".into()] });
    assert_eq!(in_order(ab.iter()), vec![2]);
}

#[test]
fn strings_are_elements_too() {
    let mut s: ORSet<String> = ORSet::new("node-1");
    let op = s.add("robot-A".to_string());
    s.apply(op);
    assert!(s.contains(&"robot-A".to_string()));
}

#[test]
fn orset_converges_under_chaos() {
    for seed in 0..40u64 {
        let mut x = seed;
        let mut next = move || {
            x = x.wrapping_mul(6364136223846793005).wrapping_add(1442695040888963407);
            (x >> 33) as usize
        };
        let mut source: ORSet<u8> = ORSet::new("source");
        let mut ops: Vec<ORSetOp<u8>> = Vec::new();
        for _ in 0..40 {
            let value = (next() % 10) as u8;
            let op = if next() % 3 == 0 { source.remove(&value) } else { Some(source.add(value)) };
            if let Some(op) = op {
                source.apply(op.clone());
                ops.push(op);
            }
        }
        // Additions in any order and more than once, then the removals in any order.
        let mut additions: Vec<ORSetOp<u8>> = Vec::new();
        let mut removals: Vec<ORSetOp<u8>> = Vec::new();
        for op in &ops {
            match op {
                ORSetOp::Add { .. } => additions.push(op.clone()),
                ORSetOp::Remove { .. } => removals.push(op.clone()),
            }
        }
        additions.reverse();
        let mut replica: ORSet<u8> = ORSet::new("replica");
        for _ in 0..20 {
            replica.apply(additions[next() % additions.len()].clone());
        }
        for op in additions.iter().chain(removals.iter().rev()) {
            replica.apply(op.clone());
        }
        for op in &removals {
            replica.apply(op.clone());
        }
        assert_eq!(in_order(source.iter()), in_order(replica.iter()));
    }
}

#[test]
fn addition_carries_its_value() {
    let s: ORSet<String> = ORSet::new("n1");
    match s.add_with("x".to_string(), "1") {
        ORSetOp::Add { value, token } => {
            assert_eq!(value, "x");
            assert_eq!(token.as_str(), "n1-1");
        }
        ORSetOp::Remove { .. } => panic!("an addition"),
    }
}

#[test]
fn values_stand_for_elements_that_have_left() {
    let mut s: ORSet<i32> = ORSet::new("n1");
    let op = s.add(1);
    s.apply(op);
    let op = s.add(2);
    s.apply(op);
    let op = s.remove(&1).unwrap();
    s.apply(op);
    assert_eq!(in_order(s.iter()), vec![2]);
    assert_eq!(in_order(s.values()), vec![1, 2]);
    s.remember(3);
    s.remember(3);
    assert!(!s.contains(&3));
    assert_eq!(s.len(), 1);
    assert_eq!(in_order(s.values()), vec![1, 2, 3]);
}
