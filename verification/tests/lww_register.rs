use crdt_sync::lww_register::{LWWOp, LWWRegister};

#[test]
fn new_register_is_empty() {
    let reg: LWWRegister<i32> = LWWRegister::new("n1");
    assert_eq!(reg.get(), None);
    assert_eq!(reg.timestamp(), None);
}

#[test]
fn set_and_apply_stores_value() {
    let mut reg: LWWRegister<i32> = LWWRegister::new("n1");
    reg.set_and_apply(42, 1);
    assert_eq!(reg.get(), Some(&42));
}

#[test]
fn set_does_not_change_the_register() {
    let reg: LWWRegister<i32> = LWWRegister::new("n1");
    let op = reg.set(3, 9);
    assert_eq!(op, LWWOp { value: 3, timestamp: 9, node_id: "n1".into() });
    assert_eq!(reg.get(), None);
}

#[test]
fn higher_timestamp_wins() {
    let mut reg: LWWRegister<i32> = LWWRegister::new("n1");
    reg.set_and_apply(10, 1);
    reg.apply(LWWOp { value: 20, timestamp: 2, node_id: "n2".into() });
    assert_eq!(reg.get(), Some(&20));
}

#[test]
fn lower_timestamp_is_rejected() {
    let mut reg: LWWRegister<i32> = LWWRegister::new("n1");
    reg.set_and_apply(10, 5);
    let accepted = reg.apply(LWWOp { value: 99, timestamp: 3, node_id: "n2".into() });
    assert!(!accepted);
    assert_eq!(reg.get(), Some(&10));
}

#[test]
fn tie_broken_by_node_id() {
    let mut a: LWWRegister<i32> = LWWRegister::new("node-A");
    let mut b: LWWRegister<i32> = LWWRegister::new("node-B");

    let op_a = a.set_and_apply(10, 1);
    let op_b = b.set_and_apply(20, 1);

    a.apply(op_b.clone());
    b.apply(op_a.clone());

    assert_eq!(a.get(), Some(&20));
    assert_eq!(b.get(), Some(&20));
}

#[test]
fn same_stamp_keeps_the_first_value() {
    let mut reg: LWWRegister<i32> = LWWRegister::new("n1");
    assert!(reg.apply(LWWOp { value: 1, timestamp: 4, node_id: "n2".into() }));
    assert!(!reg.apply(LWWOp { value: 2, timestamp: 4, node_id: "n2".into() }));
    assert_eq!(reg.get(), Some(&1));
}

#[test]
fn names_are_compared_as_text() {
    let mut reg: LWWRegister<i32> = LWWRegister::new("n1");
    assert!(reg.apply(LWWOp { value: 1, timestamp: 4, node_id: "node".into() }));
    assert!(!reg.apply(LWWOp { value: 2, timestamp: 4, node_id: "Node-B".into() }));
    assert!(!reg.apply(LWWOp { value: 3, timestamp: 4, node_id: "nod".into() }));
    assert!(reg.apply(LWWOp { value: 4, timestamp: 4, node_id: "node-".into() }));
    assert!(reg.apply(LWWOp { value: 5, timestamp: 4, node_id: "n\u{f6}de".into() }));
    assert_eq!(reg.get(), Some(&5));
}

#[test]
fn lww_register_apply_is_idempotent() {
    let mut reg: LWWRegister<i32> = LWWRegister::new("n1");
    let op = reg.set_and_apply(7, 1);
    reg.apply(op.clone());
    reg.apply(op);
    assert_eq!(reg.get(), Some(&7));
}

#[test]
fn lww_register_apply_is_commutative() {
    let ops = vec![
        LWWOp { value: 1, timestamp: 3, node_id: "n1".into() },
        LWWOp { value: 2, timestamp: 1, node_id: "n2".into() },
        LWWOp { value: 3, timestamp: 2, node_id: "n3".into() },
    ];

    let mut reg1: LWWRegister<i32> = LWWRegister::new("n0");
    for op in ops.iter() {
        reg1.apply(op.clone());
    }

    let mut reg2: LWWRegister<i32> = LWWRegister::new("n0");
    for op in ops.iter().rev() {
        reg2.apply(op.clone());
    }

    assert_eq!(reg1.get(), reg2.get());
    assert_eq!(reg1.get(), Some(&1));
}

#[test]
fn lww_register_merge_empty_into_non_empty_is_noop() {
    let mut a: LWWRegister<i32> = LWWRegister::new("n1");
    a.set_and_apply(42, 1);
    let b: LWWRegister<i32> = LWWRegister::new("n2");
    a.merge(&b);
    assert_eq!(a.get(), Some(&42));
}

#[test]
fn lww_register_merge_non_empty_into_empty() {
    let mut a: LWWRegister<i32> = LWWRegister::new("n1");
    let mut b: LWWRegister<i32> = LWWRegister::new("n2");
    b.set_and_apply(99, 5);
    a.merge(&b);
    assert_eq!(a.get(), Some(&99));
    assert_eq!(a.timestamp(), Some(5));
}

#[test]
fn lww_register_merge_is_commutative() {
    let mut a: LWWRegister<i32> = LWWRegister::new("node-A");
    let mut b: LWWRegister<i32> = LWWRegister::new("node-B");
    a.set_and_apply(10, 3);
    b.set_and_apply(20, 3);

    let a2 = a.clone();
    let mut b2 = b.clone();

    a.merge(&b);
    b2.merge(&a2);

    assert_eq!(a.get(), b2.get());
    assert_eq!(a.get(), Some(&20));
}

#[test]
fn lww_register_merge_is_associative() {
    let mut a: LWWRegister<i32> = LWWRegister::new("n1");
    let mut b: LWWRegister<i32> = LWWRegister::new("n2");
    let mut c: LWWRegister<i32> = LWWRegister::new("n3");
    a.set_and_apply(1, 1);
    b.set_and_apply(2, 2);
    c.set_and_apply(3, 3);

    let mut ab = a.clone();
    ab.merge(&b);
    let mut ab_c = ab.clone();
    ab_c.merge(&c);

    let mut bc = b.clone();
    bc.merge(&c);
    let mut a_bc = a.clone();
    a_bc.merge(&bc);

    assert_eq!(ab_c.get(), a_bc.get());
}

#[test]
fn lww_register_merge_is_idempotent() {
    let mut a: LWWRegister<i32> = LWWRegister::new("n1");
    a.set_and_apply(7, 1);
    let snapshot = a.clone();
    a.merge(&snapshot);
    a.merge(&snapshot);
    assert_eq!(a.get(), Some(&7));
    assert_eq!(a.timestamp(), Some(1));
}

#[test]
fn merge_higher_timestamp_wins() {
    let mut a: LWWRegister<i32> = LWWRegister::new("n1");
    let mut b: LWWRegister<i32> = LWWRegister::new("n2");
    a.set_and_apply(10, 1);
    b.set_and_apply(20, 5);

    a.merge(&b);
    assert_eq!(a.get(), Some(&20));
    assert_eq!(a.timestamp(), Some(5));
}

#[test]
fn held_write_is_restored() {
    let mut a: LWWRegister<i32> = LWWRegister::new("n1");
    a.apply(LWWOp { value: 8, timestamp: 6, node_id: "n9".into() });
    let b = LWWRegister::restore("n1", a.held());
    assert_eq!(b.held(), Some(LWWOp { value: 8, timestamp: 6, node_id: "n9".into() }));
    let empty: LWWRegister<i32> = LWWRegister::restore("n1", None);
    assert_eq!(empty.get(), None);
}

/// Numbers that look random, the same in every run.
fn numbers(seed: u64, n: usize) -> Vec<u64> {
    let mut x = seed;
    (0..n)
        .map(|_| {
            x = x.wrapping_mul(6364136223846793005).wrapping_add(1442695040888963407);
            x >> 33
        })
        .collect()
}

#[test]
fn lww_register_converges_under_chaos() {
    for seed in 0..40u64 {
        let r = numbers(seed, 90);
        let mut ops: Vec<LWWOp<u64>> = Vec::new();
        for k in 0..30 {
            let (time, node) = (r[3 * k] % 20, r[3 * k + 1] % 5);
            // One value for each stamp.
            ops.push(LWWOp {
                value: 100 * time + node,
                timestamp: time,
                node_id: format!("n{}", node),
            });
        }
        let mut first: LWWRegister<u64> = LWWRegister::new("a");
        for op in &ops {
            first.apply(op.clone());
        }
        let mut second: LWWRegister<u64> = LWWRegister::new("b");
        for k in 0..60 {
            second.apply(ops[r[k] as usize % 30].clone());
        }
        for op in ops.iter().rev() {
            second.apply(op.clone());
        }
        assert_eq!(first.held(), second.held());
    }
}
