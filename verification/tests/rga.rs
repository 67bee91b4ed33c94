use crdt_sync::rga::{RGAId, RGANode, RGAOp, RGAState, RGA};

#[test]
fn new_rga_is_empty() {
    let r: RGA<char> = RGA::new("n1");
    assert!(r.is_empty());
    assert_eq!(r.to_vec(), Vec::<char>::new());
}

#[test]
fn single_insert() {
    let mut r: RGA<char> = RGA::new("n1");
    r.insert(0, 'A');
    assert_eq!(r.to_vec(), vec!['A']);
}

#[test]
fn multiple_inserts_in_order() {
    let mut r: RGA<char> = RGA::new("n1");
    r.insert(0, 'H');
    r.insert(1, 'i');
    r.insert(2, '!');
    assert_eq!(r.to_vec(), vec!['H', 'i', '!']);
}

#[test]
fn insert_at_beginning() {
    let mut r: RGA<char> = RGA::new("n1");
    r.insert(0, 'B');
    r.insert(0, 'A');
    assert_eq!(r.to_vec(), vec!['A', 'B']);
}

#[test]
fn delete_element() {
    let mut r: RGA<char> = RGA::new("n1");
    r.insert(0, 'A');
    r.insert(1, 'B');
    r.insert(2, 'C');
    r.delete(1);
    assert_eq!(r.to_vec(), vec!['A', 'C']);
}

#[test]
fn apply_insert_op_is_idempotent() {
    let mut r: RGA<char> = RGA::new("n1");
    let op = r.insert_op(0, 'X');
    r.apply(op.clone());
    r.apply(op.clone());
    r.apply(op);
    assert_eq!(r.to_vec(), vec!['X']);
}

#[test]
fn two_replicas_converge() {
    let mut a: RGA<char> = RGA::new("A");
    let mut b: RGA<char> = RGA::new("B");

    let op1 = a.insert(0, 'A');
    let op2 = a.insert(1, 'B');

    b.apply(op2);
    b.apply(op1);

    assert_eq!(a.to_vec(), b.to_vec());
}

#[test]
fn concurrent_inserts_are_deterministic() {
    let mut a: RGA<char> = RGA::new("A");
    let mut b: RGA<char> = RGA::new("B");

    let op_a = a.insert_op(0, 'A');
    let op_b = b.insert_op(0, 'B');

    a.apply(op_a.clone());
    a.apply(op_b.clone());

    b.apply(op_b);
    b.apply(op_a);

    assert_eq!(a.to_vec(), b.to_vec());
    assert_eq!(a.len(), 2);
}

#[test]
fn delete_then_reinsert_after() {
    let mut r: RGA<char> = RGA::new("n1");
    r.insert(0, 'A');
    r.insert(1, 'B');
    r.delete(0);
    r.insert(0, 'C');
    assert_eq!(r.to_vec(), vec!['C', 'B']);
}

#[test]
fn remote_delete_applied_before_insert() {
    let mut a: RGA<char> = RGA::new("A");
    let mut b: RGA<char> = RGA::new("B");

    let ins = a.insert(0, 'Z');
    b.apply(ins);

    let del = b.delete(0).unwrap();

    a.apply(del);
    assert!(a.is_empty());
}

#[test]
fn rga_merge_empty_into_non_empty_is_noop() {
    let mut a: RGA<char> = RGA::new("A");
    a.insert(0, 'X');
    let b: RGA<char> = RGA::new("B");
    a.merge(&b);
    assert_eq!(a.to_vec(), vec!['X']);
}

#[test]
fn rga_merge_non_empty_into_empty() {
    let mut a: RGA<char> = RGA::new("A");
    let mut b: RGA<char> = RGA::new("B");
    b.insert(0, 'H');
    b.insert(1, 'i');
    a.merge(&b);
    assert_eq!(a.to_vec(), vec!['H', 'i']);
}

#[test]
fn rga_merge_is_commutative() {
    let mut a: RGA<char> = RGA::new("A");
    let mut b: RGA<char> = RGA::new("B");

    a.insert(0, 'A');
    b.insert(0, 'B');

    let a2 = a.clone();
    let b2 = b.clone();

    a.merge(&b);
    b.merge(&a2);

    assert_eq!(a.to_vec(), b.to_vec());
    assert_eq!(a.len(), 2);

    let mut b3 = b2.clone();
    b3.merge(&a2);
    assert_eq!(a.to_vec(), b3.to_vec());
}

#[test]
fn rga_merge_is_associative() {
    let mut a: RGA<char> = RGA::new("A");
    let mut b: RGA<char> = RGA::new("B");
    let mut c: RGA<char> = RGA::new("C");

    a.insert(0, 'A');
    b.insert(0, 'B');
    c.insert(0, 'C');

    let mut ab = a.clone();
    ab.merge(&b);
    let mut ab_c = ab.clone();
    ab_c.merge(&c);

    let mut bc = b.clone();
    bc.merge(&c);
    let mut a_bc = a.clone();
    a_bc.merge(&bc);

    assert_eq!(ab_c.to_vec(), a_bc.to_vec());
}

#[test]
fn rga_merge_is_idempotent() {
    let mut a: RGA<char> = RGA::new("A");
    a.insert(0, 'X');
    a.insert(1, 'Y');
    let snapshot = a.clone();
    a.merge(&snapshot);
    a.merge(&snapshot);
    assert_eq!(a.to_vec(), vec!['X', 'Y']);
}

#[test]
fn merge_propagates_tombstones() {
    let mut a: RGA<char> = RGA::new("A");
    let mut b: RGA<char> = RGA::new("B");

    let op = a.insert(0, 'Z');
    b.apply(op);

    a.delete(0);

    b.merge(&a);
    assert!(b.is_empty());
}

#[test]
fn merge_concurrent_inserts_converge() {
    let mut a: RGA<char> = RGA::new("A");
    let mut b: RGA<char> = RGA::new("B");

    a.insert(0, 'A');
    b.insert(0, 'B');

    let a2 = a.clone();
    let b2 = b.clone();

    a.merge(&b2);
    b.merge(&a2);

    assert_eq!(a.to_vec(), b.to_vec());
    assert_eq!(a.len(), 2);
}

#[test]
fn merge_disjoint_sequences() {
    let mut a: RGA<i32> = RGA::new("A");
    let mut b: RGA<i32> = RGA::new("B");

    for i in 1..=3 {
        a.insert(a.len(), i);
    }
    for i in 4..=6 {
        b.insert(b.len(), i);
    }

    let mut merged = a.clone();
    merged.merge(&b);

    assert_eq!(merged.len(), 6);
    let mut v = merged.to_vec();
    v.sort();
    assert_eq!(v, vec![1, 2, 3, 4, 5, 6]);
}

fn id(clock: u64, node: &str) -> RGAId {
    RGAId { clock, node_id: node.to_string() }
}

fn insert(clock: u64, node: &str, after: Option<(u64, &str)>, value: char) -> RGAOp<char> {
    RGAOp::Insert { id: id(clock, node), after_id: after.map(|(c, n)| id(c, n)), value }
}

#[test]
fn ids_are_ordered_by_clock_and_name() {
    assert!(id(1, "z") < id(2, "a"));
    assert!(id(2, "a") < id(2, "b"));
    assert!(id(2, "a") < id(2, "aa"));
    assert!(id(2, "b") > id(2, "a"));
    assert_eq!(RGAId::new(2, "b"), id(2, "b"));
}

#[test]
fn newer_elements_stand_before_older_ones() {
    let mut r: RGA<char> = RGA::new("n");
    r.apply(insert(1, "a", None, 'p'));
    r.apply(insert(2, "a", Some((1, "a")), 'x'));
    r.apply(insert(2, "b", Some((1, "a")), 'y'));
    r.apply(insert(4, "a", Some((1, "a")), 'z'));
    assert_eq!(r.to_vec(), vec!['p', 'z', 'y', 'x']);
}

#[test]
fn operations_carry_their_identifier() {
    let mut r: RGA<char> = RGA::new("n");
    let op = r.insert(0, 'a');
    assert_eq!(op.id(), Some(id(1, "n")));
    assert_eq!(op, insert(1, "n", None, 'a'));
    let second = r.insert(1, 'b');
    assert_eq!(second, insert(2, "n", Some((1, "n")), 'b'));
    let del = r.delete(0).unwrap();
    assert_eq!(del, RGAOp::Delete { id: id(1, "n") });
    assert_eq!(del.id(), None);
    assert_eq!(r.delete(1), None);
}

#[test]
fn held_back_insertions_are_released_in_a_chain() {
    let mut r: RGA<char> = RGA::new("n");
    r.apply(insert(3, "a", Some((2, "a")), 'c'));
    r.apply(insert(2, "a", Some((1, "a")), 'b'));
    assert_eq!(r.state().pending.len(), 2);
    assert!(r.is_empty());
    r.apply(insert(1, "a", None, 'a'));
    assert_eq!(r.to_vec(), vec!['a', 'b', 'c']);
    assert_eq!(r.state().pending.len(), 0);
    assert_eq!(r.clock(), 3);
}

#[test]
fn deletion_that_arrives_first_holds() {
    let mut r: RGA<char> = RGA::new("n");
    r.apply(RGAOp::Delete { id: id(1, "a") });
    assert_eq!(r.clock(), 1);
    assert_eq!(r.state().graves, vec![id(1, "a")]);
    r.apply(RGAOp::Delete { id: id(1, "a") });
    assert_eq!(r.state().graves.len(), 1);
    r.apply(insert(1, "a", None, 'x'));
    assert!(r.to_vec().is_empty());
    assert!(r.state().graves.is_empty());
    assert!(r.state().nodes[0].deleted);
    r.apply(insert(1, "a", None, 'x'));
    assert!(r.to_vec().is_empty());
    assert_eq!(r.insert(0, 'y').id(), Some(id(2, "n")));
    assert_eq!(r.to_vec(), vec!['y']);
}

#[test]
fn deletion_holds_for_an_element_that_is_held_back() {
    let mut r: RGA<char> = RGA::new("n");
    r.apply(insert(2, "a", Some((1, "a")), 'y'));
    r.apply(RGAOp::Delete { id: id(2, "a") });
    r.apply(insert(3, "a", Some((2, "a")), 'z'));
    r.apply(insert(1, "a", None, 'x'));
    assert_eq!(r.to_vec(), vec!['x', 'z']);
}

#[test]
fn every_order_of_arrival_shows_the_same() {
    let ops = [
        insert(1, "a", None, 'x'),
        insert(2, "a", Some((1, "a")), 'y'),
        insert(2, "b", Some((1, "a")), 'z'),
        RGAOp::Delete { id: id(2, "a") },
    ];
    for first in 0..4 {
        for second in 0..4 {
            for third in 0..4 {
                for fourth in 0..4 {
                    let order = [first, second, third, fourth];
                    if (0..4).any(|i| !order.contains(&i)) {
                        continue;
                    }
                    let mut r: RGA<char> = RGA::new("n");
                    for i in order {
                        r.apply(ops[i].clone());
                    }
                    assert_eq!(r.to_vec(), vec!['x', 'z']);
                    r.apply(ops[first].clone());
                    assert_eq!(r.to_vec(), vec!['x', 'z']);
                }
            }
        }
    }
}

#[test]
fn received_clock_moves_the_own_clock() {
    let mut r: RGA<char> = RGA::new("n");
    r.apply(insert(9, "a", None, 'x'));
    assert_eq!(r.insert(0, 'y').id(), Some(id(10, "n")));
    assert_eq!(r.to_vec(), vec!['y', 'x']);
}

#[test]
fn pruning_drops_old_tombstones_only() {
    let mut r: RGA<char> = RGA::new("n");
    for (i, c) in ['a', 'b', 'c', 'd'].into_iter().enumerate() {
        r.insert(i, c);
    }
    r.delete(0);
    r.delete(1);
    assert_eq!(r.to_vec(), vec!['b', 'd']);
    r.prune_tombstones(2);
    let left: Vec<(u64, bool)> = r.state().nodes.iter().map(|n| (n.id.clock, n.deleted)).collect();
    assert_eq!(left, vec![(2, false), (3, true), (4, false)]);
    r.prune_tombstones(3);
    assert_eq!(r.state().nodes.len(), 2);
    assert_eq!(r.to_vec(), vec!['b', 'd']);
}

#[test]
fn iter_gives_what_is_visible() {
    let mut r: RGA<char> = RGA::new("n");
    r.insert(0, 'a');
    r.insert(1, 'b');
    r.delete(0);
    assert_eq!(r.iter(), vec![&'b']);
}

#[test]
fn state_is_restored() {
    let mut r: RGA<char> = RGA::new("n");
    r.insert(0, 'a');
    r.insert(1, 'b');
    r.delete(0);
    r.apply(insert(7, "x", Some((6, "x")), 'z'));
    let mut back = RGA::restore("n", r.state()).unwrap();
    assert_eq!(back.to_vec(), vec!['b']);
    assert_eq!(back.clock(), 7);
    back.apply(insert(6, "x", None, 'y'));
    assert_eq!(back.to_vec(), vec!['y', 'z', 'b']);
}

fn node(clock: u64, value: char) -> RGANode<char> {
    RGANode { id: id(clock, "n"), value, deleted: false }
}

#[test]
fn impossible_states_are_not_restored() {
    let twice = RGAState {
        clock: 1,
        nodes: vec![node(1, 'a'), node(1, 'b')],
        pending: vec![],
        graves: vec![],
    };
    assert!(RGA::restore("n", twice).is_none());
    let ahead =
        RGAState { clock: 1, nodes: vec![node(2, 'a')], pending: vec![], graves: vec![] };
    assert!(RGA::restore("n", ahead).is_none());
    let ready = RGAState {
        clock: 2,
        nodes: vec![node(1, 'a')],
        pending: vec![insert(2, "n", Some((1, "n")), 'b')],
        graves: vec![],
    };
    assert!(RGA::restore("n", ready).is_none());
    let deletion = RGAState {
        clock: 2,
        nodes: vec![],
        pending: vec![RGAOp::<char>::Delete { id: id(1, "n") }],
        graves: vec![],
    };
    assert!(RGA::restore("n", deletion).is_none());
    let alive =
        RGAState { clock: 1, nodes: vec![node(1, 'a')], pending: vec![], graves: vec![id(1, "n")] };
    assert!(RGA::restore("n", alive).is_none());
    let fine = RGAState {
        clock: 3,
        nodes: vec![node(1, 'a')],
        pending: vec![insert(3, "n", Some((2, "n")), 'b')],
        graves: vec![id(2, "n")],
    };
    assert_eq!(RGA::restore("n", fine).unwrap().to_vec(), vec!['a']);
}

#[test]
fn merge_releases_what_waited() {
    let mut a: RGA<char> = RGA::new("A");
    a.apply(insert(2, "B", Some((1, "B")), 'y'));
    let mut b: RGA<char> = RGA::new("B");
    b.apply(insert(1, "B", None, 'x'));
    let b2 = b.clone();
    b.merge(&a);
    assert_eq!(b.to_vec(), vec!['x', 'y']);
    a.merge(&b2);
    assert_eq!(a.to_vec(), vec!['x', 'y']);
}

#[test]
fn merge_takes_over_what_is_held_back_and_what_was_deleted() {
    let mut a: RGA<char> = RGA::new("A");
    a.apply(insert(3, "C", Some((2, "C")), 'z'));
    a.apply(RGAOp::Delete { id: id(1, "C") });
    let mut b: RGA<char> = RGA::new("B");
    b.merge(&a);
    b.merge(&a);
    assert_eq!(b.state().pending.len(), 1);
    assert_eq!(b.state().graves, vec![id(1, "C")]);
    assert_eq!(b.clock(), 3);
    b.apply(insert(1, "C", None, 'x'));
    b.apply(insert(2, "C", Some((1, "C")), 'y'));
    assert_eq!(b.to_vec(), vec!['y', 'z']);
}

#[test]
fn merge_keeps_the_order_of_both() {
    let mut a: RGA<char> = RGA::new("A");
    let base: Vec<RGAOp<char>> = vec![a.insert(0, '1'), a.insert(1, '2'), a.insert(2, '3')];
    let mut b: RGA<char> = RGA::new("B");
    for op in &base {
        b.apply(op.clone());
    }
    a.insert(1, 'a');
    a.delete(0);
    b.insert(1, 'b');
    b.insert(4, 'c');
    let (a2, b2) = (a.clone(), b.clone());
    a.merge(&b2);
    b.merge(&a2);
    assert_eq!(a.to_vec(), vec!['b', 'a', '2', '3', 'c']);
    assert_eq!(b.to_vec(), a.to_vec());
    a.merge(&b2);
    assert_eq!(b.to_vec(), a.to_vec());
}

#[test]
fn rga_converges_under_chaos() {
    for seed in 0..40u64 {
        let mut x = seed;
        let mut next = move || {
            x = x.wrapping_mul(6364136223846793005).wrapping_add(1442695040888963407);
            (x >> 33) as usize
        };
        // Three replicas edit and now and then exchange what they did.
        let mut replicas: Vec<RGA<u32>> = vec![RGA::new("A"), RGA::new("B"), RGA::new("C")];
        let mut insertions: Vec<RGAOp<u32>> = Vec::new();
        let mut deletions: Vec<RGAOp<u32>> = Vec::new();
        for step in 0..60u32 {
            let who = next() % 3;
            let n = replicas[who].len();
            if n > 0 && next() % 4 == 0 {
                deletions.push(replicas[who].delete(next() % n).unwrap());
            } else {
                insertions.push(replicas[who].insert(next() % (n + 1), step));
            }
            if next() % 5 == 0 {
                let (from, to) = (next() % 3, next() % 3);
                let source = replicas[from].clone();
                replicas[to].merge(&source);
            }
        }
        let mut lists: Vec<Vec<u32>> = Vec::new();
        for round in 0..3 {
            let mut r: RGA<u32> = RGA::new("R");
            for _ in 0..10 * round {
                r.apply(insertions[next() % insertions.len()].clone());
            }
            if round == 1 {
                insertions.reverse();
            }
            for op in insertions.iter().chain(deletions.iter()) {
                r.apply(op.clone());
            }
            lists.push(r.to_vec());
        }
        for who in 0..3 {
            let mut all = replicas[who].clone();
            for other in 0..3 {
                all.merge(&replicas[(who + other) % 3]);
            }
            lists.push(all.to_vec());
        }
        for list in &lists {
            assert_eq!(list, &lists[0]);
        }
    }
}

#[test]
fn local_insertion_shows_whatever_is_held_back() {
    let mut list: RGA<char> = RGA::new("a");
    list.apply(insert(1, "b", Some((9, "z")), 'x'));
    list.apply(insert(2, "b", Some((2, "b")), 'y'));
    list.insert(0, 'p');
    list.insert(1, 'q');
    list.insert(1, 'r');
    let shown: String = list.iter().into_iter().collect();
    assert_eq!(shown, "prq");
}
