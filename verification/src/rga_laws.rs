//! Laws of the replicated list: replicas that received the same operations show
//! the same list, whatever the order of arrival.

use crate::rga_facts;
use crate::rga_model;
use crate::rga_model::IdView;
use crate::rga_model::ListView;
use crate::rga_model::NodeView;
use crate::rga_model::OpView;
use crate::rga_order;
use crate::rga_order::Birth;
use vstd::prelude::*;

verus! {

/// The state of a replica that received the operations `ops` in this order.
pub open spec fn replay<T>(ops: Seq<OpView<T>>) -> ListView<T>
    decreases ops.len(),
{
    if ops.len() == 0 {
        rga_model::empty_list()
    } else {
        rga_model::receive(replay(ops.drop_last()), ops.last())
    }
}

/// The record of the insertions among `ops`.
pub open spec fn record<T>(ops: Seq<OpView<T>>) -> Map<IdView, Birth<T>>
    decreases ops.len(),
{
    if ops.len() == 0 {
        Map::empty()
    } else {
        match ops.last() {
            OpView::Insert { id, after, value } => record(ops.drop_last()).insert(
                id,
                Birth { after, value },
            ),
            OpView::Delete { .. } => record(ops.drop_last()),
        }
    }
}

/// The insertion `op` is on record; deletions always are.
pub open spec fn recorded<T>(log: Map<IdView, Birth<T>>, op: OpView<T>) -> bool {
    op matches OpView::Insert { id, after, value } ==> log.contains_key(id) && log[id] == (Birth {
        after,
        value,
    })
}

/// All insertions among `ops` are on record.
pub open spec fn all_recorded<T>(log: Map<IdView, Birth<T>>, ops: Seq<OpView<T>>) -> bool {
    forall|i: int| 0 <= i < ops.len() ==> recorded(log, #[trigger] ops[i])
}

/// Identifiers are unique: there is one insertion for each.
pub open spec fn unique<T>(ops: Seq<OpView<T>>) -> bool {
    forall|i: int, j: int|
        0 <= i < ops.len() && 0 <= j < ops.len() && ops[i] is Insert && ops[j] is Insert && (
        #[trigger] ops[i]).target() == (#[trigger] ops[j]).target() ==> ops[i] == ops[j]
}

/// `op` goes behind an element older than its own.
pub open spec fn ordered<T>(op: OpView<T>) -> bool {
    op matches OpView::Insert { id, after, .. } ==> (after is Some ==> rga_model::id_lt(
        after->0,
        id,
    ))
}

/// Every insertion goes behind an older element.
pub open spec fn all_ordered<T>(ops: Seq<OpView<T>>) -> bool {
    forall|i: int| 0 <= i < ops.len() ==> ordered(#[trigger] ops[i])
}

/// The list of a replica is in the order of the recorded insertions, and what it
/// holds back is on record.
pub open spec fn grown<T>(log: Map<IdView, Birth<T>>, list: ListView<T>) -> bool {
    &&& list.well_formed()
    &&& rga_order::rooted(log, list.nodes)
    &&& rga_order::in_order(log, list.nodes)
    &&& all_recorded(log, list.pending)
}

/// The two sequences hold the same operations, in whatever order and however
/// often.
pub open spec fn same_operations<T>(a: Seq<OpView<T>>, b: Seq<OpView<T>>) -> bool {
    forall|op: OpView<T>| #[trigger] a.contains(op) <==> b.contains(op)
}

// ── What a step keeps ────────────────────────────────────────────────────────

/// Tombstones do not move anything.
pub proof fn lemma_tombstone_order<T>(
    log: Map<IdView, Birth<T>>,
    nodes: Seq<NodeView<T>>,
    next: Seq<NodeView<T>>,
)
    requires
        rga_order::rooted(log, nodes),
        rga_order::in_order(log, nodes),
        next.len() == nodes.len(),
        forall|i: int|
            0 <= i < nodes.len() ==> (#[trigger] next[i]).id == nodes[i].id && next[i].value
                == nodes[i].value,
        forall|x: IdView|
            #[trigger] rga_model::contains_id(next, x) <==> rga_model::contains_id(nodes, x),
    ensures
        rga_order::rooted(log, next),
        rga_order::in_order(log, next),
{
    assert forall|i: int| 0 <= i < next.len() implies rga_order::born(
        log,
        next,
        #[trigger] next[i],
    ) by {
        assert(rga_order::born(log, nodes, nodes[i]));
    }
    assert forall|i: int, j: int| 0 <= i < j < next.len() implies rga_order::precedes(
        log,
        (#[trigger] next[i]).id,
        (#[trigger] next[j]).id,
    ) by {
        assert(rga_order::precedes(log, nodes[i].id, nodes[j].id));
    }
}

/// A step keeps the list in order.
proof fn lemma_step_order<T>(
    log: Map<IdView, Birth<T>>,
    nodes: Seq<NodeView<T>>,
    op: OpView<T>,
)
    requires
        rga_order::sound(log),
        rga_order::rooted(log, nodes),
        rga_order::in_order(log, nodes),
        rga_model::distinct(nodes),
        recorded(log, op),
    ensures
        rga_model::step(nodes, op) matches Some(next) ==> rga_order::rooted(log, next)
            && rga_order::in_order(log, next) && rga_model::distinct(next),
{
    match op {
        OpView::Insert { id, after, value } => {
            if !rga_model::contains_id(nodes, id) && (after is None || rga_model::contains_id(
                nodes,
                after->0,
            )) {
                rga_order::lemma_parent_leads(log, nodes, id);
                rga_order::lemma_insert_in_order(log, nodes, after, id);
            }
        },
        OpView::Delete { .. } => {},
    }
}

proof fn lemma_sweep_order<T>(
    log: Map<IdView, Birth<T>>,
    nodes: Seq<NodeView<T>>,
    kept: Seq<OpView<T>>,
    todo: Seq<OpView<T>>,
)
    requires
        rga_order::sound(log),
        rga_order::rooted(log, nodes),
        rga_order::in_order(log, nodes),
        rga_model::distinct(nodes),
        all_recorded(log, kept),
        all_recorded(log, todo),
    ensures
        ({
            let (next, rest) = rga_model::sweep(nodes, kept, todo);
            &&& rga_order::rooted(log, next)
            &&& rga_order::in_order(log, next)
            &&& rga_model::distinct(next)
            &&& all_recorded(log, rest)
        }),
    decreases todo.len(),
{
    if todo.len() > 0 {
        let op = todo[0];
        let tail = todo.drop_first();
        assert(recorded(log, op));
        assert forall|i: int| 0 <= i < tail.len() implies recorded(log, #[trigger] tail[i]) by {
            assert(tail[i] == todo[i + 1]);
        }
        lemma_step_order(log, nodes, op);
        match rga_model::step(nodes, op) {
            Some(mid) => lemma_sweep_order(log, mid, kept, tail),
            None => lemma_sweep_order(log, nodes, kept.push(op), tail),
        }
    }
}

/// Trying held back insertions again keeps the list in order.
pub proof fn lemma_settle_order<T>(
    log: Map<IdView, Birth<T>>,
    nodes: Seq<NodeView<T>>,
    pending: Seq<OpView<T>>,
)
    requires
        rga_order::sound(log),
        rga_order::rooted(log, nodes),
        rga_order::in_order(log, nodes),
        rga_model::distinct(nodes),
        all_recorded(log, pending),
    ensures
        ({
            let (next, rest) = rga_model::settle(nodes, pending);
            &&& rga_order::rooted(log, next)
            &&& rga_order::in_order(log, next)
            &&& all_recorded(log, rest)
        }),
    decreases pending.len(),
{
    let (mid, kept) = rga_model::sweep(nodes, Seq::empty(), pending);
    lemma_sweep_order(log, nodes, Seq::empty(), pending);
    if kept.len() < pending.len() {
        lemma_settle_order(log, mid, kept);
    }
}

/// Burying elements keeps the list in order.
pub proof fn lemma_interred_order<T>(log: Map<IdView, Birth<T>>, list: ListView<T>)
    requires
        rga_order::rooted(log, list.nodes),
        rga_order::in_order(log, list.nodes),
    ensures
        rga_order::rooted(log, rga_model::interred(list).nodes),
        rga_order::in_order(log, rga_model::interred(list).nodes),
{
    rga_facts::lemma_interred(list);
    lemma_tombstone_order(log, list.nodes, rga_model::interred(list).nodes);
}

/// Receiving an operation keeps the list in order.
pub proof fn lemma_receive_grown<T>(
    log: Map<IdView, Birth<T>>,
    list: ListView<T>,
    op: OpView<T>,
)
    requires
        rga_order::sound(log),
        grown(log, list),
        recorded(log, op),
    ensures
        grown(log, rga_model::receive(list, op)),
{
    let clock = rga_model::later(list.clock, op.target().clock);
    rga_facts::lemma_receive(list, op);
    match op {
        OpView::Delete { id } => {
            lemma_interred_order(
                log,
                ListView { clock, graves: list.graves.insert(id), ..list },
            );
        },
        OpView::Insert { .. } => {
            lemma_step_order(log, list.nodes, op);
            if let Some(mid) = rga_model::step(list.nodes, op) {
                lemma_settle_order(log, mid, list.pending);
                let (nodes, pending) = rga_model::settle(mid, list.pending);
                lemma_interred_order(log, ListView { clock, nodes, pending, ..list });
            }
        },
    }
}

// ── What determines a state ──────────────────────────────────────────────────

/// An element is in every list whose replica knows of all the insertions that another
/// replica with the element knows of.
proof fn lemma_same_elements<T>(
    log: Map<IdView, Birth<T>>,
    a: ListView<T>,
    b: ListView<T>,
    x: IdView,
)
    requires
        rga_order::sound(log),
        grown(log, a),
        grown(log, b),
        forall|y: IdView| #[trigger] rga_model::known(a, y) ==> rga_model::known(b, y),
        rga_model::contains_id(a.nodes, x),
    ensures
        rga_model::contains_id(b.nodes, x),
    decreases rga_order::older(log, x).len(),
{
    let k = choose|k: int| rga_model::stands_at(a.nodes, k, x);
    assert(rga_order::born(log, a.nodes, a.nodes[k]));
    if log[x].after is Some {
        let p = log[x].after->0;
        let m = choose|m: int| rga_model::stands_at(a.nodes, m, p);
        assert(rga_order::born(log, a.nodes, a.nodes[m]));
        rga_order::lemma_older_shrinks(log, p, x);
        lemma_same_elements(log, a, b, p);
    }
    assert(rga_model::known(a, x));
    if !rga_model::contains_id(b.nodes, x) {
        let n = choose|n: int|
            0 <= n < b.pending.len() && (#[trigger] b.pending[n]).target() == x;
        assert(rga_model::waits(b.nodes, b.pending[n]));
        assert(recorded(log, b.pending[n]));
    }
}

/// Two lists in the order of the same record, with the same elements and the same
/// tombstones, are the same list.
proof fn lemma_same_list<T>(
    log: Map<IdView, Birth<T>>,
    a: Seq<NodeView<T>>,
    b: Seq<NodeView<T>>,
)
    requires
        rga_order::rooted(log, a),
        rga_order::rooted(log, b),
        rga_order::in_order(log, a),
        rga_order::in_order(log, b),
        rga_model::distinct(a),
        rga_model::distinct(b),
        forall|x: IdView|
            #[trigger] rga_model::contains_id(a, x) <==> rga_model::contains_id(b, x),
        forall|x: IdView| #[trigger] rga_model::buried(a, x) <==> rga_model::buried(b, x),
    ensures
        a == b,
{
    rga_order::lemma_order_determines(log, a, b);
    assert forall|i: int| 0 <= i < a.len() implies a[i] == b[i] by {
        let x = a[i].id;
        assert(b[i].id == x);
        assert(rga_order::born(log, a, a[i]));
        assert(rga_order::born(log, b, b[i]));
        assert(rga_model::stands_at(a, i, x));
        assert(rga_model::stands_at(b, i, x));
        assert(rga_model::buried(a, x) <==> rga_model::buried(b, x));
        if rga_model::buried(a, x) {
            let j = choose|j: int| rga_model::stands_at(a, j, x) && a[j].deleted;
            let k = choose|k: int| rga_model::stands_at(b, k, x) && b[k].deleted;
            rga_facts::lemma_position(a, i, x);
            rga_facts::lemma_position(a, j, x);
            rga_facts::lemma_position(b, i, x);
            rga_facts::lemma_position(b, k, x);
        }
    }
    assert(a =~= b);
}

/// The two states are the same, up to the order of the operations held back and
/// repetitions among them.
pub open spec fn same_state<T>(a: ListView<T>, b: ListView<T>) -> bool {
    &&& a.nodes == b.nodes
    &&& a.clock == b.clock
    &&& a.graves == b.graves
    &&& same_operations(a.pending, b.pending)
}

/// A tombstone is an element that is there and was deleted.
proof fn lemma_buried_is_dead<T>(list: ListView<T>, x: IdView)
    requires
        list.well_formed(),
    ensures
        rga_model::buried(list.nodes, x) <==> rga_model::dead(list, x) && rga_model::contains_id(
            list.nodes,
            x,
        ),
{
    if rga_model::buried(list.nodes, x) {
        let i = choose|i: int| rga_model::stands_at(list.nodes, i, x) && list.nodes[i].deleted;
        assert(rga_model::stands_at(list.nodes, i, x));
    }
}

proof fn lemma_pending_follows<T>(
    log: Map<IdView, Birth<T>>,
    a: ListView<T>,
    b: ListView<T>,
    op: OpView<T>,
)
    requires
        grown(log, a),
        grown(log, b),
        forall|x: IdView| #[trigger] rga_model::known(a, x) ==> rga_model::known(b, x),
        a.nodes == b.nodes,
        a.pending.contains(op),
    ensures
        b.pending.contains(op),
{
    let i = choose|i: int| 0 <= i < a.pending.len() && a.pending[i] == op;
    assert(rga_model::waits(a.nodes, a.pending[i]));
    assert(recorded(log, a.pending[i]));
    assert(rga_model::held(a.pending, op.target()));
    assert(rga_model::known(a, op.target()));
    let j = choose|j: int|
        0 <= j < b.pending.len() && (#[trigger] b.pending[j]).target() == op.target();
    assert(rga_model::waits(b.nodes, b.pending[j]));
    assert(recorded(log, b.pending[j]));
    assert(b.pending[j] == op);
}

/// The state of a replica is determined by its clock and by the insertions and the
/// deletions that arrived.
pub proof fn lemma_determined<T>(log: Map<IdView, Birth<T>>, a: ListView<T>, b: ListView<T>)
    requires
        rga_order::sound(log),
        grown(log, a),
        grown(log, b),
        a.clock == b.clock,
        forall|x: IdView| #[trigger] rga_model::known(a, x) <==> rga_model::known(b, x),
        forall|x: IdView| #[trigger] rga_model::dead(a, x) <==> rga_model::dead(b, x),
    ensures
        same_state(a, b),
{
    assert forall|x: IdView| #[trigger] rga_model::known(b, x) implies rga_model::known(a, x) by {
        assert(rga_model::known(a, x) <==> rga_model::known(b, x));
    }
    assert forall|x: IdView| #[trigger] rga_model::contains_id(a.nodes, x)
        <==> rga_model::contains_id(b.nodes, x) by {
        if rga_model::contains_id(a.nodes, x) {
            lemma_same_elements(log, a, b, x);
        }
        if rga_model::contains_id(b.nodes, x) {
            lemma_same_elements(log, b, a, x);
        }
    }
    assert forall|x: IdView| #[trigger] rga_model::buried(a.nodes, x) <==> rga_model::buried(
        b.nodes,
        x,
    ) by {
        lemma_buried_is_dead(a, x);
        lemma_buried_is_dead(b, x);
        assert(rga_model::dead(a, x) <==> rga_model::dead(b, x));
        assert(rga_model::contains_id(a.nodes, x) <==> rga_model::contains_id(b.nodes, x));
    }
    lemma_same_list(log, a.nodes, b.nodes);
    assert forall|x: IdView| #[trigger] a.graves.contains(x) <==> b.graves.contains(x) by {
        lemma_buried_is_dead(a, x);
        lemma_buried_is_dead(b, x);
        assert(rga_model::dead(a, x) <==> rga_model::dead(b, x));
    }
    assert(a.graves =~= b.graves);
    assert forall|op: OpView<T>| #[trigger] a.pending.contains(op) <==> b.pending.contains(
        op,
    ) by {
        if a.pending.contains(op) {
            lemma_pending_follows(log, a, b, op);
        }
        if b.pending.contains(op) {
            lemma_pending_follows(log, b, a, op);
        }
    }
}

// ── The state after a sequence of operations ─────────────────────────────────

/// An insertion of `x` is among `ops`.
pub open spec fn inserts<T>(ops: Seq<OpView<T>>, x: IdView) -> bool {
    exists|i: int| 0 <= i < ops.len() && (#[trigger] ops[i]) is Insert && ops[i].target() == x
}

/// What every replica that received `ops` looks like.
pub proof fn lemma_replay<T>(log: Map<IdView, Birth<T>>, ops: Seq<OpView<T>>)
    requires
        rga_order::sound(log),
        all_recorded(log, ops),
    ensures
        grown(log, replay(ops)),
        forall|x: IdView| #[trigger] rga_model::known(replay(ops), x) <==> inserts(ops, x),
        forall|x: IdView| #[trigger]
            rga_model::dead(replay(ops), x) <==> ops.contains(OpView::<T>::Delete { id: x }),
        forall|i: int|
            0 <= i < ops.len() ==> (#[trigger] ops[i]).target().clock <= replay(ops).clock,
        replay(ops).clock > 0 ==> exists|i: int|
            0 <= i < ops.len() && (#[trigger] ops[i]).target().clock == replay(ops).clock,
    decreases ops.len(),
{
    let state = replay(ops);
    if ops.len() == 0 {
        assert forall|x: IdView| !#[trigger] rga_model::known(state, x) by {}
        assert forall|x: IdView| !#[trigger] rga_model::dead(state, x) by {}
    } else {
        let front = ops.drop_last();
        let op = ops.last();
        let n = ops.len() - 1;
        let before = replay(front);
        assert(forall|i: int| 0 <= i < front.len() ==> (#[trigger] front[i]) == ops[i]);
        assert(ops[n] == op);
        assert(recorded(log, op));
        lemma_replay(log, front);
        lemma_receive_grown(log, before, op);
        rga_facts::lemma_receive(before, op);
        assert forall|x: IdView| #[trigger] rga_model::known(state, x) <==> inserts(ops, x) by {
            assert(rga_model::known(before, x) <==> inserts(front, x));
            if inserts(front, x) {
                let i = choose|i: int|
                    0 <= i < front.len() && (#[trigger] front[i]) is Insert && front[i].target()
                        == x;
                assert(ops[i] is Insert && ops[i].target() == x);
            }
            if inserts(ops, x) {
                let i = choose|i: int|
                    0 <= i < ops.len() && (#[trigger] ops[i]) is Insert && ops[i].target() == x;
                if i < n {
                    assert(front[i] is Insert && front[i].target() == x);
                }
            }
            if op is Insert && op.target() == x {
                assert(ops[n] is Insert && ops[n].target() == x);
            }
        }
        assert forall|x: IdView| #[trigger] rga_model::dead(state, x) <==> ops.contains(
            OpView::<T>::Delete { id: x },
        ) by {
            let deletion = OpView::<T>::Delete { id: x };
            assert(rga_model::dead(before, x) <==> front.contains(deletion));
            if front.contains(deletion) {
                let i = choose|i: int| 0 <= i < front.len() && front[i] == deletion;
                assert(ops[i] == deletion);
            }
            if ops.contains(deletion) {
                let i = choose|i: int| 0 <= i < ops.len() && ops[i] == deletion;
                if i < n {
                    assert(front[i] == deletion);
                }
            }
            if op == deletion {
                assert(ops[n] == deletion);
            }
        }
        assert forall|i: int| 0 <= i < ops.len() implies (#[trigger] ops[i]).target().clock
            <= state.clock by {
            if i < front.len() {
                assert(front[i].target().clock <= before.clock);
            }
        }
        if state.clock > 0 {
            if state.clock == op.target().clock {
                assert(ops[n].target().clock == state.clock);
            } else {
                let i = choose|i: int|
                    0 <= i < front.len() && (#[trigger] front[i]).target().clock == before.clock;
                assert(ops[i].target().clock == state.clock);
            }
        }
    }
}

/// The record of a sequence of operations with unique identifiers holds all of
/// its insertions, and is sound if they are ordered.
pub proof fn lemma_record<T>(ops: Seq<OpView<T>>)
    requires
        unique(ops),
    ensures
        record(ops).dom().finite(),
        all_recorded(record(ops), ops),
        forall|x: IdView|
            #[trigger] record(ops).contains_key(x) ==> exists|i: int|
                0 <= i < ops.len() && (#[trigger] ops[i]) is Insert && ops[i].target() == x,
        all_ordered(ops) ==> rga_order::sound(record(ops)),
    decreases ops.len(),
{
    if ops.len() > 0 {
        let front = ops.drop_last();
        let op = ops.last();
        assert(ops[ops.len() - 1] == op);
        assert forall|i: int, j: int|
            0 <= i < front.len() && 0 <= j < front.len() && front[i] is Insert
                && front[j] is Insert && (#[trigger] front[i]).target() == (
            #[trigger] front[j]).target() implies front[i] == front[j] by {
            assert(ops[i].target() == ops[j].target());
        }
        lemma_record(front);
        let log = record(ops);
        assert forall|i: int| 0 <= i < ops.len() implies recorded(log, #[trigger] ops[i]) by {
            if i < front.len() {
                assert(recorded(record(front), front[i]));
                assert(front[i] == ops[i]);
                if op is Insert && ops[i] is Insert && ops[i].target() == op.target() {
                    assert(ops[i].target() == ops[ops.len() - 1].target());
                }
            }
        }
        assert forall|x: IdView| #[trigger] log.contains_key(x) implies exists|i: int|
            0 <= i < ops.len() && (#[trigger] ops[i]) is Insert && ops[i].target() == x by {
            if op is Insert && op.target() == x {
                assert(ops[ops.len() - 1].target() == x);
            } else {
                assert(record(front).contains_key(x));
                let i = choose|i: int|
                    0 <= i < front.len() && (#[trigger] front[i]) is Insert && front[i].target()
                        == x;
                assert(ops[i] == front[i]);
            }
        }
    }
    let log = record(ops);
    if all_ordered(ops) {
        assert forall|x: IdView| #[trigger] log.contains_key(x) && log[x].after is Some implies
            rga_model::id_lt(log[x].after->0, x) by {
            let i = choose|i: int|
                0 <= i < ops.len() && (#[trigger] ops[i]) is Insert && ops[i].target() == x;
            assert(recorded(log, ops[i]));
            assert(ordered(ops[i]));
        }
    }
}

/// Two replicas that received the same operations, in whatever order and however
/// often, are in the same state: the same list, the same clock, the same deletions of
/// elements that have not arrived, the same insertions held back.
pub proof fn law_converges_in_any_order<T>(a: Seq<OpView<T>>, b: Seq<OpView<T>>)
    requires
        unique(a),
        all_ordered(a),
        same_operations(a, b),
    ensures
        same_state(replay(a), replay(b)),
        rga_model::visible(replay(a).nodes) == rga_model::visible(replay(b).nodes),
{
    let log = record(a);
    lemma_record(a);
    assert forall|op: OpView<T>| #[trigger] b.contains(op) implies a.contains(op) by {
        assert(a.contains(op) <==> b.contains(op));
    }
    assert forall|i: int| 0 <= i < b.len() implies recorded(log, #[trigger] b[i]) by {
        assert(b.contains(b[i]));
        let j = choose|j: int| 0 <= j < a.len() && a[j] == b[i];
        assert(recorded(log, a[j]));
    }
    lemma_replay(log, a);
    lemma_replay(log, b);
    lemma_clock_bounded(log, a, b);
    lemma_clock_bounded(log, b, a);
    assert forall|x: IdView| #[trigger] rga_model::known(replay(a), x) <==> rga_model::known(
        replay(b),
        x,
    ) by {
        if inserts(a, x) {
            lemma_inserts_follow(a, b, x);
        }
        if inserts(b, x) {
            lemma_inserts_follow(b, a, x);
        }
    }
    assert forall|x: IdView| #[trigger] rga_model::dead(replay(a), x) <==> rga_model::dead(
        replay(b),
        x,
    ) by {
        let deletion = OpView::<T>::Delete { id: x };
        assert(a.contains(deletion) <==> b.contains(deletion));
    }
    lemma_determined(log, replay(a), replay(b));
}

proof fn lemma_inserts_follow<T>(a: Seq<OpView<T>>, b: Seq<OpView<T>>, x: IdView)
    requires
        forall|op: OpView<T>| #[trigger] a.contains(op) ==> b.contains(op),
        inserts(a, x),
    ensures
        inserts(b, x),
{
    let i = choose|i: int| 0 <= i < a.len() && (#[trigger] a[i]) is Insert && a[i].target() == x;
    assert(a.contains(a[i]));
    let j = choose|j: int| 0 <= j < b.len() && b[j] == a[i];
    assert(b[j] is Insert && b[j].target() == x);
}

/// Receiving an operation again, at any later time, has no effect.
pub proof fn law_replaying_is_safe<T>(ops: Seq<OpView<T>>, i: int)
    requires
        unique(ops),
        all_ordered(ops),
        0 <= i < ops.len(),
    ensures
        same_state(rga_model::receive(replay(ops), ops[i]), replay(ops)),
{
    let more = ops.push(ops[i]);
    assert(more.drop_last() =~= ops);
    assert forall|op: OpView<T>| #[trigger] ops.contains(op) <==> more.contains(op) by {
        if ops.contains(op) {
            let j = choose|j: int| 0 <= j < ops.len() && ops[j] == op;
            assert(more[j] == op);
        }
        if more.contains(op) {
            let j = choose|j: int| 0 <= j < more.len() && more[j] == op;
            if j == ops.len() {
                assert(ops[i] == op);
            } else {
                assert(ops[j] == op);
            }
        }
    }
    law_converges_in_any_order(ops, more);
}

proof fn lemma_clock_bounded<T>(
    log: Map<IdView, Birth<T>>,
    a: Seq<OpView<T>>,
    b: Seq<OpView<T>>,
)
    requires
        rga_order::sound(log),
        all_recorded(log, a),
        all_recorded(log, b),
        forall|op: OpView<T>| #[trigger] a.contains(op) ==> b.contains(op),
    ensures
        replay(a).clock <= replay(b).clock,
{
    lemma_replay(log, a);
    lemma_replay(log, b);
    if replay(a).clock > 0 {
        let i = choose|i: int|
            0 <= i < a.len() && (#[trigger] a[i]).target().clock == replay(a).clock;
        assert(a.contains(a[i]));
        assert(b.contains(a[i]));
        let j = choose|j: int| 0 <= j < b.len() && b[j] == a[i];
        assert(b[j].target().clock <= replay(b).clock);
    }
}

} // verus!
