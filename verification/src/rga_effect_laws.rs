//! Laws of what each operation does to a list, element by element.

use crate::lex;
use crate::rga;
use crate::rga::RGAId;
use crate::rga::RGANode;
use crate::rga::RGAOp;
use crate::rga_edit_laws;
use crate::rga_facts;
use crate::rga_laws;
use crate::rga_merge_laws;
use crate::rga_model;
use crate::rga_model::IdView;
use crate::rga_model::ListView;
use crate::rga_model::NodeView;
use crate::rga_model::OpView;
use crate::rga_order;
use crate::rga_order::Birth;
use crate::text;
use vstd::prelude::*;

verus! {

/// Identifiers are ordered by their clocks; between equal clocks the names of the nodes
/// decide, in dictionary order.
pub proof fn law_identifiers_are_ordered(a: IdView, b: IdView)
    ensures
        a.clock < b.clock ==> rga_model::id_lt(a, b) && !rga_model::id_lt(b, a),
        a.clock == b.clock ==> (rga_model::id_lt(a, b) <==> text::text_lt(a.node, b.node)),
{
}

/// What every replica can be in: no identifier stands twice, nothing is ahead of the
/// clock, what is held back is an insertion of an element that is not there behind one
/// that is not there, and an element whose deletion came first is not there.
pub proof fn law_what_is_well_formed<T>(list: ListView<T>)
    ensures
        list.well_formed() <==> {
            &&& forall|i: int, j: int|
                0 <= i < j < list.nodes.len() ==> (#[trigger] list.nodes[i]).id != (
                #[trigger] list.nodes[j]).id
            &&& forall|i: int|
                0 <= i < list.nodes.len() ==> (#[trigger] list.nodes[i]).id.clock <= list.clock
            &&& forall|k: int|
                #![trigger list.pending[k]]
                0 <= k < list.pending.len() ==> match list.pending[k] {
                    OpView::Delete { .. } => false,
                    OpView::Insert { id, after, .. } => {
                        &&& id.clock <= list.clock
                        &&& after is Some
                        &&& forall|i: int|
                            0 <= i < list.nodes.len() ==> (#[trigger] list.nodes[i]).id != id
                                && list.nodes[i].id != after->0
                    },
                }
            &&& forall|id: IdView| #[trigger]
                list.graves.contains(id) ==> id.clock <= list.clock && forall|i: int|
                    0 <= i < list.nodes.len() ==> (#[trigger] list.nodes[i]).id != id
        },
{
    assert forall|id: IdView| #[trigger] rga_model::contains_id(list.nodes, id) <==> exists|i: int|
        0 <= i < list.nodes.len() && (#[trigger] list.nodes[i]).id == id by {
        lemma_contains(list.nodes, id);
    }
    if list.well_formed() {
        assert forall|k: int| #![trigger list.pending[k]] 0 <= k < list.pending.len() implies (
        match list.pending[k] {
            OpView::Delete { .. } => false,
            OpView::Insert { id, after, .. } => {
                &&& id.clock <= list.clock
                &&& after is Some
                &&& forall|i: int|
                    0 <= i < list.nodes.len() ==> (#[trigger] list.nodes[i]).id != id
                        && list.nodes[i].id != after->0
            },
        }) by {
            assert(rga_model::waits(list.nodes, list.pending[k]));
            assert(list.pending[k].target().clock <= list.clock);
        }
    }
}

proof fn lemma_contains<T>(nodes: Seq<NodeView<T>>, id: IdView)
    ensures
        rga_model::contains_id(nodes, id) <==> exists|i: int|
            0 <= i < nodes.len() && (#[trigger] nodes[i]).id == id,
        rga_model::buried(nodes, id) <==> exists|i: int|
            0 <= i < nodes.len() && (#[trigger] nodes[i]).id == id && nodes[i].deleted,
{
    if exists|i: int| 0 <= i < nodes.len() && (#[trigger] nodes[i]).id == id {
        let i = choose|i: int| 0 <= i < nodes.len() && (#[trigger] nodes[i]).id == id;
        assert(rga_model::stands_at(nodes, i, id));
    }
    if exists|i: int| 0 <= i < nodes.len() && (#[trigger] nodes[i]).id == id && nodes[i].deleted {
        let i = choose|i: int|
            0 <= i < nodes.len() && (#[trigger] nodes[i]).id == id && nodes[i].deleted;
        assert(rga_model::stands_at(nodes, i, id));
    }
}

// ── Showing ──────────────────────────────────────────────────────────────────

/// A list shows the values of its elements, in order, and nothing of its tombstones.
pub proof fn law_tombstones_are_not_shown<T>(nodes: Seq<NodeView<T>>, node: NodeView<T>)
    ensures
        rga_model::visible(Seq::<NodeView<T>>::empty()).len() == 0,
        node.deleted ==> rga_model::visible(nodes.push(node)) == rga_model::visible(nodes),
        !node.deleted ==> rga_model::visible(nodes.push(node)) == rga_model::visible(nodes).push(
            node.value,
        ),
{
    reveal(Seq::filter);
    assert(nodes.push(node).drop_last() =~= nodes);
    let (a, b) = (rga_model::visible(nodes.push(node)), rga_model::visible(nodes));
    if node.deleted {
        assert(a =~= b);
    } else {
        assert(a =~= b.push(node.value));
    }
}

/// Pruning drops the tombstones of elements inserted at or before its time, and nothing
/// else.
pub proof fn law_pruning_drops_old_tombstones<T>(
    nodes: Seq<NodeView<T>>,
    node: NodeView<T>,
    before: u64,
)
    ensures
        rga_model::pruned(Seq::<NodeView<T>>::empty(), before).len() == 0,
        node.deleted && node.id.clock <= before ==> rga_model::pruned(nodes.push(node), before)
            == rga_model::pruned(nodes, before),
        !node.deleted || node.id.clock > before ==> rga_model::pruned(nodes.push(node), before)
            == rga_model::pruned(nodes, before).push(node),
{
    reveal(Seq::filter);
    assert(nodes.push(node).drop_last() =~= nodes);
}

// ── Receiving ────────────────────────────────────────────────────────────────

/// A new replica is empty.
pub proof fn law_new_list_is_empty<T>(id: IdView)
    ensures
        rga_model::empty_list::<T>().nodes.len() == 0,
        rga_model::empty_list::<T>().pending.len() == 0,
        !rga_model::empty_list::<T>().graves.contains(id),
        rga_model::empty_list::<T>().clock == 0,
{
}

/// An insertion puts one element into the list and moves nothing else: behind the element
/// at position `q` that it names (at the front, for -1), past the newer elements that
/// follow there, and before the first that is not newer.  If its deletion came first, it
/// is a tombstone.
pub proof fn law_insertion_lands<T>(
    list: ListView<T>,
    id: IdView,
    q: int,
    value: T,
) -> (p: int)
    requires
        list.well_formed(),
        forall|i: int| 0 <= i < list.nodes.len() ==> (#[trigger] list.nodes[i]).id != id,
        forall|k: int|
            #![trigger list.pending[k]]
            0 <= k < list.pending.len() ==> match list.pending[k] {
                OpView::Insert { id: x, after, .. } => x != id && after != Some(id),
                OpView::Delete { .. } => true,
            },
        -1 <= q < list.nodes.len(),
    ensures
        ({
            let after = if q == -1 {
                None
            } else {
                Some(list.nodes[q].id)
            };
            let next = rga_model::receive(list, OpView::Insert { id, after, value });
            &&& q < p <= list.nodes.len()
            &&& next.nodes == list.nodes.insert(
                p,
                NodeView { id, value, deleted: list.graves.contains(id) },
            )
            &&& forall|i: int|
                q < i < p ==> rga_model::id_lt(id, (#[trigger] list.nodes[i]).id)
            &&& p < list.nodes.len() ==> !rga_model::id_lt(id, list.nodes[p].id)
            &&& next.pending == list.pending
            &&& forall|x: IdView| #[trigger]
                next.graves.contains(x) <==> list.graves.contains(x) && x != id
            &&& next.clock >= list.clock
            &&& next.clock >= id.clock
            &&& next.clock == list.clock || next.clock == id.clock
        }),
{
    let after = if q == -1 {
        None
    } else {
        Some(list.nodes[q].id)
    };
    let nodes = list.nodes;
    let op = OpView::Insert { id, after, value };
    lemma_contains(nodes, id);
    if q >= 0 {
        assert(rga_model::stands_at(nodes, q, nodes[q].id));
        rga_facts::lemma_position(nodes, q, nodes[q].id);
    }
    let start = rga_model::behind(nodes, after);
    assert(start == q + 1);
    rga_facts::lemma_landing(nodes, start, id);
    let p = rga_model::landing(nodes, start, id);
    let put = rga_model::with_element(nodes, id, after, value);
    assert(rga_model::step(nodes, op) == Some(put));
    rga_facts::lemma_with_element(nodes, id, after, value);
    assert forall|k: int| 0 <= k < list.pending.len() implies rga_model::waits(
        put,
        #[trigger] list.pending[k],
    ) by {
        assert(rga_model::waits(nodes, list.pending[k]));
    }
    rga_edit_laws::lemma_settle_waiting(put, list.pending);
    let next = rga_model::receive(list, op);
    let node = NodeView { id, value, deleted: list.graves.contains(id) };
    let goal = nodes.insert(p, node);
    assert(next.nodes == rga_model::entombed(put, list.graves));
    assert forall|i: int| 0 <= i < goal.len() implies next.nodes[i] == goal[i] by {
        if i != p {
            let j = if i < p {
                i
            } else {
                i - 1
            };
            assert(put[i] == nodes[j]);
            assert(rga_model::stands_at(nodes, j, nodes[j].id));
            assert(!list.graves.contains(nodes[j].id));
        }
    }
    assert(next.nodes =~= goal);
    assert forall|x: IdView| #[trigger] next.graves.contains(x) <==> list.graves.contains(x) && x
        != id by {
        assert(rga_model::contains_id(put, x) <==> x == id || rga_model::contains_id(nodes, x));
    }
    p
}

/// An insertion behind an element that is not there is held back, and leaves the list as
/// it is.
pub proof fn law_insertion_waits_for_its_neighbour<T>(
    list: ListView<T>,
    id: IdView,
    after: IdView,
    value: T,
)
    requires
        forall|i: int|
            0 <= i < list.nodes.len() ==> (#[trigger] list.nodes[i]).id != id
                && list.nodes[i].id != after,
    ensures
        ({
            let op = OpView::Insert { id, after: Some(after), value };
            let next = rga_model::receive(list, op);
            &&& next.nodes == list.nodes
            &&& next.graves == list.graves
            &&& next.pending == list.pending.push(op)
            &&& next.clock >= list.clock
            &&& next.clock >= id.clock
            &&& next.clock == list.clock || next.clock == id.clock
        }),
{
    lemma_contains(list.nodes, id);
    lemma_contains(list.nodes, after);
}

/// An insertion that has arrived before changes neither the list nor what is held back.
pub proof fn law_insertion_is_taken_once<T>(
    list: ListView<T>,
    id: IdView,
    after: Option<IdView>,
    value: T,
    p: int,
)
    requires
        list.well_formed(),
        0 <= p < list.nodes.len(),
        list.nodes[p].id == id,
    ensures
        rga_model::receive(list, OpView::Insert { id, after, value }) == list,
{
    assert(rga_model::stands_at(list.nodes, p, id));
    rga_edit_laws::lemma_settle_waiting(list.nodes, list.pending);
    rga_facts::lemma_interred_already(list, list.graves);
    let next = rga_model::receive(list, OpView::Insert { id, after, value });
    assert(list.nodes[p].id.clock <= list.clock);
    assert(next =~= list);
}

/// A deletion turns its element into a tombstone where it stands, or, if it is not there
/// yet, is remembered; nothing else changes.
pub proof fn law_deletion_buries_one_element<T>(list: ListView<T>, id: IdView, p: int)
    requires
        list.well_formed(),
    ensures
        ({
            let next = rga_model::receive(list, OpView::Delete { id });
            &&& 0 <= p < list.nodes.len() && list.nodes[p].id == id ==> {
                &&& next.nodes == list.nodes.update(
                    p,
                    NodeView { id, value: list.nodes[p].value, deleted: true },
                )
                &&& next.graves == list.graves
            }
            &&& (forall|i: int| 0 <= i < list.nodes.len() ==> (#[trigger] list.nodes[i]).id != id)
                ==> next.nodes == list.nodes && next.graves == list.graves.insert(id)
            &&& next.pending == list.pending
            &&& next.clock >= list.clock
            &&& next.clock >= id.clock
            &&& next.clock == list.clock || next.clock == id.clock
        }),
{
    let nodes = list.nodes;
    let next = rga_model::receive(list, OpView::<T>::Delete { id });
    lemma_contains(nodes, id);
    assert forall|i: int| 0 <= i < nodes.len() implies !list.graves.contains(
        (#[trigger] nodes[i]).id,
    ) by {
        assert(rga_model::stands_at(nodes, i, nodes[i].id));
    }
    if 0 <= p < nodes.len() && nodes[p].id == id {
        let goal = nodes.update(p, NodeView { id, value: nodes[p].value, deleted: true });
        assert forall|i: int| 0 <= i < nodes.len() implies next.nodes[i] == goal[i] by {
            if i < p {
                assert(nodes[i].id != nodes[p].id);
            } else if p < i {
                assert(nodes[p].id != nodes[i].id);
            }
        }
        assert(next.nodes =~= goal);
        assert(rga_model::stands_at(nodes, p, id));
        assert(next.graves =~= list.graves);
    }
    if forall|i: int| 0 <= i < nodes.len() ==> (#[trigger] nodes[i]).id != id {
        assert(next.nodes =~= nodes);
        assert(next.graves =~= list.graves.insert(id));
    }
}

/// Nothing that is held back is lost, and nothing is held back longer than it must: after
/// an operation, an insertion that was held back is in the list or is still held back, and
/// what is held back waits for an element that is not there.
pub proof fn law_held_back_insertions_are_released<T>(list: ListView<T>, op: OpView<T>, k: int)
    requires
        list.well_formed(),
    ensures
        ({
            let next = rga_model::receive(list, op);
            &&& 0 <= k < list.pending.len() ==> {
                ||| next.pending.contains(list.pending[k])
                ||| exists|i: int|
                    0 <= i < next.nodes.len() && (#[trigger] next.nodes[i]).id
                        == list.pending[k].target()
            }
            &&& 0 <= k < next.pending.len() ==> {
                &&& list.pending.contains(next.pending[k]) || next.pending[k] == op
                &&& next.pending[k] is Insert
                &&& next.pending[k]->after is Some
                &&& forall|i: int|
                    0 <= i < next.nodes.len() ==> (#[trigger] next.nodes[i]).id
                        != next.pending[k]->after->0
            }
            &&& next.well_formed()
        }),
{
    let next = rga_model::receive(list, op);
    rga_facts::lemma_receive(list, op);
    law_what_is_well_formed(next);
    if 0 <= k < list.pending.len() {
        let held = list.pending[k];
        assert(rga_model::waits(list.nodes, held));
        lemma_contains(next.nodes, held.target());
        if op is Insert {
            if let Some(put) = rga_model::step(list.nodes, op) {
                rga_facts::lemma_step(list.nodes, op, list.clock);
                assert forall|j: int| 0 <= j < list.pending.len() implies (
                #[trigger] list.pending[j]) is Insert by {
                    assert(rga_model::waits(list.nodes, list.pending[j]));
                }
                rga_facts::lemma_settle_progress(put, list.pending);
                let (nodes, pending) = rga_model::settle(put, list.pending);
                let settled = ListView {
                    clock: rga_model::later(list.clock, op.target().clock),
                    nodes,
                    pending,
                    ..list
                };
                rga_facts::lemma_interred(settled);
            } else {
                assert(next.pending[k] == held);
            }
        } else {
            assert(next.pending[k] == held);
        }
    }
    if 0 <= k < next.pending.len() {
        assert(rga_model::waits(next.nodes, next.pending[k]));
        lemma_contains(next.nodes, next.pending[k]->after->0);
    }
}

/// What was deleted stays deleted, an operation deletes nothing but what it names, and
/// what has arrived stays: in the list, or held back.
pub proof fn law_deletions_hold<T>(list: ListView<T>, op: OpView<T>, x: IdView)
    requires
        list.well_formed(),
    ensures
        ({
            let next = rga_model::receive(list, op);
            let deleted = |l: ListView<T>|
                l.graves.contains(x) || exists|i: int|
                    0 <= i < l.nodes.len() && (#[trigger] l.nodes[i]).id == x
                        && l.nodes[i].deleted;
            let arrived = |l: ListView<T>|
                (exists|i: int| 0 <= i < l.nodes.len() && (#[trigger] l.nodes[i]).id == x) || (
                exists|k: int|
                    0 <= k < l.pending.len() && (#[trigger] l.pending[k]).target() == x);
            &&& deleted(next) <==> deleted(list) || op == (OpView::<T>::Delete { id: x })
            &&& arrived(next) <==> arrived(list) || (op is Insert && op.target() == x)
        }),
{
    let next = rga_model::receive(list, op);
    rga_facts::lemma_receive(list, op);
    lemma_contains(list.nodes, x);
    lemma_contains(next.nodes, x);
    assert(rga_model::dead(next, x) <==> rga_model::dead(list, x) || op == (OpView::<T>::Delete {
        id: x,
    }));
    assert(rga_model::known(next, x) <==> rga_model::known(list, x) || (op is Insert
        && op.target() == x));
}

// ── Making operations ────────────────────────────────────────────────────────

/// A local insertion names the visible element before its index, or the front, and bears
/// the next time of the clock and the name of the node.
pub proof fn law_insertions_name_their_neighbour<T>(
    list: ListView<T>,
    owner: Seq<char>,
    index: int,
    value: T,
)
    requires
        list.clock < u64::MAX,
        0 <= index <= rga_model::visible(list.nodes).len(),
    ensures
        ({
            let op = rga_model::insertion(list, owner, index, value);
            &&& op matches OpView::Insert { id, after, value: v } && {
                &&& id.clock == list.clock + 1
                &&& id.node == owner
                &&& v == value
                &&& index == 0 ==> after is None
                &&& index > 0 ==> exists|p: int|
                    {
                        &&& 0 <= p < list.nodes.len()
                        &&& after == Some((#[trigger] list.nodes[p]).id)
                        &&& !list.nodes[p].deleted
                        &&& rga_model::visible(list.nodes.take(p)).len() == index - 1
                    }
            }
        }),
{
    if index > 0 {
        let p = rga_edit_laws::lemma_live_position(list.nodes, index - 1);
        assert(list.nodes[p] == rga_model::live(list.nodes)[index - 1]);
    }
}

/// A local deletion names the visible element at its index.
pub proof fn law_deletions_name_their_element<T>(nodes: Seq<NodeView<T>>, index: int)
    requires
        0 <= index < rga_model::visible(nodes).len(),
    ensures
        exists|p: int|
            {
                &&& 0 <= p < nodes.len()
                &&& rga_model::deletion(nodes, index) == (OpView::<T>::Delete {
                    id: (#[trigger] nodes[p]).id,
                })
                &&& !nodes[p].deleted
                &&& rga_model::visible(nodes.take(p)).len() == index
            },
{
    let p = rga_edit_laws::lemma_live_position(nodes, index);
    assert(nodes[p] == rga_model::live(nodes)[index]);
}

// ── All operations together ──────────────────────────────────────────────────

/// A replica that received operations holds exactly what was inserted: every element of
/// its list was inserted with its value, and is a tombstone if and only if it was deleted;
/// every insertion that arrived is in the list, or held back.
pub proof fn law_lists_hold_what_was_inserted<T>(ops: Seq<OpView<T>>, i: int)
    requires
        forall|a: int, b: int|
            0 <= a < ops.len() && 0 <= b < ops.len() && ops[a] is Insert && ops[b] is Insert && (
            #[trigger] ops[a]).target() == (#[trigger] ops[b]).target() ==> ops[a] == ops[b],
        forall|a: int|
            #![trigger ops[a]]
            0 <= a < ops.len() && ops[a] is Insert && ops[a]->after is Some ==> rga_model::id_lt(
                ops[a]->after->0,
                ops[a].target(),
            ),
    ensures
        ({
            let list = rga_laws::replay(ops);
            &&& 0 <= i < list.nodes.len() ==> {
                &&& exists|after: Option<IdView>|
                    #[trigger] ops.contains(
                        OpView::Insert { id: list.nodes[i].id, after, value: list.nodes[i].value },
                    )
                &&& list.nodes[i].deleted <==> ops.contains(
                    OpView::<T>::Delete { id: list.nodes[i].id },
                )
            }
            &&& 0 <= i < ops.len() && ops[i] is Insert ==> {
                ||| exists|j: int|
                    0 <= j < list.nodes.len() && (#[trigger] list.nodes[j]).id
                        == ops[i].target()
                ||| list.pending.contains(ops[i])
            }
        }),
        rga_laws::replay(Seq::<OpView<T>>::empty()) == rga_model::empty_list::<T>(),
{
    let list = rga_laws::replay(ops);
    let log = rga_laws::record(ops);
    assert(rga_laws::unique(ops));
    assert(rga_laws::all_ordered(ops)) by {
        assert forall|a: int| 0 <= a < ops.len() implies rga_laws::ordered(#[trigger] ops[a]) by {}
    }
    rga_laws::lemma_record(ops);
    rga_laws::lemma_replay(log, ops);
    if 0 <= i < list.nodes.len() {
        let node = list.nodes[i];
        assert(rga_order::born(log, list.nodes, node));
        let a = choose|a: int|
            0 <= a < ops.len() && (#[trigger] ops[a]) is Insert && ops[a].target() == node.id;
        assert(rga_laws::recorded(log, ops[a]));
        assert(ops[a] == (OpView::Insert {
            id: node.id,
            after: ops[a]->after,
            value: node.value,
        }));
        assert(ops.contains(
            OpView::Insert { id: node.id, after: ops[a]->after, value: node.value },
        ));
        lemma_contains(list.nodes, node.id);
        assert(rga_model::dead(list, node.id) <==> ops.contains(
            OpView::<T>::Delete { id: node.id },
        ));
        assert(rga_model::contains_id(list.nodes, node.id));
        if rga_model::buried(list.nodes, node.id) {
            let j = choose|j: int|
                0 <= j < list.nodes.len() && (#[trigger] list.nodes[j]).id == node.id
                    && list.nodes[j].deleted;
            if j < i {
                assert(list.nodes[j].id != list.nodes[i].id);
            } else if i < j {
                assert(list.nodes[i].id != list.nodes[j].id);
            }
        }
        if list.graves.contains(node.id) {
            assert(!rga_model::contains_id(list.nodes, node.id));
        }
    }
    if 0 <= i < ops.len() && ops[i] is Insert {
        let x = ops[i].target();
        assert(rga_laws::inserts(ops, x));
        assert(rga_model::known(list, x));
        lemma_contains(list.nodes, x);
        if rga_model::held(list.pending, x) {
            let k = choose|k: int|
                0 <= k < list.pending.len() && (#[trigger] list.pending[k]).target() == x;
            assert(rga_model::waits(list.nodes, list.pending[k]));
            assert(rga_laws::recorded(log, list.pending[k]));
            assert(rga_laws::recorded(log, ops[i]));
            assert(list.pending[k] == ops[i]);
        }
    }
}

/// Receiving one operation after others is receiving them all.
pub proof fn law_operations_are_received_one_by_one<T>(ops: Seq<OpView<T>>, op: OpView<T>)
    ensures
        rga_laws::replay(ops.push(op)) == rga_model::receive(rga_laws::replay(ops), op),
{
    assert(ops.push(op).drop_last() =~= ops);
}

/// The order of a list: an element stands behind the one that it was inserted behind, and
/// of two that were inserted behind the same one, the newer stands first.  It is so
/// whatever the order in which the insertions arrived.
pub proof fn law_newer_neighbours_stand_first<T>(
    ops: Seq<OpView<T>>,
    a: int,
    b: int,
    i: int,
    j: int,
)
    requires
        forall|c: int, d: int|
            0 <= c < ops.len() && 0 <= d < ops.len() && ops[c] is Insert && ops[d] is Insert && (
            #[trigger] ops[c]).target() == (#[trigger] ops[d]).target() ==> ops[c] == ops[d],
        forall|c: int|
            #![trigger ops[c]]
            0 <= c < ops.len() && ops[c] is Insert && ops[c]->after is Some ==> rga_model::id_lt(
                ops[c]->after->0,
                ops[c].target(),
            ),
        0 <= a < ops.len(),
        0 <= b < ops.len(),
        ops[a] is Insert,
        ops[b] is Insert,
        0 <= i < rga_laws::replay(ops).nodes.len(),
        0 <= j < rga_laws::replay(ops).nodes.len(),
        rga_laws::replay(ops).nodes[i].id == ops[a].target(),
        rga_laws::replay(ops).nodes[j].id == ops[b].target(),
    ensures
        ops[b]->after == Some(ops[a].target()) ==> i < j,
        ops[a]->after == ops[b]->after && rga_model::id_lt(ops[b].target(), ops[a].target()) ==> i
            < j,
{
    let list = rga_laws::replay(ops);
    let log = rga_laws::record(ops);
    assert(rga_laws::unique(ops));
    assert(rga_laws::all_ordered(ops)) by {
        assert forall|c: int| 0 <= c < ops.len() implies rga_laws::ordered(#[trigger] ops[c]) by {}
    }
    rga_laws::lemma_record(ops);
    rga_laws::lemma_replay(log, ops);
    assert(rga_laws::recorded(log, ops[a]));
    assert(rga_laws::recorded(log, ops[b]));
    lemma_order_of_two(log, list.nodes, i, j);
}

/// The order of two elements of a list that is in the order of its record.
proof fn lemma_order_of_two<T>(
    log: Map<IdView, Birth<T>>,
    nodes: Seq<NodeView<T>>,
    i: int,
    j: int,
)
    requires
        rga_order::sound(log),
        rga_order::rooted(log, nodes),
        rga_order::in_order(log, nodes),
        rga_model::distinct(nodes),
        0 <= i < nodes.len(),
        0 <= j < nodes.len(),
    ensures
        log[nodes[j].id].after == Some(nodes[i].id) ==> i < j,
        log[nodes[i].id].after == log[nodes[j].id].after && rga_model::id_lt(
            nodes[j].id,
            nodes[i].id,
        ) ==> i < j,
{
    let (x, y) = (nodes[i].id, nodes[j].id);
    assert(rga_order::born(log, nodes, nodes[i]));
    assert(rga_order::born(log, nodes, nodes[j]));
    assert(rga_model::stands_at(nodes, i, x));
    assert(rga_model::stands_at(nodes, j, y));
    lemma_way(log, nodes, x);
    lemma_way(log, nodes, y);
    let (p, q) = (rga_order::lineage(log, x), rga_order::lineage(log, y));
    if log[y].after == Some(x) {
        assert(q == p.push(y));
        assert(lex::lex_split(rga_order::newer_first(), p, q, p.len() as int));
        rga_order::lemma_positions(log, nodes, i, j);
    }
    if log[x].after == log[y].after && rga_model::id_lt(y, x) {
        if log[x].after is Some {
            let way = rga_order::lineage(log, log[x].after->0);
            assert(p == way.push(x));
            assert(q == way.push(y));
            assert(lex::lex_split(rga_order::newer_first(), p, q, way.len() as int));
        } else {
            assert(p =~= seq![x]);
            assert(q =~= seq![y]);
            assert(lex::lex_split(rga_order::newer_first(), p, q, 0));
        }
        rga_order::lemma_positions(log, nodes, i, j);
    }
}

proof fn lemma_way<T>(log: Map<IdView, Birth<T>>, nodes: Seq<NodeView<T>>, x: IdView)
    requires
        rga_order::sound(log),
        rga_order::rooted(log, nodes),
        rga_model::contains_id(nodes, x),
    ensures
        log.contains_key(x),
        log[x].after is Some ==> rga_order::lineage(log, x) == rga_order::lineage(
            log,
            log[x].after->0,
        ).push(x),
        log[x].after is None ==> rga_order::lineage(log, x) == seq![x],
{
    let i = choose|i: int| rga_model::stands_at(nodes, i, x);
    assert(rga_order::born(log, nodes, nodes[i]));
    if log[x].after is Some {
        let a = log[x].after->0;
        let k = choose|k: int| rga_model::stands_at(nodes, k, a);
        assert(rga_order::born(log, nodes, nodes[k]));
        assert(rga_model::id_lt(a, x));
    }
}

// ── Merging ──────────────────────────────────────────────────────────────────

/// A merged list has the elements of both; what either knows of, and nothing else, is in
/// the list or held back; an element is a tombstone if it was deleted at either; the clock
/// is the later of the two.
pub proof fn law_merge_has_what_both_have<T>(a: ListView<T>, b: ListView<T>, x: IdView)
    requires
        a.well_formed(),
        b.well_formed(),
    ensures
        ({
            let m = rga_model::merged(a, b);
            let has = |list: ListView<T>|
                exists|i: int| 0 <= i < list.nodes.len() && (#[trigger] list.nodes[i]).id == x;
            let waiting = |list: ListView<T>|
                exists|k: int|
                    0 <= k < list.pending.len() && (#[trigger] list.pending[k]).target() == x;
            let deleted = |list: ListView<T>|
                list.graves.contains(x) || exists|i: int|
                    0 <= i < list.nodes.len() && (#[trigger] list.nodes[i]).id == x
                        && list.nodes[i].deleted;
            &&& has(a) || has(b) ==> has(m)
            &&& has(m) || waiting(m) <==> has(a) || has(b) || waiting(a) || waiting(b)
            &&& deleted(m) <==> deleted(a) || deleted(b)
            &&& m.clock >= a.clock
            &&& m.clock >= b.clock
            &&& m.clock == a.clock || m.clock == b.clock
            &&& m.well_formed()
        }),
{
    let m = rga_model::merged(a, b);
    rga_facts::lemma_merged(a, b);
    lemma_contains(a.nodes, x);
    lemma_contains(b.nodes, x);
    lemma_contains(m.nodes, x);
    assert(rga_model::known(m, x) <==> rga_model::known(a, x) || rga_model::known(b, x));
    assert(rga_model::dead(m, x) <==> rga_model::dead(a, x) || rga_model::dead(b, x));
}

/// A merged list keeps the order and the values of both, where both come from the same
/// insertions.
pub proof fn law_merge_keeps_both_orders<T>(
    a: Seq<OpView<T>>,
    b: Seq<OpView<T>>,
    i: int,
    j: int,
    p: int,
    q: int,
)
    requires
        rga_laws::unique(a + b),
        rga_laws::all_ordered(a + b),
        0 <= p < rga_model::merged(rga_laws::replay(a), rga_laws::replay(b)).nodes.len(),
        0 <= q < rga_model::merged(rga_laws::replay(a), rga_laws::replay(b)).nodes.len(),
    ensures
        ({
            let (x, y) = (rga_laws::replay(a).nodes, rga_laws::replay(b).nodes);
            let m = rga_model::merged(rga_laws::replay(a), rga_laws::replay(b)).nodes;
            &&& 0 <= i < j < x.len() && m[p].id == x[i].id && m[q].id == x[j].id ==> p < q
                && m[p].value == x[i].value && m[q].value == x[j].value
            &&& 0 <= i < j < y.len() && m[p].id == y[i].id && m[q].id == y[j].id ==> p < q
                && m[p].value == y[i].value && m[q].value == y[j].value
        }),
{
    let all = a + b;
    let log = rga_laws::record(all);
    let (x, y) = (rga_laws::replay(a), rga_laws::replay(b));
    let m = rga_model::merged(x, y);
    rga_laws::lemma_record(all);
    assert forall|k: int| 0 <= k < a.len() implies rga_laws::recorded(log, #[trigger] a[k]) by {
        assert(all[k] == a[k]);
    }
    assert forall|k: int| 0 <= k < b.len() implies rga_laws::recorded(log, #[trigger] b[k]) by {
        assert(all[a.len() + k] == b[k]);
    }
    rga_laws::lemma_replay(log, a);
    rga_laws::lemma_replay(log, b);
    rga_merge_laws::law_merged_lists_grow(log, x, y);
    if 0 <= i < j < x.nodes.len() && m.nodes[p].id == x.nodes[i].id && m.nodes[q].id
        == x.nodes[j].id {
        lemma_order_kept(log, x.nodes, m.nodes, i, j, p, q);
    }
    if 0 <= i < j < y.nodes.len() && m.nodes[p].id == y.nodes[i].id && m.nodes[q].id
        == y.nodes[j].id {
        lemma_order_kept(log, y.nodes, m.nodes, i, j, p, q);
    }
}

proof fn lemma_order_kept<T>(
    log: Map<IdView, Birth<T>>,
    x: Seq<NodeView<T>>,
    m: Seq<NodeView<T>>,
    i: int,
    j: int,
    p: int,
    q: int,
)
    requires
        rga_order::rooted(log, x),
        rga_order::rooted(log, m),
        rga_order::in_order(log, x),
        rga_order::in_order(log, m),
        0 <= i < j < x.len(),
        0 <= p < m.len(),
        0 <= q < m.len(),
        m[p].id == x[i].id,
        m[q].id == x[j].id,
    ensures
        p < q,
        m[p].value == x[i].value,
        m[q].value == x[j].value,
{
    assert(rga_order::precedes(log, x[i].id, x[j].id));
    rga_order::lemma_positions(log, m, p, q);
    assert(rga_order::born(log, x, x[i]));
    assert(rga_order::born(log, x, x[j]));
    assert(rga_order::born(log, m, m[p]));
    assert(rga_order::born(log, m, m[q]));
}

// ── Nothing is moved ─────────────────────────────────────────────────────────

/// Where the elements of `nodes` stand in `next`: in the same order, with the same values.
pub open spec fn kept_at<T>(
    nodes: Seq<NodeView<T>>,
    next: Seq<NodeView<T>>,
    at: Seq<int>,
) -> bool {
    &&& at.len() == nodes.len()
    &&& forall|i: int|
        #![trigger at[i]]
        0 <= i < nodes.len() ==> 0 <= at[i] < next.len() && next[at[i]].id == nodes[i].id
            && next[at[i]].value == nodes[i].value
    &&& forall|i: int, j: int| 0 <= i < j < nodes.len() ==> #[trigger] at[i] < #[trigger] at[j]
}

/// `node` was put in by one of the insertions `ops`.
pub open spec fn put_in<T>(ops: Seq<OpView<T>>, node: NodeView<T>) -> bool {
    exists|k: int|
        0 <= k < ops.len() && #[trigger] ops[k] is Insert && ops[k].target() == node.id
            && ops[k]->value == node.value
}

/// Every element of `next` is one that was there or was put in by one of `ops`.
pub open spec fn sourced<T>(next: Seq<NodeView<T>>, at: Seq<int>, ops: Seq<OpView<T>>) -> bool {
    forall|k: int|
        #![trigger next[k]]
        0 <= k < next.len() ==> at.contains(k) || put_in(ops, next[k])
}

proof fn lemma_stays<T>(nodes: Seq<NodeView<T>>, ops: Seq<OpView<T>>) -> (at: Seq<int>)
    ensures
        kept_at(nodes, nodes, at),
        sourced(nodes, at, ops),
{
    let at = Seq::new(nodes.len(), |i: int| i);
    assert forall|k: int| 0 <= k < nodes.len() implies at.contains(k) by {
        assert(at[k] == k);
    }
    at
}

proof fn lemma_composed<T>(
    a: Seq<NodeView<T>>,
    b: Seq<NodeView<T>>,
    c: Seq<NodeView<T>>,
    f: Seq<int>,
    g: Seq<int>,
    ops: Seq<OpView<T>>,
) -> (at: Seq<int>)
    requires
        kept_at(a, b, f),
        kept_at(b, c, g),
        sourced(b, f, ops),
        sourced(c, g, ops),
    ensures
        kept_at(a, c, at),
        sourced(c, at, ops),
{
    let at = Seq::new(a.len(), |i: int| g[f[i]]);
    assert forall|i: int| #![trigger at[i]] 0 <= i < a.len() implies 0 <= at[i] < c.len()
        && c[at[i]].id == a[i].id && c[at[i]].value == a[i].value by {
        let m = f[i];
        assert(0 <= g[m] < c.len());
    }
    assert forall|i: int, j: int| 0 <= i < j < a.len() implies #[trigger] at[i]
        < #[trigger] at[j] by {
        let (m, n) = (f[i], f[j]);
        assert(m < n);
        assert(g[m] < g[n]);
    }
    assert forall|k: int| #![trigger c[k]] 0 <= k < c.len() implies at.contains(k) || put_in(
        ops,
        c[k],
    ) by {
        if g.contains(k) {
            let m = choose|m: int| 0 <= m < g.len() && g[m] == k;
            assert(c[g[m]].id == b[m].id);
            assert(f.contains(m) || put_in(ops, b[m]));
            if f.contains(m) {
                let i = choose|i: int| 0 <= i < f.len() && f[i] == m;
                assert(at[i] == k);
            } else {
                let o = choose|o: int|
                    0 <= o < ops.len() && #[trigger] ops[o] is Insert && ops[o].target()
                        == b[m].id && ops[o]->value == b[m].value;
                assert(ops[o] is Insert);
            }
        }
    }
    at
}

proof fn lemma_step_keeps<T>(
    nodes: Seq<NodeView<T>>,
    op: OpView<T>,
    ops: Seq<OpView<T>>,
) -> (at: Seq<int>)
    requires
        rga_model::step(nodes, op) is Some,
        ops.contains(op),
    ensures
        kept_at(nodes, rga_model::step(nodes, op)->0, at),
        sourced(rga_model::step(nodes, op)->0, at, ops),
{
    let next = rga_model::step(nodes, op)->0;
    if next == nodes {
        lemma_stays(nodes, ops)
    } else {
        let (id, after, value) = (op.target(), op->after, op->value);
        rga_facts::lemma_behind(nodes, after);
        rga_facts::lemma_landing(nodes, rga_model::behind(nodes, after), id);
        let p = rga_model::landing(nodes, rga_model::behind(nodes, after), id);
        let at = Seq::new(
            nodes.len(),
            |i: int|
                if i < p {
                    i
                } else {
                    i + 1
                },
        );
        let o = choose|o: int| 0 <= o < ops.len() && ops[o] == op;
        assert forall|k: int| #![trigger next[k]] 0 <= k < next.len() implies at.contains(k)
            || put_in(ops, next[k]) by {
            if k < p {
                assert(at[k] == k);
            } else if k > p {
                assert(at[k - 1] == k);
            } else {
                assert(ops[o] is Insert);
            }
        }
        at
    }
}

proof fn lemma_sweep_keeps<T>(
    nodes: Seq<NodeView<T>>,
    kept: Seq<OpView<T>>,
    todo: Seq<OpView<T>>,
    ops: Seq<OpView<T>>,
) -> (at: Seq<int>)
    requires
        forall|i: int| 0 <= i < todo.len() ==> ops.contains(#[trigger] todo[i]),
        forall|i: int| 0 <= i < kept.len() ==> ops.contains(#[trigger] kept[i]),
    ensures
        kept_at(nodes, rga_model::sweep(nodes, kept, todo).0, at),
        sourced(rga_model::sweep(nodes, kept, todo).0, at, ops),
        forall|i: int|
            0 <= i < rga_model::sweep(nodes, kept, todo).1.len() ==> ops.contains(
                #[trigger] rga_model::sweep(nodes, kept, todo).1[i],
            ),
    decreases todo.len(),
{
    if todo.len() == 0 {
        lemma_stays(nodes, ops)
    } else {
        let tail = todo.drop_first();
        assert(ops.contains(todo[0]));
        assert forall|i: int| 0 <= i < tail.len() implies ops.contains(#[trigger] tail[i]) by {
            assert(tail[i] == todo[i + 1]);
        }
        match rga_model::step(nodes, todo[0]) {
            Some(next) => {
                let f = lemma_step_keeps(nodes, todo[0], ops);
                let g = lemma_sweep_keeps(next, kept, tail, ops);
                lemma_composed(nodes, next, rga_model::sweep(next, kept, tail).0, f, g, ops)
            },
            None => lemma_sweep_keeps(nodes, kept.push(todo[0]), tail, ops),
        }
    }
}

proof fn lemma_settle_keeps<T>(
    nodes: Seq<NodeView<T>>,
    pending: Seq<OpView<T>>,
    ops: Seq<OpView<T>>,
) -> (at: Seq<int>)
    requires
        forall|i: int| 0 <= i < pending.len() ==> ops.contains(#[trigger] pending[i]),
    ensures
        kept_at(nodes, rga_model::settle(nodes, pending).0, at),
        sourced(rga_model::settle(nodes, pending).0, at, ops),
        forall|i: int|
            0 <= i < rga_model::settle(nodes, pending).1.len() ==> ops.contains(
                #[trigger] rga_model::settle(nodes, pending).1[i],
            ),
    decreases pending.len(),
{
    let (next, kept) = rga_model::sweep(nodes, Seq::empty(), pending);
    let f = lemma_sweep_keeps(nodes, Seq::empty(), pending, ops);
    if kept.len() < pending.len() {
        let g = lemma_settle_keeps(next, kept, ops);
        lemma_composed(nodes, next, rga_model::settle(next, kept).0, f, g, ops)
    } else {
        f
    }
}

proof fn lemma_receive_keeps<T>(
    list: ListView<T>,
    op: OpView<T>,
    ops: Seq<OpView<T>>,
) -> (at: Seq<int>)
    requires
        ops.contains(op),
        forall|i: int| 0 <= i < list.pending.len() ==> ops.contains(#[trigger] list.pending[i]),
    ensures
        kept_at(list.nodes, rga_model::receive(list, op).nodes, at),
        sourced(rga_model::receive(list, op).nodes, at, ops),
        forall|i: int|
            0 <= i < rga_model::receive(list, op).pending.len() ==> ops.contains(
                #[trigger] rga_model::receive(list, op).pending[i],
            ),
{
    let next = rga_model::receive(list, op);
    match op {
        OpView::Delete { id } => {
            let at = lemma_stays(list.nodes, ops);
            let mid = ListView { graves: list.graves.insert(id), ..list };
            rga_facts::lemma_interred(mid);
            lemma_same_values(list.nodes, list.nodes, next.nodes, at, ops);
            at
        },
        OpView::Insert { .. } => match rga_model::step(list.nodes, op) {
            None => {
                assert forall|i: int| 0 <= i < next.pending.len() implies ops.contains(
                    #[trigger] next.pending[i],
                ) by {
                    if i < list.pending.len() {
                        assert(next.pending[i] == list.pending[i]);
                    }
                }
                lemma_stays(list.nodes, ops)
            },
            Some(put) => {
                let f = lemma_step_keeps(list.nodes, op, ops);
                let g = lemma_settle_keeps(put, list.pending, ops);
                let (nodes, pending) = rga_model::settle(put, list.pending);
                let at = lemma_composed(list.nodes, put, nodes, f, g, ops);
                rga_facts::lemma_interred(
                    ListView {
                        clock: rga_model::later(list.clock, op.target().clock),
                        nodes,
                        pending,
                        ..list
                    },
                );
                lemma_same_values(list.nodes, nodes, next.nodes, at, ops);
                at
            },
        },
    }
}

/// Tombstones keep their identifiers and their values.
proof fn lemma_same_values<T>(
    nodes: Seq<NodeView<T>>,
    a: Seq<NodeView<T>>,
    b: Seq<NodeView<T>>,
    at: Seq<int>,
    ops: Seq<OpView<T>>,
)
    requires
        kept_at(nodes, a, at),
        sourced(a, at, ops),
        b.len() == a.len(),
        forall|i: int|
            0 <= i < a.len() ==> (#[trigger] b[i]).id == a[i].id && b[i].value == a[i].value,
    ensures
        kept_at(nodes, b, at),
        sourced(b, at, ops),
{
    assert forall|i: int| #![trigger at[i]] 0 <= i < nodes.len() implies 0 <= at[i] < b.len()
        && b[at[i]].id == nodes[i].id && b[at[i]].value == nodes[i].value by {
        assert(b[at[i]].id == a[at[i]].id);
    }
    assert forall|k: int| #![trigger b[k]] 0 <= k < b.len() implies at.contains(k) || put_in(
        ops,
        b[k],
    ) by {
        assert(at.contains(k) || put_in(ops, a[k]));
        if put_in(ops, a[k]) {
            let o = choose|o: int|
                0 <= o < ops.len() && #[trigger] ops[o] is Insert && ops[o].target() == a[k].id
                    && ops[o]->value == a[k].value;
            assert(ops[o] is Insert);
        }
    }
}

/// Receiving an operation moves nothing that is in the list and changes no value: the
/// elements stand in the next list in the same order, at the positions `at`; every other
/// element there was put in by the operation, or by an insertion that was held back, with
/// its value.
pub proof fn law_receiving_moves_nothing<T>(list: ListView<T>, op: OpView<T>) -> (at: Seq<int>)
    ensures
        ({
            let next = rga_model::receive(list, op).nodes;
            &&& at.len() == list.nodes.len()
            &&& forall|i: int|
                #![trigger at[i]]
                0 <= i < at.len() ==> 0 <= at[i] < next.len() && next[at[i]].id
                    == list.nodes[i].id && next[at[i]].value == list.nodes[i].value
            &&& forall|i: int, j: int| 0 <= i < j < at.len() ==> #[trigger] at[i] < #[trigger] at[j]
            &&& forall|k: int|
                #![trigger next[k]]
                0 <= k < next.len() && !at.contains(k) ==> {
                    ||| op is Insert && op.target() == next[k].id && op->value == next[k].value
                    ||| exists|o: int|
                        0 <= o < list.pending.len() && #[trigger] list.pending[o] is Insert
                            && list.pending[o].target() == next[k].id && list.pending[o]->value
                            == next[k].value
                }
        }),
{
    let ops = list.pending.push(op);
    let n = list.pending.len() as int;
    assert(ops[n] == op);
    assert forall|i: int| 0 <= i < list.pending.len() implies ops.contains(
        #[trigger] list.pending[i],
    ) by {
        assert(ops[i] == list.pending[i]);
    }
    let at = lemma_receive_keeps(list, op, ops);
    let next = rga_model::receive(list, op).nodes;
    assert forall|k: int| #![trigger next[k]] 0 <= k < next.len() && !at.contains(k) implies (op is Insert
        && op.target() == next[k].id && op->value == next[k].value) || exists|o: int|
        0 <= o < list.pending.len() && #[trigger] list.pending[o] is Insert
            && list.pending[o].target() == next[k].id && list.pending[o]->value
            == next[k].value by {
        let o = choose|o: int|
            0 <= o < ops.len() && #[trigger] ops[o] is Insert && ops[o].target() == next[k].id
                && ops[o]->value == next[k].value;
        if o < n {
            assert(list.pending[o] is Insert);
        }
    }
    at
}

/// Merging moves nothing of a list and changes no value: its elements stand in the merged
/// list in the same order, at the positions `at`; every other element there is one of the
/// other list, or was put in by an insertion that one of the two held back, with its
/// value.
pub proof fn law_merging_moves_nothing<T>(list: ListView<T>, other: ListView<T>) -> (at: Seq<int>)
    ensures
        ({
            let next = rga_model::merged(list, other).nodes;
            &&& at.len() == list.nodes.len()
            &&& forall|i: int|
                #![trigger at[i]]
                0 <= i < at.len() ==> 0 <= at[i] < next.len() && next[at[i]].id
                    == list.nodes[i].id && next[at[i]].value == list.nodes[i].value
            &&& forall|i: int, j: int| 0 <= i < j < at.len() ==> #[trigger] at[i] < #[trigger] at[j]
            &&& forall|k: int|
                #![trigger next[k]]
                0 <= k < next.len() && !at.contains(k) ==> {
                    ||| exists|i: int|
                        0 <= i < other.nodes.len() && (#[trigger] other.nodes[i]).id
                            == next[k].id && other.nodes[i].value == next[k].value
                    ||| exists|o: int|
                        0 <= o < list.pending.len() && #[trigger] list.pending[o] is Insert
                            && list.pending[o].target() == next[k].id && list.pending[o]->value
                            == next[k].value
                    ||| exists|o: int|
                        0 <= o < other.pending.len() && #[trigger] other.pending[o] is Insert
                            && other.pending[o].target() == next[k].id
                            && other.pending[o]->value == next[k].value
                }
        }),
{
    let moves = Seq::new(other.nodes.len(), |i: int| rga_model::transfer_op(other.nodes, i));
    let ops = list.pending + other.pending + moves;
    let (a, b) = (list.pending.len() as int, other.pending.len() as int);
    assert forall|i: int| 0 <= i < list.pending.len() implies ops.contains(
        #[trigger] list.pending[i],
    ) by {
        assert(ops[i] == list.pending[i]);
    }
    assert forall|i: int| 0 <= i < other.pending.len() implies ops.contains(
        #[trigger] other.pending[i],
    ) by {
        assert(ops[a + i] == other.pending[i]);
    }
    assert forall|i: int| 0 <= i < other.nodes.len() implies ops.contains(
        #[trigger] rga_model::transfer_op(other.nodes, i),
    ) by {
        assert(ops[a + b + i] == moves[i]);
    }
    let start = rga_model::mourning(list, other);
    let mid = ListView {
        clock: rga_model::later(list.clock, other.clock),
        graves: list.graves.union(rga_model::buried_ids(other.nodes)).union(other.graves),
        ..list
    };
    rga_facts::lemma_interred(mid);
    let e = lemma_stays(list.nodes, ops);
    lemma_same_values(list.nodes, list.nodes, start.nodes, e, ops);
    let n = other.nodes.len() as int;
    let f = lemma_absorb_keeps(start, other.nodes, n, ops);
    let all = rga_model::absorb(start, other.nodes, n);
    let g = lemma_take_over_keeps(all, other.pending, b, ops);
    let next = rga_model::merged(list, other).nodes;
    let h = lemma_composed(list.nodes, start.nodes, all.nodes, e, f, ops);
    let at = lemma_composed(list.nodes, all.nodes, next, h, g, ops);
    assert forall|k: int| #![trigger next[k]] 0 <= k < next.len() && !at.contains(k) implies (exists|
        i: int,
    |
        0 <= i < other.nodes.len() && (#[trigger] other.nodes[i]).id == next[k].id
            && other.nodes[i].value == next[k].value) || (exists|o: int|
        0 <= o < list.pending.len() && #[trigger] list.pending[o] is Insert
            && list.pending[o].target() == next[k].id && list.pending[o]->value
            == next[k].value) || (exists|o: int|
        0 <= o < other.pending.len() && #[trigger] other.pending[o] is Insert
            && other.pending[o].target() == next[k].id && other.pending[o]->value
            == next[k].value) by {
        let o = choose|o: int|
            0 <= o < ops.len() && #[trigger] ops[o] is Insert && ops[o].target() == next[k].id
                && ops[o]->value == next[k].value;
        if o < a {
            assert(list.pending[o] is Insert);
        } else if o < a + b {
            assert(ops[o] == other.pending[o - a]);
            assert(other.pending[o - a] is Insert);
        } else {
            assert(ops[o] == moves[o - a - b]);
            assert(other.nodes[o - a - b].id == next[k].id);
        }
    }
    at
}

proof fn lemma_absorb_keeps<T>(
    list: ListView<T>,
    source: Seq<NodeView<T>>,
    n: int,
    ops: Seq<OpView<T>>,
) -> (at: Seq<int>)
    requires
        0 <= n <= source.len(),
        forall|i: int|
            0 <= i < source.len() ==> ops.contains(#[trigger] rga_model::transfer_op(source, i)),
        forall|i: int| 0 <= i < list.pending.len() ==> ops.contains(#[trigger] list.pending[i]),
    ensures
        kept_at(list.nodes, rga_model::absorb(list, source, n).nodes, at),
        sourced(rga_model::absorb(list, source, n).nodes, at, ops),
        forall|i: int|
            0 <= i < rga_model::absorb(list, source, n).pending.len() ==> ops.contains(
                #[trigger] rga_model::absorb(list, source, n).pending[i],
            ),
    decreases n,
{
    if n <= 0 {
        lemma_stays(list.nodes, ops)
    } else {
        let sofar = rga_model::absorb(list, source, n - 1);
        let f = lemma_absorb_keeps(list, source, n - 1, ops);
        if rga_model::contains_id(sofar.nodes, source[n - 1].id) {
            f
        } else {
            let op = rga_model::transfer_op(source, n - 1);
            let g = lemma_receive_keeps(sofar, op, ops);
            lemma_composed(
                list.nodes,
                sofar.nodes,
                rga_model::receive(sofar, op).nodes,
                f,
                g,
                ops,
            )
        }
    }
}

proof fn lemma_take_over_keeps<T>(
    list: ListView<T>,
    held: Seq<OpView<T>>,
    n: int,
    ops: Seq<OpView<T>>,
) -> (at: Seq<int>)
    requires
        0 <= n <= held.len(),
        forall|i: int| 0 <= i < held.len() ==> ops.contains(#[trigger] held[i]),
        forall|i: int| 0 <= i < list.pending.len() ==> ops.contains(#[trigger] list.pending[i]),
    ensures
        kept_at(list.nodes, rga_model::take_over(list, held, n).nodes, at),
        sourced(rga_model::take_over(list, held, n).nodes, at, ops),
        forall|i: int|
            0 <= i < rga_model::take_over(list, held, n).pending.len() ==> ops.contains(
                #[trigger] rga_model::take_over(list, held, n).pending[i],
            ),
    decreases n,
{
    if n <= 0 {
        lemma_stays(list.nodes, ops)
    } else {
        let sofar = rga_model::take_over(list, held, n - 1);
        let f = lemma_take_over_keeps(list, held, n - 1, ops);
        if rga_model::known(sofar, held[n - 1].target()) {
            f
        } else {
            let g = lemma_receive_keeps(sofar, held[n - 1], ops);
            lemma_composed(
                list.nodes,
                sofar.nodes,
                rga_model::receive(sofar, held[n - 1]).nodes,
                f,
                g,
                ops,
            )
        }
    }
}

// ── Values as they are held ──────────────────────────────────────────────────

/// Identifiers, elements and operations are seen as they are, one for one.
pub proof fn law_lists_are_seen_as_they_are<T: Clone>(
    op: RGAOp<T>,
    nodes: Seq<RGANode<T>>,
    ops: Seq<RGAOp<T>>,
    ids: Seq<RGAId>,
    i: int,
    x: IdView,
)
    ensures
        match op {
            RGAOp::Insert { id, after_id, value } => op@ == (OpView::Insert {
                id: IdView { clock: id.clock, node: id.node_id@ },
                after: match after_id {
                    Some(a) => Some(IdView { clock: a.clock, node: a.node_id@ }),
                    None => None,
                },
                value,
            }),
            RGAOp::Delete { id } => op@ == (OpView::<T>::Delete {
                id: IdView { clock: id.clock, node: id.node_id@ },
            }),
        },
        op@.target() == match op {
            RGAOp::Insert { id, .. } => IdView { clock: id.clock, node: id.node_id@ },
            RGAOp::Delete { id } => IdView { clock: id.clock, node: id.node_id@ },
        },
        rga::node_views(nodes).len() == nodes.len(),
        0 <= i < nodes.len() ==> rga::node_views(nodes)[i] == (NodeView {
            id: IdView { clock: nodes[i].id.clock, node: nodes[i].id.node_id@ },
            value: nodes[i].value,
            deleted: nodes[i].deleted,
        }),
        rga::op_views(ops).len() == ops.len(),
        0 <= i < ops.len() ==> rga::op_views(ops)[i] == ops[i]@,
        rga::id_set(ids).contains(x) <==> exists|k: int|
            0 <= k < ids.len() && (#[trigger] ids[k])@ == x,
{
    if exists|k: int| 0 <= k < ids.len() && (#[trigger] ids[k])@ == x {
        let k = choose|k: int| 0 <= k < ids.len() && (#[trigger] ids[k])@ == x;
        assert(rga::is_at(ids, k, x));
    }
    if rga::id_set(ids).contains(x) {
        let k = choose|k: int| rga::is_at(ids, k, x);
        assert(ids[k]@ == x);
    }
}

/// A clone of a list is the list with clones of its values.
pub proof fn law_clones_of_lists<T: Clone>(list: ListView<T>, copy: ListView<T>, i: int)
    requires
        rga::cloned_list(list, copy),
    ensures
        copy.clock == list.clock,
        copy.graves == list.graves,
        copy.nodes.len() == list.nodes.len(),
        0 <= i < list.nodes.len() ==> copy.nodes[i].id == list.nodes[i].id
            && copy.nodes[i].deleted == list.nodes[i].deleted && cloned(
            list.nodes[i].value,
            copy.nodes[i].value,
        ),
        copy.pending.len() == list.pending.len(),
        0 <= i < list.pending.len() ==> match list.pending[i] {
            OpView::Delete { .. } => copy.pending[i] == list.pending[i],
            OpView::Insert { id, after, value } => copy.pending[i] is Insert
                && copy.pending[i].target() == id && copy.pending[i]->after == after && cloned(
                value,
                copy.pending[i]->value,
            ),
        },
{
    if 0 <= i < list.pending.len() {
        assert(rga::cloned_op(list.pending[i], copy.pending[i]));
    }
}

} // verus!
