//! Laws of the replicated list for one replica: what an edit shows, and that
//! nothing comes of receiving an operation twice.

use crate::rga_facts;
use crate::rga_laws;
use crate::rga_model;
use crate::rga_model::IdView;
use crate::rga_model::ListView;
use crate::rga_model::NodeView;
use crate::rga_model::OpView;
use vstd::prelude::*;

verus! {

/// The visible elements of a list are those before a position and those from it
/// on.
proof fn lemma_live_split<T>(nodes: Seq<NodeView<T>>, p: int)
    requires
        0 <= p <= nodes.len(),
    ensures
        rga_model::live(nodes) == rga_model::live(nodes.take(p)) + rga_model::live(nodes.skip(p)),
    decreases nodes.len() - p,
{
    if p == nodes.len() {
        assert(nodes.take(p) =~= nodes);
        assert(nodes.skip(p) =~= Seq::empty());
        reveal(Seq::filter);
        assert(rga_model::live(nodes) =~= rga_model::live(nodes) + Seq::empty());
    } else {
        lemma_live_split(nodes, p + 1);
        rga_facts::lemma_live_take(nodes, p);
        lemma_live_first(nodes.skip(p));
        assert(nodes.skip(p).drop_first() =~= nodes.skip(p + 1));
        assert(nodes.skip(p)[0] == nodes[p]);
        assert(rga_model::live(nodes) =~= rga_model::live(nodes.take(p)) + rga_model::live(
            nodes.skip(p),
        ));
    }
}

proof fn lemma_live_first<T>(nodes: Seq<NodeView<T>>)
    requires
        nodes.len() > 0,
    ensures
        rga_model::live(nodes) == if nodes[0].deleted {
            rga_model::live(nodes.drop_first())
        } else {
            seq![nodes[0]] + rga_model::live(nodes.drop_first())
        },
    decreases nodes.len(),
{
    reveal(Seq::filter);
    if nodes.len() == 1 {
        rga_facts::lemma_live_take(nodes, 0);
        assert(nodes.take(1) =~= nodes);
        assert(nodes.drop_first() =~= nodes.take(0));
        assert(rga_model::live(nodes) =~= if nodes[0].deleted {
            rga_model::live(nodes.drop_first())
        } else {
            seq![nodes[0]] + rga_model::live(nodes.drop_first())
        });
    } else {
        let front = nodes.drop_last();
        let last = nodes.last();
        lemma_live_first(front);
        assert(front.drop_first() =~= nodes.drop_first().drop_last());
        assert(nodes.drop_first().last() == last);
        if nodes[0].deleted {
            assert(rga_model::live(nodes) =~= rga_model::live(nodes.drop_first()));
        } else {
            assert(rga_model::live(nodes) =~= seq![nodes[0]] + rga_model::live(
                nodes.drop_first(),
            ));
        }
    }
}

/// The position of the visible element number `index`: so many visible elements
/// stand before it.
pub proof fn lemma_live_position<T>(nodes: Seq<NodeView<T>>, index: int) -> (p: int)
    requires
        0 <= index < rga_model::live(nodes).len(),
    ensures
        0 <= p < nodes.len(),
        nodes[p] == rga_model::live(nodes)[index],
        !nodes[p].deleted,
        rga_model::live(nodes.take(p)).len() == index,
    decreases nodes.len(),
{
    reveal(Seq::filter);
    let front = nodes.drop_last();
    let n = nodes.len() - 1;
    assert(nodes.take(n) =~= front);
    assert(nodes.take(n + 1) =~= nodes);
    rga_facts::lemma_live_take(nodes, n);
    if index < rga_model::live(front).len() {
        let p = lemma_live_position(front, index);
        assert(front.take(p) =~= nodes.take(p));
        p
    } else {
        n
    }
}

/// Held back operations that wait for nothing in the list leave it as it is.
pub proof fn lemma_settle_waiting<T>(nodes: Seq<NodeView<T>>, pending: Seq<OpView<T>>)
    requires
        forall|i: int| 0 <= i < pending.len() ==> rga_model::waits(nodes, #[trigger] pending[i]),
    ensures
        rga_model::settle(nodes, pending) == (nodes, pending),
{
    lemma_sweep_waiting(nodes, Seq::empty(), pending);
    assert(Seq::<OpView<T>>::empty() + pending =~= pending);
}

proof fn lemma_sweep_waiting<T>(
    nodes: Seq<NodeView<T>>,
    kept: Seq<OpView<T>>,
    todo: Seq<OpView<T>>,
)
    requires
        forall|i: int| 0 <= i < todo.len() ==> rga_model::waits(nodes, #[trigger] todo[i]),
    ensures
        rga_model::sweep(nodes, kept, todo) == (nodes, kept + todo),
    decreases todo.len(),
{
    if todo.len() > 0 {
        let tail = todo.drop_first();
        assert(rga_model::waits(nodes, todo[0]));
        assert forall|i: int| 0 <= i < tail.len() implies rga_model::waits(
            nodes,
            #[trigger] tail[i],
        ) by {
            assert(tail[i] == todo[i + 1]);
        }
        lemma_sweep_waiting(nodes, kept.push(todo[0]), tail);
        assert(kept.push(todo[0]) + tail =~= kept + todo);
    } else {
        assert(kept + todo =~= kept);
    }
}

/// A local insertion carries an identifier that is newer than everything that the
/// replica knows, in particular than the element that it goes behind.
pub proof fn law_insertions_are_new<T>(
    list: ListView<T>,
    owner: Seq<char>,
    index: int,
    value: T,
)
    requires
        list.well_formed(),
        list.clock < u64::MAX,
        0 <= index <= rga_model::visible(list.nodes).len(),
    ensures
        ({
            let op = rga_model::insertion(list, owner, index, value);
            &&& rga_laws::ordered(op)
            &&& !rga_model::contains_id(list.nodes, op.target())
            &&& forall|i: int|
                0 <= i < list.nodes.len() ==> rga_model::id_lt(
                    (#[trigger] list.nodes[i]).id,
                    op.target(),
                )
            &&& forall|i: int|
                0 <= i < list.pending.len() ==> rga_model::id_lt(
                    (#[trigger] list.pending[i]).target(),
                    op.target(),
                )
        }),
{
    let op = rga_model::insertion(list, owner, index, value);
    if index > 0 {
        let p = lemma_live_position(list.nodes, index - 1);
        assert(list.nodes[p].id.clock <= list.clock);
    }
    if rga_model::contains_id(list.nodes, op.target()) {
        let i = choose|i: int| rga_model::stands_at(list.nodes, i, op.target());
        assert(list.nodes[i].id.clock <= list.clock);
    }
}

/// `op` is to be put behind the element `id`.
pub open spec fn goes_behind<T>(op: OpView<T>, id: IdView) -> bool {
    op matches OpView::Insert { after, .. } && after == Some(id)
}

/// A local insertion shows its value at the index where it was asked for, and
/// moves nothing else, provided that no insertion held back waits for the new element.
pub proof fn law_insert_shows<T>(list: ListView<T>, owner: Seq<char>, index: int, value: T)
    requires
        list.well_formed(),
        list.clock < u64::MAX,
        forall|i: int|
            0 <= i < list.pending.len() ==> !goes_behind(
                #[trigger] list.pending[i],
                rga_model::insertion(list, owner, index, value).target(),
            ),
        0 <= index <= rga_model::visible(list.nodes).len(),
    ensures
        ({
            let next = rga_model::receive(
                list,
                rga_model::insertion(list, owner, index, value),
            );
            rga_model::visible(next.nodes) == rga_model::visible(list.nodes).insert(index, value)
        }),
{
    let op = rga_model::insertion(list, owner, index, value);
    let id = op.target();
    let nodes = list.nodes;
    law_insertions_are_new(list, owner, index, value);
    let p = if index == 0 {
        0
    } else {
        let q = lemma_live_position(nodes, index - 1);
        assert(rga_model::stands_at(nodes, q, nodes[q].id));
        rga_facts::lemma_position(nodes, q, nodes[q].id);
        rga_facts::lemma_live_take(nodes, q);
        q + 1
    };
    let after = if index == 0 {
        None::<IdView>
    } else {
        Some(rga_model::live(nodes)[index - 1].id)
    };
    assert(p == rga_model::behind(nodes, after));
    if p < nodes.len() {
        rga_facts::lemma_id_order(id, nodes[p].id);
    }
    assert(rga_model::landing(nodes, p, id) == p);
    let new = NodeView { id, value, deleted: false };
    let next = nodes.insert(p, new);
    assert(next == rga_model::with_element(nodes, id, after, value));
    rga_facts::lemma_with_element(nodes, id, after, value);
    assert forall|i: int| 0 <= i < list.pending.len() implies rga_model::waits(
        next,
        #[trigger] list.pending[i],
    ) by {
        let held = list.pending[i];
        assert(rga_model::waits(nodes, held));
        assert(!goes_behind(held, id));
        if let OpView::Insert { id: x, after: a, value: v } = held {
            rga_facts::lemma_id_order(x, id);
        }
    }
    lemma_settle_waiting(next, list.pending);
    let settled = ListView { clock: id.clock, nodes: next, ..list };
    assert forall|x: IdView| #[trigger] list.graves.contains(x) implies
        !rga_model::contains_id(next, x) by {
        assert(x.clock <= list.clock);
    }
    rga_facts::lemma_interred_already(settled, list.graves);
    reveal(Seq::filter);
    if index == 0 {
        assert(nodes.take(0) =~= Seq::empty());
    }
    assert(rga_model::live(nodes.take(p)).len() == index);
    lemma_live_split(nodes, p);
    lemma_live_split(next, p);
    assert(next.take(p) =~= nodes.take(p));
    lemma_live_first(next.skip(p));
    assert(next.skip(p)[0] == new);
    assert(next.skip(p).drop_first() =~= nodes.skip(p));
    assert(rga_model::live(next) =~= rga_model::live(nodes).insert(index, new));
    assert(rga_model::visible(next) =~= rga_model::visible(nodes).insert(index, value));
}

/// A local deletion takes away the element at its index, and moves nothing else.
pub proof fn law_delete_hides<T>(list: ListView<T>, index: int)
    requires
        list.well_formed(),
        0 <= index < rga_model::visible(list.nodes).len(),
    ensures
        ({
            let next = rga_model::receive(list, rga_model::deletion(list.nodes, index));
            rga_model::visible(next.nodes) == rga_model::visible(list.nodes).remove(index)
        }),
{
    let nodes = list.nodes;
    let id = rga_model::live(nodes)[index].id;
    let p = lemma_live_position(nodes, index);
    let next = rga_model::entombed(nodes, list.graves.insert(id));
    assert forall|i: int| 0 <= i < nodes.len() && i != p implies next[i] == nodes[i] by {
        if i < p {
            assert(nodes[i].id != nodes[p].id);
        } else {
            assert(nodes[p].id != nodes[i].id);
        }
        assert(rga_model::stands_at(nodes, i, nodes[i].id));
    }
    assert(next.take(p) =~= nodes.take(p));
    assert(next.skip(p).drop_first() =~= nodes.skip(p).drop_first());
    lemma_live_split(nodes, p);
    lemma_live_split(next, p);
    lemma_live_first(nodes.skip(p));
    lemma_live_first(next.skip(p));
    assert(rga_model::live(next) =~= rga_model::live(nodes).remove(index));
    assert(rga_model::visible(next) =~= rga_model::visible(nodes).remove(index));
}

/// Receiving an operation a second time changes nothing, except that an insertion that
/// is being held back is then held back twice.
pub proof fn law_receive_idempotent<T>(list: ListView<T>, op: OpView<T>)
    requires
        list.well_formed(),
    ensures
        ({
            let once = rga_model::receive(list, op);
            let twice = rga_model::receive(once, op);
            &&& rga_laws::same_state(twice, once)
            &&& !rga_model::waits(once.nodes, op) ==> twice == once
        }),
{
    let once = rga_model::receive(list, op);
    let twice = rga_model::receive(once, op);
    rga_facts::lemma_receive(list, op);
    rga_facts::lemma_step(list.nodes, op, 0);
    match op {
        OpView::Delete { id } => {
            assert(rga_model::dead(once, id));
            rga_facts::lemma_interred_already(once, once.graves.insert(id));
        },
        OpView::Insert { id, .. } => {
            assert(rga_model::known(once, id));
            if rga_model::contains_id(once.nodes, id) {
                lemma_settle_waiting(once.nodes, once.pending);
                rga_facts::lemma_interred_already(once, once.graves);
            } else {
                let i = choose|i: int|
                    0 <= i < once.pending.len() && (#[trigger] once.pending[i]).target() == id;
                assert(rga_model::waits(once.nodes, once.pending[i]));
                lemma_held_back(list, op);
            }
        },
    }
}

/// An insertion that is not in the list after it was received was held back, and is
/// held back again.
proof fn lemma_held_back<T>(list: ListView<T>, op: OpView<T>)
    requires
        list.well_formed(),
        op is Insert,
        !rga_model::contains_id(rga_model::receive(list, op).nodes, op.target()),
    ensures
        ({
            let once = rga_model::receive(list, op);
            let twice = rga_model::receive(once, op);
            &&& rga_model::waits(once.nodes, op)
            &&& twice.nodes == once.nodes
            &&& twice.clock == once.clock
            &&& twice.graves == once.graves
            &&& rga_laws::same_operations(twice.pending, once.pending)
        }),
{
    let once = rga_model::receive(list, op);
    let twice = rga_model::receive(once, op);
    rga_facts::lemma_receive(list, op);
    rga_facts::lemma_step(list.nodes, op, 0);
    if let Some(mid) = rga_model::step(list.nodes, op) {
        let (nodes, pending) = rga_model::settle(mid, list.pending);
        assert forall|i: int| 0 <= i < list.pending.len() implies (
        #[trigger] list.pending[i]) is Insert by {
            assert(rga_model::waits(list.nodes, list.pending[i]));
        }
        rga_facts::lemma_settle_progress(mid, list.pending);
        assert(rga_model::contains_id(mid, op.target()));
        assert(rga_model::contains_id(nodes, op.target()));
        rga_facts::lemma_interred(ListView { clock: once.clock, nodes, pending, ..list });
        assert(false);
    }
    let n = list.pending.len() as int;
    assert(once.pending[n] == op);
    assert(rga_model::waits(once.nodes, once.pending[n]));
    rga_facts::lemma_step(once.nodes, op, 0);
    assert(twice.pending == once.pending.push(op));
    assert forall|x: OpView<T>| #[trigger] twice.pending.contains(x) <==> once.pending.contains(
        x,
    ) by {
        if twice.pending.contains(x) {
            let i = choose|i: int| 0 <= i < twice.pending.len() && twice.pending[i] == x;
            if i == once.pending.len() {
                assert(once.pending[n] == x);
            } else {
                assert(once.pending[i] == x);
            }
        }
        if once.pending.contains(x) {
            let i = choose|i: int| 0 <= i < once.pending.len() && once.pending[i] == x;
            assert(twice.pending[i] == x);
        }
    }
}

} // verus!
