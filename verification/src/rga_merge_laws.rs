//! Laws of merging replicas of a list.
//!
//! Replicas whose lists are in the order of one record of insertions may be
//! merged in any order and any number of times: the same state comes out.

use crate::rga_facts;
use crate::rga_laws;
use crate::rga_model;
use crate::rga_model::IdView;
use crate::rga_model::ListView;
use crate::rga_model::NodeView;
use crate::rga_model::OpView;
use crate::rga_order;
use crate::rga_order::Birth;
use vstd::prelude::*;

verus! {

/// One more element of the other replica keeps the list in order.
proof fn lemma_transfer<T>(
    log: Map<IdView, Birth<T>>,
    list: ListView<T>,
    source: Seq<NodeView<T>>,
    i: int,
)
    requires
        rga_order::sound(log),
        rga_laws::grown(log, list),
        rga_order::rooted(log, source),
        rga_order::in_order(log, source),
        rga_model::distinct(source),
        0 <= i < source.len(),
        forall|j: int| 0 <= j < i ==> rga_model::contains_id(list.nodes, (#[trigger] source[j]).id),
        !rga_model::contains_id(list.nodes, source[i].id),
    ensures
        rga_laws::grown(log, rga_model::receive(list, rga_model::transfer_op(source, i))),
{
    let op = rga_model::transfer_op(source, i);
    let n = source[i].id;
    let q = if i == 0 {
        None::<IdView>
    } else {
        Some(source[i - 1].id)
    };
    let nodes = list.nodes;
    assert(rga_model::stands_at(source, i, n));
    assert(rga_order::born(log, source, source[i]));
    rga_order::lemma_lineage(log, source, n);
    let way = rga_order::lineage(log, n);
    assert forall|k: int| 0 <= k < way.len() - 1 implies rga_model::contains_id(
        nodes,
        #[trigger] way[k],
    ) && (q is Some && (way[k] == q->0 || rga_order::precedes(log, way[k], q->0))) by {
        let a = way[k];
        assert(rga_order::lineage(log, a) == way.take(k + 1));
        assert(crate::lex::lex_split(rga_order::newer_first(), way.take(k + 1), way, k + 1));
        assert(rga_order::precedes(log, a, n));
        let m = choose|m: int| rga_model::stands_at(source, m, a);
        rga_order::lemma_positions(log, source, m, i);
        assert(rga_model::contains_id(nodes, source[m].id));
        if m < i - 1 {
            assert(rga_order::precedes(log, source[m].id, source[i - 1].id));
        }
    }
    if log[n].after is Some {
        let p = log[n].after->0;
        let m = choose|m: int| rga_model::stands_at(source, m, p);
        assert(rga_order::born(log, source, source[m]));
        assert(way == rga_order::lineage(log, p).push(n));
        rga_order::lemma_lineage(log, source, p);
        assert(way[way.len() - 2] == p);
    }
    assert(rga_order::ripe(log, nodes, n));
    if q is Some {
        assert(rga_model::contains_id(nodes, source[i - 1].id));
        assert(rga_order::precedes(log, source[i - 1].id, source[i].id));
    } else {
        if way.len() > 1 {
            assert(rga_model::contains_id(nodes, way[0]));
        }
    }
    assert(rga_order::leads_to(log, nodes, q, n));
    rga_order::lemma_insert_in_order(log, nodes, q, n);
    rga_facts::lemma_receive(list, op);
    let mid = rga_model::with_element(nodes, n, q, source[i].value);
    assert(rga_model::step(nodes, op) == Some(mid));
    rga_facts::lemma_step(nodes, op, 0);
    rga_laws::lemma_settle_order(log, mid, list.pending);
    let (settled, pending) = rga_model::settle(mid, list.pending);
    let clock = rga_model::later(list.clock, n.clock);
    rga_laws::lemma_interred_order(log, ListView { clock, nodes: settled, pending, ..list });
}

/// Taking over the first `n` elements of another replica keeps the list in order.
proof fn lemma_absorb_order<T>(
    log: Map<IdView, Birth<T>>,
    list: ListView<T>,
    source: Seq<NodeView<T>>,
    n: int,
)
    requires
        rga_order::sound(log),
        rga_laws::grown(log, list),
        rga_order::rooted(log, source),
        rga_order::in_order(log, source),
        rga_model::distinct(source),
        rga_facts::nodes_within(source, list.clock),
        0 <= n <= source.len(),
    ensures
        rga_laws::grown(log, rga_model::absorb(list, source, n)),
    decreases n,
{
    if n > 0 {
        let sofar = rga_model::absorb(list, source, n - 1);
        lemma_absorb_order(log, list, source, n - 1);
        rga_facts::lemma_absorb(list, source, n - 1);
        if !rga_model::contains_id(sofar.nodes, source[n - 1].id) {
            lemma_transfer(log, sofar, source, n - 1);
        }
    }
}

/// Taking over the first `n` operations held back keeps the list in order.
proof fn lemma_take_over_order<T>(
    log: Map<IdView, Birth<T>>,
    list: ListView<T>,
    ops: Seq<OpView<T>>,
    n: int,
)
    requires
        rga_order::sound(log),
        rga_laws::grown(log, list),
        rga_laws::all_recorded(log, ops),
        0 <= n <= ops.len(),
    ensures
        rga_laws::grown(log, rga_model::take_over(list, ops, n)),
    decreases n,
{
    if n > 0 {
        lemma_take_over_order(log, list, ops, n - 1);
        assert(rga_laws::recorded(log, ops[n - 1]));
        let sofar = rga_model::take_over(list, ops, n - 1);
        if !rga_model::known(sofar, ops[n - 1].target()) {
            rga_laws::lemma_receive_grown(log, sofar, ops[n - 1]);
        }
    }
}

/// A merged list is in the order of the insertions on record, so that it may be
/// merged further.
pub proof fn law_merged_lists_grow<T>(
    log: Map<IdView, Birth<T>>,
    a: ListView<T>,
    b: ListView<T>,
)
    requires
        rga_order::sound(log),
        rga_laws::grown(log, a),
        rga_laws::grown(log, b),
    ensures
        rga_laws::grown(log, rga_model::merged(a, b)),
{
    let start = rga_model::mourning(a, b);
    let n = b.nodes.len() as int;
    rga_facts::lemma_mourning(a, b);
    rga_laws::lemma_interred_order(
        log,
        ListView {
            clock: rga_model::later(a.clock, b.clock),
            graves: a.graves.union(rga_model::buried_ids(b.nodes)).union(b.graves),
            ..a
        },
    );
    assert forall|i: int| 0 <= i < n implies (#[trigger] b.nodes[i]).id.clock <= start.clock by {
        assert(b.nodes[i].id.clock <= b.clock);
    }
    lemma_absorb_order(log, start, b.nodes, n);
    lemma_take_over_order(
        log,
        rga_model::absorb(start, b.nodes, n),
        b.pending,
        b.pending.len() as int,
    );
}

/// Merging is commutative: whichever of two replicas absorbs the other, the same
/// state comes out.
pub proof fn law_merge_commutative<T>(
    log: Map<IdView, Birth<T>>,
    a: ListView<T>,
    b: ListView<T>,
)
    requires
        rga_order::sound(log),
        rga_laws::grown(log, a),
        rga_laws::grown(log, b),
    ensures
        rga_laws::same_state(rga_model::merged(a, b), rga_model::merged(b, a)),
        rga_model::visible(rga_model::merged(a, b).nodes) == rga_model::visible(
            rga_model::merged(b, a).nodes,
        ),
{
    let (x, y) = (rga_model::merged(a, b), rga_model::merged(b, a));
    law_merged_lists_grow(log, a, b);
    law_merged_lists_grow(log, b, a);
    rga_facts::lemma_merged(a, b);
    rga_facts::lemma_merged(b, a);
    assert forall|id: IdView| #[trigger] rga_model::known(x, id) <==> rga_model::known(
        y,
        id,
    ) by {
        assert(rga_model::known(y, id) <==> rga_model::known(b, id) || rga_model::known(a, id));
    }
    assert forall|id: IdView| #[trigger] rga_model::dead(x, id) <==> rga_model::dead(y, id) by {
        assert(rga_model::dead(y, id) <==> rga_model::dead(b, id) || rga_model::dead(a, id));
    }
    rga_laws::lemma_determined(log, x, y);
}

/// Merging is associative: three replicas may be merged from the left or from the
/// right.
pub proof fn law_merge_associative<T>(
    log: Map<IdView, Birth<T>>,
    a: ListView<T>,
    b: ListView<T>,
    c: ListView<T>,
)
    requires
        rga_order::sound(log),
        rga_laws::grown(log, a),
        rga_laws::grown(log, b),
        rga_laws::grown(log, c),
    ensures
        rga_laws::same_state(
            rga_model::merged(rga_model::merged(a, b), c),
            rga_model::merged(a, rga_model::merged(b, c)),
        ),
        rga_model::visible(rga_model::merged(rga_model::merged(a, b), c).nodes)
            == rga_model::visible(rga_model::merged(a, rga_model::merged(b, c)).nodes),
{
    let ab = rga_model::merged(a, b);
    let bc = rga_model::merged(b, c);
    let (x, y) = (rga_model::merged(ab, c), rga_model::merged(a, bc));
    law_merged_lists_grow(log, a, b);
    law_merged_lists_grow(log, b, c);
    law_merged_lists_grow(log, ab, c);
    law_merged_lists_grow(log, a, bc);
    rga_facts::lemma_merged(a, b);
    rga_facts::lemma_merged(b, c);
    rga_facts::lemma_merged(ab, c);
    rga_facts::lemma_merged(a, bc);
    assert forall|id: IdView| #[trigger] rga_model::known(x, id) <==> rga_model::known(
        y,
        id,
    ) by {
        assert(rga_model::known(ab, id) <==> rga_model::known(a, id) || rga_model::known(b, id));
        assert(rga_model::known(bc, id) <==> rga_model::known(b, id) || rga_model::known(c, id));
        assert(rga_model::known(y, id) <==> rga_model::known(a, id) || rga_model::known(bc, id));
    }
    assert forall|id: IdView| #[trigger] rga_model::dead(x, id) <==> rga_model::dead(y, id) by {
        assert(rga_model::dead(ab, id) <==> rga_model::dead(a, id) || rga_model::dead(b, id));
        assert(rga_model::dead(bc, id) <==> rga_model::dead(b, id) || rga_model::dead(c, id));
        assert(rga_model::dead(y, id) <==> rga_model::dead(a, id) || rga_model::dead(bc, id));
    }
    rga_laws::lemma_determined(log, x, y);
}

/// A replica has nothing to take over from one whose elements it all has.
proof fn lemma_absorb_nothing<T>(list: ListView<T>, source: Seq<NodeView<T>>, n: int)
    requires
        0 <= n <= source.len(),
        forall|i: int|
            0 <= i < source.len() ==> rga_model::contains_id(
                list.nodes,
                (#[trigger] source[i]).id,
            ),
    ensures
        rga_model::absorb(list, source, n) == list,
    decreases n,
{
    if n > 0 {
        lemma_absorb_nothing(list, source, n - 1);
        assert(rga_model::contains_id(list.nodes, source[n - 1].id));
    }
}

proof fn lemma_take_over_nothing<T>(list: ListView<T>, ops: Seq<OpView<T>>, n: int)
    requires
        0 <= n <= ops.len(),
        forall|i: int|
            0 <= i < ops.len() ==> rga_model::known(list, (#[trigger] ops[i]).target()),
    ensures
        rga_model::take_over(list, ops, n) == list,
    decreases n,
{
    if n > 0 {
        lemma_take_over_nothing(list, ops, n - 1);
        assert(rga_model::known(list, ops[n - 1].target()));
    }
}

/// A replica at which everything has arrived that arrived at another does not change
/// when it merges the other.
proof fn lemma_merge_nothing<T>(list: ListView<T>, other: ListView<T>)
    requires
        list.well_formed(),
        other.clock <= list.clock,
        forall|i: int|
            0 <= i < other.nodes.len() ==> rga_model::contains_id(
                list.nodes,
                (#[trigger] other.nodes[i]).id,
            ),
        forall|x: IdView| #[trigger] rga_model::known(other, x) ==> rga_model::known(list, x),
        forall|x: IdView| #[trigger] rga_model::dead(other, x) ==> rga_model::dead(list, x),
    ensures
        rga_model::merged(list, other) == list,
{
    let graves = list.graves.union(rga_model::buried_ids(other.nodes)).union(other.graves);
    assert forall|x: IdView| #[trigger] graves.contains(x) implies rga_model::dead(list, x) by {
        if !list.graves.contains(x) {
            assert(rga_model::dead(other, x));
        }
    }
    rga_facts::lemma_interred_already(list, graves);
    assert(rga_model::mourning(list, other) == list);
    lemma_absorb_nothing(list, other.nodes, other.nodes.len() as int);
    assert forall|i: int| 0 <= i < other.pending.len() implies rga_model::known(
        list,
        (#[trigger] other.pending[i]).target(),
    ) by {
        assert(rga_model::held(other.pending, other.pending[i].target()));
        assert(rga_model::known(other, other.pending[i].target()));
    }
    lemma_take_over_nothing(list, other.pending, other.pending.len() as int);
}

/// Merging is idempotent: a replica merged with itself does not change.
pub proof fn law_merge_with_itself<T>(list: ListView<T>)
    requires
        list.well_formed(),
    ensures
        rga_model::merged(list, list) == list,
{
    assert forall|i: int| 0 <= i < list.nodes.len() implies rga_model::contains_id(
        list.nodes,
        (#[trigger] list.nodes[i]).id,
    ) by {
        assert(rga_model::stands_at(list.nodes, i, list.nodes[i].id));
    }
    lemma_merge_nothing(list, list);
}

/// Merging the same replica again changes nothing.
pub proof fn law_merge_again<T>(a: ListView<T>, b: ListView<T>)
    requires
        a.well_formed(),
        b.well_formed(),
    ensures
        rga_model::merged(rga_model::merged(a, b), b) == rga_model::merged(a, b),
{
    let m = rga_model::merged(a, b);
    rga_facts::lemma_merged(a, b);
    assert forall|i: int| 0 <= i < b.nodes.len() implies rga_model::contains_id(
        m.nodes,
        (#[trigger] b.nodes[i]).id,
    ) by {
        assert(rga_model::stands_at(b.nodes, i, b.nodes[i].id));
        assert(rga_model::contains_id(b.nodes, b.nodes[i].id));
    }
    lemma_merge_nothing(m, b);
}

/// What a replica that received operations is: its list is in the order of the
/// insertions on record.  So the laws of merging hold of any replicas whose
/// operations are on one record.
pub proof fn law_received_lists_grow<T>(log: Map<IdView, Birth<T>>, ops: Seq<OpView<T>>)
    requires
        rga_order::sound(log),
        rga_laws::all_recorded(log, ops),
    ensures
        rga_laws::grown(log, rga_laws::replay(ops)),
{
    rga_laws::lemma_replay(log, ops);
}

/// Merging is as good as receiving: a replica that received some operations and merges
/// one that received others is in the state of one that received them all.
pub proof fn law_merge_is_replay<T>(a: Seq<OpView<T>>, b: Seq<OpView<T>>)
    requires
        rga_laws::unique(a + b),
        rga_laws::all_ordered(a + b),
    ensures
        rga_laws::same_state(
            rga_model::merged(rga_laws::replay(a), rga_laws::replay(b)),
            rga_laws::replay(a + b),
        ),
{
    let all = a + b;
    let log = rga_laws::record(all);
    let (x, y, z) = (rga_laws::replay(a), rga_laws::replay(b), rga_laws::replay(all));
    let m = rga_model::merged(x, y);
    rga_laws::lemma_record(all);
    assert forall|i: int| 0 <= i < a.len() implies rga_laws::recorded(log, #[trigger] a[i]) by {
        assert(all[i] == a[i]);
    }
    assert forall|i: int| 0 <= i < b.len() implies rga_laws::recorded(log, #[trigger] b[i]) by {
        assert(all[a.len() + i] == b[i]);
    }
    rga_laws::lemma_replay(log, a);
    rga_laws::lemma_replay(log, b);
    rga_laws::lemma_replay(log, all);
    law_merged_lists_grow(log, x, y);
    rga_facts::lemma_merged(x, y);
    assert forall|id: IdView| #[trigger] rga_model::known(m, id) <==> rga_model::known(
        z,
        id,
    ) by {
        if rga_laws::inserts(a, id) {
            let i = choose|i: int|
                0 <= i < a.len() && (#[trigger] a[i]) is Insert && a[i].target() == id;
            assert(all[i] is Insert && all[i].target() == id);
        }
        if rga_laws::inserts(b, id) {
            let i = choose|i: int|
                0 <= i < b.len() && (#[trigger] b[i]) is Insert && b[i].target() == id;
            assert(all[a.len() + i] is Insert && all[a.len() + i].target() == id);
        }
        if rga_laws::inserts(all, id) {
            let i = choose|i: int|
                0 <= i < all.len() && (#[trigger] all[i]) is Insert && all[i].target() == id;
            if i < a.len() {
                assert(a[i] is Insert && a[i].target() == id);
            } else {
                assert(b[i - a.len()] is Insert && b[i - a.len()].target() == id);
            }
        }
    }
    assert forall|op: OpView<T>| #[trigger] all.contains(op) <==> a.contains(op) || b.contains(
        op,
    ) by {
        if a.contains(op) {
            let i = choose|i: int| 0 <= i < a.len() && a[i] == op;
            assert(all[i] == op);
        }
        if b.contains(op) {
            let i = choose|i: int| 0 <= i < b.len() && b[i] == op;
            assert(all[a.len() + i] == op);
        }
        if all.contains(op) {
            let i = choose|i: int| 0 <= i < all.len() && all[i] == op;
            if i < a.len() {
                assert(a[i] == op);
            } else {
                assert(b[i - a.len()] == op);
            }
        }
    }
    assert forall|id: IdView| #[trigger] rga_model::dead(m, id) <==> rga_model::dead(z, id) by {
        let deletion = OpView::<T>::Delete { id };
        assert(all.contains(deletion) <==> a.contains(deletion) || b.contains(deletion));
    }
    if z.clock > 0 {
        let i = choose|i: int| 0 <= i < all.len() && (#[trigger] all[i]).target().clock == z.clock;
        if i < a.len() {
            assert(a[i].target().clock <= x.clock);
        } else {
            assert(b[i - a.len()].target().clock <= y.clock);
        }
    }
    if x.clock > 0 {
        let i = choose|i: int| 0 <= i < a.len() && (#[trigger] a[i]).target().clock == x.clock;
        assert(all[i].target().clock <= z.clock);
    }
    if y.clock > 0 {
        let i = choose|i: int| 0 <= i < b.len() && (#[trigger] b[i]).target().clock == y.clock;
        assert(all[a.len() + i].target().clock <= z.clock);
    }
    rga_laws::lemma_determined(log, m, z);
}

/// A replica without elements takes over the elements of another in their order.
proof fn lemma_absorb_into_empty<T>(list: ListView<T>, source: Seq<NodeView<T>>, n: int)
    requires
        list.nodes.len() == 0,
        list.pending.len() == 0,
        rga_model::distinct(source),
        rga_facts::nodes_within(source, list.clock),
        0 <= n <= source.len(),
    ensures
        ({
            let next = rga_model::absorb(list, source, n);
            &&& next.clock == list.clock
            &&& next.pending == list.pending
            &&& next.nodes.len() == n
            &&& forall|i: int|
                0 <= i < n ==> (#[trigger] next.nodes[i]).id == source[i].id
                    && next.nodes[i].value == source[i].value
        }),
    decreases n,
{
    if n > 0 {
        lemma_absorb_into_empty(list, source, n - 1);
        let sofar = rga_model::absorb(list, source, n - 1);
        let nodes = sofar.nodes;
        let id = source[n - 1].id;
        if rga_model::contains_id(nodes, id) {
            let i = choose|i: int| rga_model::stands_at(nodes, i, id);
            assert(source[i].id != source[n - 1].id);
        }
        assert(rga_model::distinct(nodes)) by {
            assert forall|i: int, j: int| 0 <= i < j < nodes.len() implies (
            #[trigger] nodes[i]).id != (#[trigger] nodes[j]).id by {
                assert(source[i].id != source[j].id);
            }
        }
        let after = if n == 1 {
            None::<IdView>
        } else {
            Some(source[n - 2].id)
        };
        if n > 1 {
            assert(rga_model::stands_at(nodes, n - 2, source[n - 2].id));
            rga_facts::lemma_position(nodes, n - 2, source[n - 2].id);
        }
        assert(rga_model::behind(nodes, after) == n - 1);
        assert(rga_model::landing(nodes, n - 1, id) == n - 1);
        let new = NodeView { id, value: source[n - 1].value, deleted: false };
        let more = nodes.push(new);
        assert(rga_model::with_element(nodes, id, after, source[n - 1].value) =~= more);
        assert(source[n - 1].id.clock <= list.clock);
        assert(sofar.pending =~= Seq::empty());
        assert(rga_model::settle(more, sofar.pending) == (more, sofar.pending));
        rga_facts::lemma_interred(ListView { nodes: more, ..sofar });
    }
}

/// A new replica that merges another has the same elements, the same deletions and the
/// same clock, and holds back insertions of the same elements.
pub proof fn law_merge_into_empty<T>(list: ListView<T>)
    requires
        list.well_formed(),
    ensures
        ({
            let next = rga_model::merged(rga_model::empty_list(), list);
            &&& next.nodes == list.nodes
            &&& next.clock == list.clock
            &&& next.graves == list.graves
            &&& forall|x: IdView| #[trigger]
                rga_model::known(next, x) <==> rga_model::known(list, x)
        }),
{
    let empty = rga_model::empty_list::<T>();
    let start = rga_model::mourning(empty, list);
    let n = list.nodes.len() as int;
    let k = list.pending.len() as int;
    let all = rga_model::absorb(start, list.nodes, n);
    let next = rga_model::merged(empty, list);
    rga_facts::lemma_mourning(empty, list);
    rga_facts::lemma_absorb(start, list.nodes, n);
    rga_facts::lemma_merged(empty, list);
    lemma_absorb_into_empty(start, list.nodes, n);
    assert forall|x: IdView| !#[trigger] rga_model::known(empty, x) && !rga_model::dead(
        empty,
        x,
    ) by {}
    rga_facts::lemma_same_ids(list.nodes, all.nodes);
    lemma_hold_back(all, list.pending, k);
    assert forall|x: IdView| #[trigger] rga_model::dead(next, x) <==> rga_model::dead(
        list,
        x,
    ) by {
        assert(!rga_model::known(empty, x));
    }
    assert forall|i: int| 0 <= i < n implies next.nodes[i] == list.nodes[i] by {
        let x = list.nodes[i].id;
        assert(next.nodes[i].id == x);
        assert(rga_model::stands_at(list.nodes, i, x));
        assert(rga_model::stands_at(next.nodes, i, x));
        assert(rga_model::dead(next, x) <==> rga_model::dead(list, x));
        if rga_model::buried(next.nodes, x) {
            let j = choose|j: int| rga_model::stands_at(next.nodes, j, x) && next.nodes[j].deleted;
            rga_facts::lemma_position(next.nodes, i, x);
            rga_facts::lemma_position(next.nodes, j, x);
        }
        if rga_model::buried(list.nodes, x) {
            let j = choose|j: int| rga_model::stands_at(list.nodes, j, x) && list.nodes[j].deleted;
            rga_facts::lemma_position(list.nodes, i, x);
            rga_facts::lemma_position(list.nodes, j, x);
        }
    }
    assert(next.nodes =~= list.nodes);
    assert forall|x: IdView| #[trigger] next.graves.contains(x) <==> list.graves.contains(x) by {
        assert(rga_model::dead(next, x) <==> rga_model::dead(list, x));
        if rga_model::buried(list.nodes, x) {
            let j = choose|j: int| rga_model::stands_at(list.nodes, j, x) && list.nodes[j].deleted;
            assert(rga_model::stands_at(list.nodes, j, x));
        }
    }
    assert(next.graves =~= list.graves);
    assert forall|x: IdView| #[trigger] rga_model::known(next, x) <==> rga_model::known(
        list,
        x,
    ) by {
        assert(!rga_model::known(empty, x));
    }
}

/// Operations that have to wait are held back, and leave the list as it is.
proof fn lemma_hold_back<T>(list: ListView<T>, ops: Seq<OpView<T>>, n: int)
    requires
        rga_model::distinct(list.nodes),
        forall|i: int|
            0 <= i < ops.len() ==> rga_model::waits(list.nodes, #[trigger] ops[i]),
        0 <= n <= ops.len(),
    ensures
        rga_model::take_over(list, ops, n).nodes == list.nodes,
    decreases n,
{
    if n > 0 {
        lemma_hold_back(list, ops, n - 1);
        assert(rga_model::waits(list.nodes, ops[n - 1]));
        rga_facts::lemma_step(list.nodes, ops[n - 1], 0);
    }
}

/// Merging a replica at which nothing has arrived changes the clock at most.
pub proof fn law_merge_of_empty<T>(list: ListView<T>, clock: u64)
    requires
        list.well_formed(),
    ensures
        rga_model::merged(list, ListView { clock, ..rga_model::empty_list() }) == (ListView {
            clock: rga_model::later(list.clock, clock),
            ..list
        }),
{
    let other = ListView::<T> { clock, ..rga_model::empty_list() };
    let next = ListView { clock: rga_model::later(list.clock, clock), ..list };
    assert(other.nodes =~= Seq::empty());
    let graves = list.graves.union(rga_model::buried_ids(other.nodes)).union(other.graves);
    assert forall|x: IdView| !rga_model::buried(other.nodes, x) by {}
    assert(graves =~= list.graves);
    rga_facts::lemma_interred_already(next, graves);
}

} // verus!
