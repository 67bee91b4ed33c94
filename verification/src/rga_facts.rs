//! Basic facts about the list model: what each of its functions keeps.

use crate::lex;
use crate::rga_model;
use crate::rga_model::IdView;
use crate::rga_model::ListView;
use crate::rga_model::NodeView;
use crate::rga_model::OpView;
use crate::text;
use vstd::prelude::*;

verus! {

/// Of two different identifiers exactly one is older.
pub proof fn lemma_id_order(a: IdView, b: IdView)
    ensures
        !rga_model::id_lt(a, a),
        rga_model::id_lt(a, b) ==> !rga_model::id_lt(b, a),
        a == b || rga_model::id_lt(a, b) || rga_model::id_lt(b, a),
{
    text::lemma_text_order(a.node, a.node);
    text::lemma_text_order(a.node, b.node);
    if a.clock == b.clock && a.node == b.node {
        assert(a =~= b);
    }
}

/// The age of identifiers is transitive.
pub proof fn lemma_id_transitive(a: IdView, b: IdView, c: IdView)
    requires
        rga_model::id_lt(a, b),
        rga_model::id_lt(b, c),
    ensures
        rga_model::id_lt(a, c),
{
    text::lemma_char_order_total();
    if a.clock == b.clock && b.clock == c.clock {
        lex::lemma_lex_transitive(text::char_order(), a.node, b.node, c.node);
    }
}

/// In a list without repetition a position is determined by its identifier.
pub proof fn lemma_position<T>(nodes: Seq<NodeView<T>>, i: int, id: IdView)
    requires
        rga_model::distinct(nodes),
        rga_model::stands_at(nodes, i, id),
    ensures
        rga_model::contains_id(nodes, id),
        rga_model::position(nodes, id) == i,
{
    let j = rga_model::position(nodes, id);
    assert(rga_model::stands_at(nodes, j, id));
    if j < i {
        assert(nodes[j].id != nodes[i].id);
    } else if i < j {
        assert(nodes[i].id != nodes[j].id);
    }
}

/// A new element lands within the list, and everything that it skips is newer.
pub proof fn lemma_landing<T>(nodes: Seq<NodeView<T>>, start: int, id: IdView)
    requires
        0 <= start <= nodes.len(),
    ensures
        start <= rga_model::landing(nodes, start, id) <= nodes.len(),
        forall|i: int|
            start <= i < rga_model::landing(nodes, start, id) ==> rga_model::id_lt(
                id,
                (#[trigger] nodes[i]).id,
            ),
        rga_model::landing(nodes, start, id) < nodes.len() ==> !rga_model::id_lt(
            id,
            nodes[rga_model::landing(nodes, start, id)].id,
        ),
    decreases nodes.len() - start,
{
    if start < nodes.len() && rga_model::id_lt(id, nodes[start].id) {
        lemma_landing(nodes, start + 1, id);
    }
}

/// The place behind an element of the list lies within the list.
pub proof fn lemma_behind<T>(nodes: Seq<NodeView<T>>, after: Option<IdView>)
    requires
        after is None || rga_model::contains_id(nodes, after->0),
    ensures
        0 <= rga_model::behind(nodes, after) <= nodes.len(),
{
    if after is Some {
        assert(rga_model::stands_at(nodes, rga_model::position(nodes, after->0), after->0));
    }
}

/// What an insertion adds: one element, and nothing else changes.
pub proof fn lemma_with_element<T>(
    nodes: Seq<NodeView<T>>,
    id: IdView,
    after: Option<IdView>,
    value: T,
)
    requires
        rga_model::distinct(nodes),
        !rga_model::contains_id(nodes, id),
        after is None || rga_model::contains_id(nodes, after->0),
    ensures
        ({
            let next = rga_model::with_element(nodes, id, after, value);
            &&& next.len() == nodes.len() + 1
            &&& rga_model::distinct(next)
            &&& forall|x: IdView|
                #[trigger] rga_model::contains_id(next, x) <==> x == id || rga_model::contains_id(
                    nodes,
                    x,
                )
        }),
{
    let start = rga_model::behind(nodes, after);
    lemma_behind(nodes, after);
    lemma_landing(nodes, start, id);
    let p = rga_model::landing(nodes, start, id);
    let next = rga_model::with_element(nodes, id, after, value);
    let new = NodeView { id, value, deleted: false };
    assert(next == nodes.insert(p, new));
    assert forall|i: int, j: int| 0 <= i < j < next.len() implies (#[trigger] next[i]).id != (
    #[trigger] next[j]).id by {
        let ii = if i < p {
            i
        } else {
            i - 1
        };
        let jj = if j < p {
            j
        } else {
            j - 1
        };
        if i == p {
            assert(rga_model::stands_at(nodes, jj, next[j].id));
        } else if j == p {
            assert(rga_model::stands_at(nodes, ii, next[i].id));
        } else {
            assert(nodes[ii].id != nodes[jj].id);
        }
    }
    assert forall|x: IdView| #[trigger] rga_model::contains_id(next, x) <==> x == id
        || rga_model::contains_id(nodes, x) by {
        if rga_model::contains_id(next, x) {
            let i = choose|i: int| rga_model::stands_at(next, i, x);
            if i < p {
                assert(rga_model::stands_at(nodes, i, x));
            } else if i > p {
                assert(rga_model::stands_at(nodes, i - 1, x));
            }
        }
        if x == id {
            assert(rga_model::stands_at(next, p, x));
        }
        if rga_model::contains_id(nodes, x) {
            let i = choose|i: int| rga_model::stands_at(nodes, i, x);
            if i < p {
                assert(rga_model::stands_at(next, i, x));
            } else {
                assert(rga_model::stands_at(next, i + 1, x));
            }
        }
    }
}

/// Lists with the same identifiers hold the same elements.
pub proof fn lemma_same_ids<T>(nodes: Seq<NodeView<T>>, next: Seq<NodeView<T>>)
    requires
        next.len() == nodes.len(),
        forall|i: int| 0 <= i < nodes.len() ==> (#[trigger] next[i]).id == nodes[i].id,
    ensures
        rga_model::distinct(nodes) ==> rga_model::distinct(next),
        forall|x: IdView|
            #[trigger] rga_model::contains_id(next, x) <==> rga_model::contains_id(nodes, x),
{
    assert forall|x: IdView| #[trigger] rga_model::contains_id(next, x)
        <==> rga_model::contains_id(nodes, x) by {
        if rga_model::contains_id(next, x) {
            let i = choose|i: int| rga_model::stands_at(next, i, x);
            assert(rga_model::stands_at(nodes, i, x));
        }
        if rga_model::contains_id(nodes, x) {
            let i = choose|i: int| rga_model::stands_at(nodes, i, x);
            assert(rga_model::stands_at(next, i, x));
        }
    }
}

/// Burying elements moves nothing, and forgets no deletion.
pub proof fn lemma_interred<T>(list: ListView<T>)
    ensures
        ({
            let next = rga_model::interred(list);
            &&& next.nodes.len() == list.nodes.len()
            &&& forall|i: int|
                0 <= i < list.nodes.len() ==> (#[trigger] next.nodes[i]).id == list.nodes[i].id
                    && next.nodes[i].value == list.nodes[i].value
            &&& rga_model::distinct(list.nodes) ==> rga_model::distinct(next.nodes)
            &&& forall|x: IdView|
                #[trigger] rga_model::contains_id(next.nodes, x) <==> rga_model::contains_id(
                    list.nodes,
                    x,
                )
            &&& forall|x: IdView|
                #[trigger] rga_model::known(next, x) <==> rga_model::known(list, x)
            &&& forall|x: IdView| #[trigger] rga_model::dead(next, x) <==> rga_model::dead(list, x)
        }),
{
    let next = rga_model::interred(list);
    lemma_same_ids(list.nodes, next.nodes);
    assert forall|x: IdView| #[trigger] rga_model::dead(next, x) <==> rga_model::dead(list, x) by {
        if rga_model::buried(next.nodes, x) {
            let i = choose|i: int| rga_model::stands_at(next.nodes, i, x) && next.nodes[i].deleted;
            assert(rga_model::stands_at(list.nodes, i, x));
        }
        if rga_model::buried(list.nodes, x) {
            let i = choose|i: int| rga_model::stands_at(list.nodes, i, x) && list.nodes[i].deleted;
            assert(rga_model::stands_at(next.nodes, i, x));
        }
        if list.graves.contains(x) && rga_model::contains_id(list.nodes, x) {
            let i = choose|i: int| rga_model::stands_at(list.nodes, i, x);
            assert(rga_model::stands_at(next.nodes, i, x));
        }
    }
}

/// A state in which all the elements that were deleted and are there are tombstones
/// stays as it is when they are buried.
pub proof fn lemma_interred_already<T>(list: ListView<T>, graves: Set<IdView>)
    requires
        rga_model::distinct(list.nodes),
        forall|x: IdView| list.graves.contains(x) ==> graves.contains(x),
        forall|x: IdView| #[trigger]
            list.graves.contains(x) ==> !rga_model::contains_id(list.nodes, x),
        forall|x: IdView| #[trigger] graves.contains(x) ==> rga_model::dead(list, x),
    ensures
        rga_model::interred(ListView { graves, ..list }) == list,
{
    let next = rga_model::interred(ListView { graves, ..list });
    assert forall|i: int| 0 <= i < list.nodes.len() implies next.nodes[i] == list.nodes[i] by {
        let x = list.nodes[i].id;
        assert(rga_model::stands_at(list.nodes, i, x));
        if graves.contains(x) {
            assert(rga_model::dead(list, x));
            let j = choose|j: int| rga_model::stands_at(list.nodes, j, x) && list.nodes[j].deleted;
            lemma_position(list.nodes, i, x);
            lemma_position(list.nodes, j, x);
        }
    }
    assert(next.nodes =~= list.nodes);
    assert forall|x: IdView| #[trigger] next.graves.contains(x) <==> list.graves.contains(x) by {
        if graves.contains(x) && !rga_model::contains_id(list.nodes, x) {
            assert(rga_model::dead(list, x));
        }
    }
    assert(next.graves =~= list.graves);
}

/// Burying in two turns is burying at once.
pub proof fn lemma_inter_more<T>(list: ListView<T>, ids: Set<IdView>)
    ensures
        ({
            let first = rga_model::interred(list);
            rga_model::interred(ListView { graves: first.graves.union(ids), ..first })
                == rga_model::interred(ListView { graves: list.graves.union(ids), ..list })
        }),
{
    let first = rga_model::interred(list);
    let a = rga_model::interred(ListView { graves: first.graves.union(ids), ..first });
    let b = rga_model::interred(ListView { graves: list.graves.union(ids), ..list });
    lemma_interred(list);
    assert forall|i: int| 0 <= i < list.nodes.len() implies a.nodes[i] == b.nodes[i] by {
        assert(rga_model::stands_at(list.nodes, i, list.nodes[i].id));
        assert(first.nodes[i].id == list.nodes[i].id);
    }
    assert(a.nodes =~= b.nodes);
    assert forall|x: IdView| #[trigger] a.graves.contains(x) <==> b.graves.contains(x) by {
        assert(rga_model::contains_id(first.nodes, x) <==> rga_model::contains_id(list.nodes, x));
    }
    assert(a.graves =~= b.graves);
}

/// One more element contributes itself to the visible elements, unless it is a
/// tombstone.
pub proof fn lemma_live_take<T>(nodes: Seq<NodeView<T>>, i: int)
    requires
        0 <= i < nodes.len(),
    ensures
        rga_model::live(nodes.take(0)).len() == 0,
        rga_model::live(nodes.take(i)).len() <= i,
        rga_model::live(nodes.take(i + 1)) == if nodes[i].deleted {
            rga_model::live(nodes.take(i))
        } else {
            rga_model::live(nodes.take(i)).push(nodes[i])
        },
{
    reveal(Seq::filter);
    assert(nodes.take(i + 1).drop_last() =~= nodes.take(i));
    nodes.take(i).lemma_filter_len(|n: NodeView<T>| !n.deleted);
}

/// One more element is kept by pruning, unless it is an old tombstone.
pub proof fn lemma_pruned_take<T>(nodes: Seq<NodeView<T>>, i: int, before: u64)
    requires
        0 <= i < nodes.len(),
    ensures
        rga_model::pruned(nodes.take(i + 1), before) == if nodes[i].deleted && nodes[i].id.clock
            <= before {
            rga_model::pruned(nodes.take(i), before)
        } else {
            rga_model::pruned(nodes.take(i), before).push(nodes[i])
        },
{
    reveal(Seq::filter);
    assert(nodes.take(i + 1).drop_last() =~= nodes.take(i));
}

/// Pruning keeps a state well formed and every visible element in its place.
pub proof fn lemma_pruned<T>(list: ListView<T>, before: u64)
    requires
        list.well_formed(),
    ensures
        ({
            let next = ListView { nodes: rga_model::pruned(list.nodes, before), ..list };
            &&& next.well_formed()
            &&& rga_model::visible(next.nodes) == rga_model::visible(list.nodes)
        }),
{
    let next = ListView { nodes: rga_model::pruned(list.nodes, before), ..list };
    lemma_pruned_keeps(list.nodes, before);
    assert forall|i: int| 0 <= i < next.pending.len() implies rga_model::waits(
        next.nodes,
        #[trigger] next.pending[i],
    ) by {
        assert(rga_model::waits(list.nodes, list.pending[i]));
    }
    assert forall|i: int| 0 <= i < next.nodes.len() implies (#[trigger] next.nodes[i]).id.clock
        <= next.clock by {
        assert(rga_model::stands_at(next.nodes, i, next.nodes[i].id));
        assert(rga_model::contains_id(list.nodes, next.nodes[i].id));
        let j = choose|j: int| rga_model::stands_at(list.nodes, j, next.nodes[i].id);
        assert(list.nodes[j].id.clock <= list.clock);
    }
}

proof fn lemma_pruned_keeps<T>(nodes: Seq<NodeView<T>>, before: u64)
    ensures
        rga_model::distinct(nodes) ==> rga_model::distinct(rga_model::pruned(nodes, before)),
        rga_model::live(rga_model::pruned(nodes, before)) == rga_model::live(nodes),
        forall|x: IdView|
            rga_model::contains_id(rga_model::pruned(nodes, before), x)
                ==> #[trigger] rga_model::contains_id(nodes, x),
    decreases nodes.len(),
{
    reveal(Seq::filter);
    let next = rga_model::pruned(nodes, before);
    if nodes.len() > 0 {
        let front = nodes.drop_last();
        let kept = rga_model::pruned(front, before);
        lemma_pruned_keeps(front, before);
        let last = nodes.last();
        assert(forall|x: IdView, i: int|
            #[trigger] rga_model::stands_at(front, i, x) ==> rga_model::stands_at(nodes, i, x));
        assert(rga_model::stands_at(nodes, nodes.len() - 1, last.id));
        if !(last.deleted && last.id.clock <= before) {
            assert(next == kept.push(last));
            assert(next.drop_last() =~= kept);
            assert forall|x: IdView| rga_model::contains_id(next, x) implies #[trigger] rga_model::contains_id(nodes, x) by {
                let i = choose|i: int| rga_model::stands_at(next, i, x);
                if i < kept.len() {
                    assert(rga_model::stands_at(kept, i, x));
                    assert(rga_model::contains_id(front, x));
                }
            }
            if rga_model::distinct(nodes) {
                assert(rga_model::distinct(front)) by {
                    assert forall|i: int, j: int| 0 <= i < j < front.len() implies (
                    #[trigger] front[i]).id != (#[trigger] front[j]).id by {
                        assert(nodes[i].id != nodes[j].id);
                    }
                }
                assert forall|i: int, j: int| 0 <= i < j < next.len() implies (
                #[trigger] next[i]).id != (#[trigger] next[j]).id by {
                    assert(next[i] == kept[i]);
                    if j == kept.len() {
                        assert(rga_model::stands_at(kept, i, kept[i].id));
                        assert(rga_model::contains_id(front, kept[i].id));
                        let m = choose|m: int| rga_model::stands_at(front, m, kept[i].id);
                        assert(nodes[m].id != nodes[nodes.len() - 1].id);
                    } else {
                        assert(kept[i].id != kept[j].id);
                    }
                }
            }
        } else {
            assert(next == kept);
            assert forall|x: IdView| rga_model::contains_id(next, x) implies #[trigger] rga_model::contains_id(nodes, x) by {
                assert(rga_model::contains_id(front, x));
            }
            if rga_model::distinct(nodes) {
                assert(rga_model::distinct(front)) by {
                    assert forall|i: int, j: int| 0 <= i < j < front.len() implies (
                    #[trigger] front[i]).id != (#[trigger] front[j]).id by {
                        assert(nodes[i].id != nodes[j].id);
                    }
                }
            }
        }
    }
}

/// Taking over the first `n` elements looks at no others.
pub proof fn lemma_absorb_prefix<T>(
    list: ListView<T>,
    a: Seq<NodeView<T>>,
    b: Seq<NodeView<T>>,
    n: int,
)
    requires
        0 <= n <= a.len(),
        n <= b.len(),
        a.take(n) == b.take(n),
    ensures
        rga_model::absorb(list, a, n) == rga_model::absorb(list, b, n),
    decreases n,
{
    if n > 0 {
        assert(a.take(n - 1) =~= a.take(n).take(n - 1));
        assert(b.take(n - 1) =~= b.take(n).take(n - 1));
        lemma_absorb_prefix(list, a, b, n - 1);
        assert(a[n - 1] == a.take(n)[n - 1]);
        assert(b[n - 1] == b.take(n)[n - 1]);
        if n > 1 {
            assert(a[n - 2] == a.take(n)[n - 2]);
            assert(b[n - 2] == b.take(n)[n - 2]);
        }
    }
}

/// Taking over the first `n` operations looks at no others.
pub proof fn lemma_take_over_prefix<T>(
    list: ListView<T>,
    a: Seq<OpView<T>>,
    b: Seq<OpView<T>>,
    n: int,
)
    requires
        0 <= n <= a.len(),
        n <= b.len(),
        a.take(n) == b.take(n),
    ensures
        rga_model::take_over(list, a, n) == rga_model::take_over(list, b, n),
    decreases n,
{
    if n > 0 {
        assert(a.take(n - 1) =~= a.take(n).take(n - 1));
        assert(b.take(n - 1) =~= b.take(n).take(n - 1));
        lemma_take_over_prefix(list, a, b, n - 1);
        assert(a[n - 1] == a.take(n)[n - 1]);
        assert(b[n - 1] == b.take(n)[n - 1]);
    }
}

/// One more tombstone of the other replica.
pub proof fn lemma_tombstones_take<T>(source: Seq<NodeView<T>>, j: int)
    requires
        0 <= j < source.len(),
    ensures
        forall|x: IdView|
            #[trigger] rga_model::buried(source.take(j + 1), x) <==> rga_model::buried(
                source.take(j),
                x,
            ) || (source[j].deleted && source[j].id == x),
{
    assert forall|x: IdView| #[trigger] rga_model::buried(source.take(j + 1), x)
        <==> rga_model::buried(source.take(j), x) || (source[j].deleted && source[j].id == x) by {
        if rga_model::buried(source.take(j + 1), x) {
            let more = source.take(j + 1);
            let i = choose|i: int| rga_model::stands_at(more, i, x) && more[i].deleted;
            if i < j {
                assert(rga_model::stands_at(source.take(j), i, x));
            }
        }
        if rga_model::buried(source.take(j), x) {
            let less = source.take(j);
            let i = choose|i: int| rga_model::stands_at(less, i, x) && less[i].deleted;
            assert(rga_model::stands_at(source.take(j + 1), i, x));
        }
        if source[j].deleted && source[j].id == x {
            assert(rga_model::stands_at(source.take(j + 1), j, x));
        }
    }
}

/// No element is ahead of `clock`.
pub open spec fn nodes_within<T>(nodes: Seq<NodeView<T>>, clock: u64) -> bool {
    forall|i: int| 0 <= i < nodes.len() ==> (#[trigger] nodes[i]).id.clock <= clock
}

/// No operation is about an element ahead of `clock`.
pub open spec fn ops_within<T>(ops: Seq<OpView<T>>, clock: u64) -> bool {
    forall|i: int| 0 <= i < ops.len() ==> (#[trigger] ops[i]).target().clock <= clock
}

/// A step keeps the list free of repetition and never loses an element.
pub proof fn lemma_step<T>(nodes: Seq<NodeView<T>>, op: OpView<T>, clock: u64)
    requires
        rga_model::distinct(nodes),
    ensures
        rga_model::step(nodes, op) is None <==> rga_model::waits(nodes, op),
        rga_model::step(nodes, op) matches Some(next) ==> {
            &&& rga_model::distinct(next)
            &&& nodes_within(nodes, clock) && op.target().clock <= clock ==> nodes_within(
                next,
                clock,
            )
            &&& forall|x: IdView|
                #[trigger] rga_model::contains_id(next, x) <==> rga_model::contains_id(nodes, x)
                    || (op is Insert && x == op.target())
        },
{
    match op {
        OpView::Insert { id, after, value } => {
            if !rga_model::waits(nodes, op) && !rga_model::contains_id(nodes, id) {
                lemma_with_element(nodes, id, after, value);
                lemma_behind(nodes, after);
                lemma_landing(nodes, rga_model::behind(nodes, after), id);
            }
        },
        OpView::Delete { .. } => {},
    }
}

/// A sweep keeps the list free of repetition, and either applies an operation
/// or leaves everything as it was.
pub proof fn lemma_sweep<T>(
    nodes: Seq<NodeView<T>>,
    kept: Seq<OpView<T>>,
    todo: Seq<OpView<T>>,
    clock: u64,
)
    requires
        rga_model::distinct(nodes),
        nodes_within(nodes, clock),
        ops_within(kept, clock),
        ops_within(todo, clock),
    ensures
        ({
            let (next, rest) = rga_model::sweep(nodes, kept, todo);
            &&& rga_model::distinct(next)
            &&& nodes_within(next, clock)
            &&& ops_within(rest, clock)
            &&& kept.len() <= rest.len() <= kept.len() + todo.len()
            &&& rest.len() == kept.len() + todo.len() ==> next == nodes && rest == kept + todo
                && forall|i: int|
                0 <= i < todo.len() ==> rga_model::waits(nodes, #[trigger] todo[i])
        }),
    decreases todo.len(),
{
    if todo.len() > 0 {
        let (next, rest) = rga_model::sweep(nodes, kept, todo);
        lemma_step(nodes, todo[0], clock);
        assert(ops_within(todo.drop_first(), clock));
        match rga_model::step(nodes, todo[0]) {
            Some(n) => {
                lemma_sweep(n, kept, todo.drop_first(), clock);
            },
            None => {
                lemma_sweep(nodes, kept.push(todo[0]), todo.drop_first(), clock);
                if rest.len() == kept.len() + todo.len() {
                    assert(kept.push(todo[0]) + todo.drop_first() =~= kept + todo);
                    assert forall|i: int| 0 <= i < todo.len() implies rga_model::waits(
                        nodes,
                        #[trigger] todo[i],
                    ) by {
                        if i > 0 {
                            assert(todo.drop_first()[i - 1] == todo[i]);
                        }
                    }
                }
            },
        }
    } else {
        assert(kept + todo =~= kept);
    }
}

/// Once the list has settled, everything that is still held back has to wait.
pub proof fn lemma_settle<T>(nodes: Seq<NodeView<T>>, pending: Seq<OpView<T>>, clock: u64)
    requires
        rga_model::distinct(nodes),
        nodes_within(nodes, clock),
        ops_within(pending, clock),
    ensures
        ({
            let (next, rest) = rga_model::settle(nodes, pending);
            &&& rga_model::distinct(next)
            &&& nodes_within(next, clock)
            &&& ops_within(rest, clock)
            &&& forall|i: int|
                0 <= i < rest.len() ==> rga_model::waits(next, #[trigger] rest[i])
        }),
    decreases pending.len(),
{
    let (next, kept) = rga_model::sweep(nodes, Seq::empty(), pending);
    lemma_sweep(nodes, Seq::empty(), pending, clock);
    if kept.len() < pending.len() {
        lemma_settle(next, kept, clock);
    } else {
        assert(Seq::<OpView<T>>::empty() + pending =~= pending);
    }
}

/// An insertion buries nothing and brings nothing back.
proof fn lemma_step_buried<T>(nodes: Seq<NodeView<T>>, op: OpView<T>)
    requires
        rga_model::distinct(nodes),
    ensures
        rga_model::step(nodes, op) matches Some(next) ==> forall|x: IdView|
            #[trigger] rga_model::buried(next, x) <==> rga_model::buried(nodes, x),
{
    if let OpView::Insert { id, after, value } = op {
        if !rga_model::contains_id(nodes, id) && (after is None || rga_model::contains_id(
            nodes,
            after->0,
        )) {
            let next = rga_model::with_element(nodes, id, after, value);
            let start = rga_model::behind(nodes, after);
            lemma_behind(nodes, after);
            lemma_landing(nodes, start, id);
            let p = rga_model::landing(nodes, start, id);
            assert forall|x: IdView| #[trigger] rga_model::buried(next, x)
                <==> rga_model::buried(nodes, x) by {
                if rga_model::buried(next, x) {
                    let i = choose|i: int| rga_model::stands_at(next, i, x) && next[i].deleted;
                    if i < p {
                        assert(rga_model::stands_at(nodes, i, x));
                    } else {
                        assert(next[i] == nodes[i - 1]);
                        assert(rga_model::stands_at(nodes, i - 1, x));
                    }
                }
                if rga_model::buried(nodes, x) {
                    let i = choose|i: int| rga_model::stands_at(nodes, i, x) && nodes[i].deleted;
                    if i < p {
                        assert(rga_model::stands_at(next, i, x));
                    } else {
                        assert(next[i + 1] == nodes[i]);
                        assert(rga_model::stands_at(next, i + 1, x));
                    }
                }
            }
        }
    }
}

/// What trying held back insertions again does to a list: no element is lost, each
/// insertion tried is in the list or still held back, and nothing is buried.
pub open spec fn progress<T>(
    nodes: Seq<NodeView<T>>,
    tried: Seq<OpView<T>>,
    next: Seq<NodeView<T>>,
    rest: Seq<OpView<T>>,
) -> bool {
    &&& forall|x: IdView|
        rga_model::contains_id(nodes, x) ==> #[trigger] rga_model::contains_id(next, x)
    &&& forall|x: IdView|
        #[trigger] rga_model::contains_id(next, x) ==> rga_model::contains_id(nodes, x)
            || rga_model::held(tried, x)
    &&& forall|x: IdView| #[trigger] rga_model::buried(next, x) <==> rga_model::buried(nodes, x)
    &&& forall|i: int|
        0 <= i < tried.len() ==> rga_model::contains_id(next, (#[trigger] tried[i]).target())
            || rest.contains(tried[i])
    &&& forall|i: int| 0 <= i < rest.len() ==> tried.contains(#[trigger] rest[i])
}

proof fn lemma_sweep_progress<T>(
    nodes: Seq<NodeView<T>>,
    kept: Seq<OpView<T>>,
    todo: Seq<OpView<T>>,
)
    requires
        rga_model::distinct(nodes),
        forall|i: int| 0 <= i < todo.len() ==> (#[trigger] todo[i]) is Insert,
    ensures
        rga_model::distinct(rga_model::sweep(nodes, kept, todo).0),
        progress(
            nodes,
            kept + todo,
            rga_model::sweep(nodes, kept, todo).0,
            rga_model::sweep(nodes, kept, todo).1,
        ),
    decreases todo.len(),
{
    let (next, rest) = rga_model::sweep(nodes, kept, todo);
    let all = kept + todo;
    if todo.len() == 0 {
        assert(all =~= kept);
        assert forall|i: int| 0 <= i < all.len() implies rest.contains(#[trigger] all[i]) by {
            assert(rest[i] == all[i]);
        }
        assert forall|i: int| 0 <= i < rest.len() implies all.contains(#[trigger] rest[i]) by {
            assert(all[i] == rest[i]);
        }
    } else {
        let op = todo[0];
        assert(all[kept.len() as int] == op);
        let tail = todo.drop_first();
        assert(forall|i: int| 0 <= i < tail.len() ==> (#[trigger] tail[i]) == todo[i + 1]);
        lemma_step_buried(nodes, op);
        lemma_step(nodes, op, 0);
        match rga_model::step(nodes, op) {
            Some(mid) => {
                lemma_sweep_progress(mid, kept, tail);
                let less = kept + tail;
                assert forall|x: IdView| #[trigger] rga_model::contains_id(next, x) implies
                    rga_model::contains_id(nodes, x) || rga_model::held(all, x) by {
                    if !rga_model::contains_id(mid, x) {
                        let i = choose|i: int|
                            0 <= i < less.len() && (#[trigger] less[i]).target() == x;
                        let j = if i < kept.len() {
                            i
                        } else {
                            i + 1
                        };
                        assert(all[j] == less[i]);
                    } else if !rga_model::contains_id(nodes, x) {
                        assert(all[kept.len() as int].target() == x);
                    }
                }
                assert forall|i: int| 0 <= i < all.len() implies rga_model::contains_id(
                    next,
                    (#[trigger] all[i]).target(),
                ) || rest.contains(all[i]) by {
                    if i < kept.len() {
                        assert(less[i] == all[i]);
                    } else if i > kept.len() {
                        assert(less[i - 1] == all[i]);
                    } else {
                        assert(rga_model::contains_id(mid, op.target()));
                    }
                }
                assert forall|i: int| 0 <= i < rest.len() implies all.contains(
                    #[trigger] rest[i],
                ) by {
                    assert(less.contains(rest[i]));
                    let j = choose|j: int| 0 <= j < less.len() && less[j] == rest[i];
                    if j < kept.len() {
                        assert(all[j] == rest[i]);
                    } else {
                        assert(all[j + 1] == rest[i]);
                    }
                }
            },
            None => {
                let more = kept.push(op);
                lemma_sweep_progress(nodes, more, tail);
                assert(more + tail =~= all);
            },
        }
    }
}

/// Trying held back insertions until none can be applied.
pub proof fn lemma_settle_progress<T>(nodes: Seq<NodeView<T>>, pending: Seq<OpView<T>>)
    requires
        rga_model::distinct(nodes),
        forall|i: int| 0 <= i < pending.len() ==> (#[trigger] pending[i]) is Insert,
    ensures
        progress(
            nodes,
            pending,
            rga_model::settle(nodes, pending).0,
            rga_model::settle(nodes, pending).1,
        ),
    decreases pending.len(),
{
    let (mid, kept) = rga_model::sweep(nodes, Seq::empty(), pending);
    lemma_sweep_progress(nodes, Seq::empty(), pending);
    assert(Seq::<OpView<T>>::empty() + pending =~= pending);
    if kept.len() < pending.len() {
        assert forall|i: int| 0 <= i < kept.len() implies (#[trigger] kept[i]) is Insert by {
            assert(pending.contains(kept[i]));
        }
        lemma_settle_progress(mid, kept);
        let (next, rest) = rga_model::settle(nodes, pending);
        assert forall|x: IdView| #[trigger] rga_model::contains_id(next, x) implies
            rga_model::contains_id(nodes, x) || rga_model::held(pending, x) by {
            if !rga_model::contains_id(mid, x) {
                let i = choose|i: int| 0 <= i < kept.len() && (#[trigger] kept[i]).target() == x;
                assert(pending.contains(kept[i]));
                let j = choose|j: int| 0 <= j < pending.len() && pending[j] == kept[i];
                assert(pending[j].target() == x);
            }
        }
        assert forall|i: int| 0 <= i < pending.len() implies rga_model::contains_id(
            next,
            (#[trigger] pending[i]).target(),
        ) || rest.contains(pending[i]) by {
            if !rga_model::contains_id(mid, pending[i].target()) {
                assert(kept.contains(pending[i]));
                let j = choose|j: int| 0 <= j < kept.len() && kept[j] == pending[i];
                assert(rga_model::contains_id(next, kept[j].target()) || rest.contains(kept[j]));
            }
        }
        assert forall|i: int| 0 <= i < rest.len() implies pending.contains(
            #[trigger] rest[i],
        ) by {
            assert(kept.contains(rest[i]));
            let j = choose|j: int| 0 <= j < kept.len() && kept[j] == rest[i];
            assert(pending.contains(kept[j]));
        }
    }
}

/// What receiving an operation does to a state: it stays well formed, no element is
/// lost, and exactly the insertion or the deletion received is new to it.
pub proof fn lemma_receive<T>(list: ListView<T>, op: OpView<T>)
    requires
        list.well_formed(),
    ensures
        ({
            let next = rga_model::receive(list, op);
            &&& next.well_formed()
            &&& next.clock == rga_model::later(list.clock, op.target().clock)
            &&& forall|x: IdView|
                rga_model::contains_id(list.nodes, x) ==> #[trigger] rga_model::contains_id(
                    next.nodes,
                    x,
                )
            &&& forall|x: IdView| #[trigger]
                rga_model::known(next, x) <==> rga_model::known(list, x) || (op is Insert
                    && op.target() == x)
            &&& forall|x: IdView| #[trigger]
                rga_model::dead(next, x) <==> rga_model::dead(list, x) || op == (OpView::<
                    T,
                >::Delete { id: x })
            &&& forall|i: int|
                0 <= i < next.pending.len() ==> list.pending.contains(#[trigger] next.pending[i])
                    || next.pending[i] == op
        }),
{
    let next = rga_model::receive(list, op);
    let clock = rga_model::later(list.clock, op.target().clock);
    let (nodes, pending) = (list.nodes, list.pending);
    lemma_step(nodes, op, clock);
    assert forall|i: int| 0 <= i < pending.len() implies (#[trigger] pending[i]) is Insert by {
        assert(rga_model::waits(nodes, pending[i]));
    }
    assert forall|i: int| 0 <= i < nodes.len() implies (#[trigger] nodes[i]).id.clock <= clock by {
        assert(nodes[i].id.clock <= list.clock);
    }
    assert forall|i: int| 0 <= i < pending.len() implies (#[trigger] pending[i]).target().clock
        <= clock by {
        assert(pending[i].target().clock <= list.clock);
    }
    match op {
        OpView::Delete { id } => {
            let mid = ListView { clock, graves: list.graves.insert(id), ..list };
            lemma_interred(mid);
            assert forall|x: IdView| #[trigger] rga_model::dead(next, x) <==> rga_model::dead(
                list,
                x,
            ) || x == id by {
                assert(rga_model::dead(next, x) <==> rga_model::dead(mid, x));
            }
            assert forall|x: IdView| #[trigger] rga_model::known(next, x) <==> rga_model::known(
                list,
                x,
            ) by {
                assert(rga_model::known(next, x) <==> rga_model::known(mid, x));
            }
            assert forall|i: int| 0 <= i < next.pending.len() implies rga_model::waits(
                next.nodes,
                #[trigger] next.pending[i],
            ) by {
                assert(rga_model::waits(nodes, pending[i]));
            }
        },
        OpView::Insert { .. } => {
            match rga_model::step(nodes, op) {
                None => {
                    let n = pending.len() as int;
                    assert(next.pending[n] == op);
                    assert forall|i: int| 0 <= i < next.pending.len() implies rga_model::waits(
                        next.nodes,
                        #[trigger] next.pending[i],
                    ) && next.pending[i].target().clock <= clock && (pending.contains(
                        next.pending[i],
                    ) || next.pending[i] == op) by {
                        if i < n {
                            assert(next.pending[i] == pending[i]);
                        }
                    }
                    assert forall|x: IdView| #[trigger] rga_model::known(next, x)
                        <==> rga_model::known(list, x) || op.target() == x by {
                        if rga_model::held(next.pending, x) {
                            let i = choose|i: int|
                                0 <= i < next.pending.len() && (
                                #[trigger] next.pending[i]).target() == x;
                            if i < n {
                                assert(pending[i].target() == x);
                            }
                        }
                        if rga_model::held(pending, x) {
                            let i = choose|i: int|
                                0 <= i < pending.len() && (#[trigger] pending[i]).target() == x;
                            assert(next.pending[i].target() == x);
                        }
                    }
                },
                Some(first) => {
                    let (settled, rest) = rga_model::settle(first, pending);
                    let mid = ListView { clock, nodes: settled, pending: rest, ..list };
                    lemma_settle(first, pending, clock);
                    lemma_settle_progress(first, pending);
                    lemma_step_buried(nodes, op);
                    lemma_interred(mid);
                    assert(rga_model::contains_id(first, op.target()));
                    assert forall|x: IdView| #[trigger] rga_model::dead(next, x)
                        <==> rga_model::dead(list, x) by {
                        assert(rga_model::dead(next, x) <==> rga_model::dead(mid, x));
                        assert(rga_model::buried(settled, x) <==> rga_model::buried(first, x));
                        assert(rga_model::buried(first, x) <==> rga_model::buried(nodes, x));
                    }
                    assert forall|x: IdView| #[trigger] rga_model::known(next, x)
                        <==> rga_model::known(list, x) || op.target() == x by {
                        assert(rga_model::known(next, x) <==> rga_model::known(mid, x));
                        if rga_model::contains_id(settled, x) {
                            assert(rga_model::contains_id(first, x) || rga_model::held(pending, x));
                        }
                        if rga_model::held(rest, x) {
                            let i = choose|i: int|
                                0 <= i < rest.len() && (#[trigger] rest[i]).target() == x;
                            assert(pending.contains(rest[i]));
                            let j = choose|j: int| 0 <= j < pending.len() && pending[j] == rest[i];
                            assert(pending[j].target() == x);
                        }
                        if rga_model::held(pending, x) {
                            let i = choose|i: int|
                                0 <= i < pending.len() && (#[trigger] pending[i]).target() == x;
                            if !rga_model::contains_id(settled, x) {
                                assert(rest.contains(pending[i]));
                                let j = choose|j: int| 0 <= j < rest.len() && rest[j] == pending[i];
                                assert(rest[j].target() == x);
                            }
                        }
                        if rga_model::contains_id(nodes, x) {
                            assert(rga_model::contains_id(first, x));
                            assert(rga_model::contains_id(settled, x));
                        }
                        assert(rga_model::contains_id(settled, op.target()));
                    }
                    assert forall|i: int| 0 <= i < next.pending.len() implies rga_model::waits(
                        next.nodes,
                        #[trigger] next.pending[i],
                    ) by {
                        assert(rga_model::waits(settled, rest[i]));
                    }
                    assert forall|x: IdView| rga_model::contains_id(
                        nodes,
                        x,
                    ) implies #[trigger] rga_model::contains_id(next.nodes, x) by {
                        assert(rga_model::contains_id(first, x));
                        assert(rga_model::contains_id(settled, x));
                    }
                },
            }
        },
    }
}

/// What taking over elements of another replica does to a state.
pub proof fn lemma_absorb<T>(list: ListView<T>, source: Seq<NodeView<T>>, n: int)
    requires
        list.well_formed(),
        nodes_within(source, list.clock),
        0 <= n <= source.len(),
    ensures
        ({
            let next = rga_model::absorb(list, source, n);
            &&& next.well_formed()
            &&& next.clock == list.clock
            &&& forall|x: IdView|
                rga_model::contains_id(list.nodes, x) ==> #[trigger] rga_model::contains_id(
                    next.nodes,
                    x,
                )
            &&& forall|j: int|
                0 <= j < n ==> rga_model::contains_id(next.nodes, (#[trigger] source[j]).id)
            &&& forall|x: IdView| #[trigger]
                rga_model::known(next, x) <==> rga_model::known(list, x) || rga_model::contains_id(
                    source.take(n),
                    x,
                )
            &&& forall|x: IdView| #[trigger] rga_model::dead(next, x) <==> rga_model::dead(list, x)
        }),
    decreases n,
{
    if n > 0 {
        let sofar = rga_model::absorb(list, source, n - 1);
        let next = rga_model::absorb(list, source, n);
        let id = source[n - 1].id;
        lemma_absorb(list, source, n - 1);
        assert(id.clock <= list.clock);
        if !rga_model::contains_id(sofar.nodes, id) {
            let op = rga_model::transfer_op(source, n - 1);
            lemma_receive(sofar, op);
            if n > 1 {
                assert(rga_model::contains_id(sofar.nodes, source[n - 2].id));
            }
            lemma_placed(sofar, op);
        }
        assert forall|x: IdView| #[trigger] rga_model::known(next, x) <==> rga_model::known(list, x)
            || rga_model::contains_id(source.take(n), x) by {
            assert(rga_model::known(sofar, x) <==> rga_model::known(list, x)
                || rga_model::contains_id(source.take(n - 1), x));
            lemma_contains_take(source, n - 1, x);
        }
    } else {
        assert forall|x: IdView| !rga_model::contains_id(source.take(n), x) by {}
    }
}

/// One more element.
proof fn lemma_contains_take<T>(source: Seq<NodeView<T>>, j: int, x: IdView)
    requires
        0 <= j < source.len(),
    ensures
        rga_model::contains_id(source.take(j + 1), x) <==> rga_model::contains_id(
            source.take(j),
            x,
        ) || source[j].id == x,
{
    let (less, more) = (source.take(j), source.take(j + 1));
    if rga_model::contains_id(more, x) {
        let i = choose|i: int| rga_model::stands_at(more, i, x);
        if i < j {
            assert(rga_model::stands_at(less, i, x));
        }
    }
    if rga_model::contains_id(less, x) {
        let i = choose|i: int| rga_model::stands_at(less, i, x);
        assert(rga_model::stands_at(more, i, x));
    }
    if source[j].id == x {
        assert(rga_model::stands_at(more, j, x));
    }
}

/// An insertion that need not wait is in the list after it was received.
pub proof fn lemma_placed<T>(list: ListView<T>, op: OpView<T>)
    requires
        list.well_formed(),
        op is Insert,
        !rga_model::waits(list.nodes, op),
    ensures
        rga_model::contains_id(rga_model::receive(list, op).nodes, op.target()),
{
    let clock = rga_model::later(list.clock, op.target().clock);
    lemma_step(list.nodes, op, 0);
    let first = rga_model::step(list.nodes, op)->0;
    assert forall|i: int| 0 <= i < list.pending.len() implies (
    #[trigger] list.pending[i]) is Insert by {
        assert(rga_model::waits(list.nodes, list.pending[i]));
    }
    lemma_settle_progress(first, list.pending);
    assert(rga_model::contains_id(first, op.target()));
    let (nodes, pending) = rga_model::settle(first, list.pending);
    lemma_interred(ListView { clock, nodes, pending, ..list });
}

/// What taking over insertions that another replica holds back does to a state.
pub proof fn lemma_take_over<T>(list: ListView<T>, ops: Seq<OpView<T>>, n: int)
    requires
        list.well_formed(),
        ops_within(ops, list.clock),
        forall|i: int| 0 <= i < ops.len() ==> (#[trigger] ops[i]) is Insert,
        0 <= n <= ops.len(),
    ensures
        ({
            let next = rga_model::take_over(list, ops, n);
            &&& next.well_formed()
            &&& next.clock == list.clock
            &&& forall|x: IdView|
                rga_model::contains_id(list.nodes, x) ==> #[trigger] rga_model::contains_id(
                    next.nodes,
                    x,
                )
            &&& forall|x: IdView| #[trigger]
                rga_model::known(next, x) <==> rga_model::known(list, x) || rga_model::held(
                    ops.take(n),
                    x,
                )
            &&& forall|x: IdView| #[trigger] rga_model::dead(next, x) <==> rga_model::dead(list, x)
        }),
    decreases n,
{
    if n > 0 {
        let sofar = rga_model::take_over(list, ops, n - 1);
        let next = rga_model::take_over(list, ops, n);
        let op = ops[n - 1];
        lemma_take_over(list, ops, n - 1);
        assert(op.target().clock <= list.clock);
        assert(op is Insert);
        if !rga_model::known(sofar, op.target()) {
            lemma_receive(sofar, op);
        }
        assert forall|x: IdView| #[trigger] rga_model::known(next, x) <==> rga_model::known(list, x)
            || rga_model::held(ops.take(n), x) by {
            assert(rga_model::known(sofar, x) <==> rga_model::known(list, x) || rga_model::held(
                ops.take(n - 1),
                x,
            ));
            lemma_held_take(ops, n - 1, x);
        }
    } else {
        assert forall|x: IdView| !rga_model::held(ops.take(n), x) by {}
    }
}

proof fn lemma_held_take<T>(ops: Seq<OpView<T>>, j: int, x: IdView)
    requires
        0 <= j < ops.len(),
    ensures
        rga_model::held(ops.take(j + 1), x) <==> rga_model::held(ops.take(j), x)
            || ops[j].target() == x,
{
    let (less, more) = (ops.take(j), ops.take(j + 1));
    if rga_model::held(more, x) {
        let i = choose|i: int| 0 <= i < more.len() && (#[trigger] more[i]).target() == x;
        if i < j {
            assert(less[i].target() == x);
        }
    }
    if rga_model::held(less, x) {
        let i = choose|i: int| 0 <= i < less.len() && (#[trigger] less[i]).target() == x;
        assert(more[i].target() == x);
    }
    if ops[j].target() == x {
        assert(more[j].target() == x);
    }
}

/// What taking note of the deletions of another replica does to a state.
pub proof fn lemma_mourning<T>(list: ListView<T>, other: ListView<T>)
    requires
        list.well_formed(),
        other.well_formed(),
    ensures
        ({
            let next = rga_model::mourning(list, other);
            &&& next.well_formed()
            &&& next.clock == rga_model::later(list.clock, other.clock)
            &&& next.pending == list.pending
            &&& forall|x: IdView|
                #[trigger] rga_model::contains_id(next.nodes, x) <==> rga_model::contains_id(
                    list.nodes,
                    x,
                )
            &&& forall|x: IdView|
                #[trigger] rga_model::known(next, x) <==> rga_model::known(list, x)
            &&& forall|x: IdView| #[trigger]
                rga_model::dead(next, x) <==> rga_model::dead(list, x) || rga_model::dead(other, x)
        }),
{
    let next = rga_model::mourning(list, other);
    let mid = ListView {
        clock: rga_model::later(list.clock, other.clock),
        graves: list.graves.union(rga_model::buried_ids(other.nodes)).union(other.graves),
        ..list
    };
    lemma_interred(mid);
    assert forall|x: IdView| #[trigger] rga_model::known(next, x) <==> rga_model::known(
        list,
        x,
    ) by {
        assert(rga_model::known(next, x) <==> rga_model::known(mid, x));
    }
    assert forall|x: IdView| #[trigger] rga_model::dead(next, x) <==> rga_model::dead(list, x)
        || rga_model::dead(other, x) by {
        assert(rga_model::dead(next, x) <==> rga_model::dead(mid, x));
    }
    assert forall|i: int| 0 <= i < next.nodes.len() implies (#[trigger] next.nodes[i]).id.clock
        <= next.clock by {
        assert(list.nodes[i].id.clock <= list.clock);
    }
    assert forall|i: int| 0 <= i < next.pending.len() implies rga_model::waits(
        next.nodes,
        #[trigger] next.pending[i],
    ) && next.pending[i].target().clock <= next.clock by {
        assert(rga_model::waits(list.nodes, list.pending[i]));
        assert(list.pending[i].target().clock <= list.clock);
    }
    assert forall|x: IdView| #[trigger] next.graves.contains(x) implies !rga_model::contains_id(
        next.nodes,
        x,
    ) && x.clock <= next.clock by {
        if rga_model::buried(other.nodes, x) {
            let i = choose|i: int|
                rga_model::stands_at(other.nodes, i, x) && other.nodes[i].deleted;
            assert(other.nodes[i].id.clock <= other.clock);
        }
    }
}

/// What a merge does to a state: it stays well formed, and exactly the insertions and
/// the deletions that arrived at the other replica are new to it.
pub proof fn lemma_merged<T>(list: ListView<T>, other: ListView<T>)
    requires
        list.well_formed(),
        other.well_formed(),
    ensures
        ({
            let next = rga_model::merged(list, other);
            &&& next.well_formed()
            &&& next.clock == rga_model::later(list.clock, other.clock)
            &&& forall|x: IdView|
                rga_model::contains_id(list.nodes, x) || rga_model::contains_id(other.nodes, x)
                    ==> #[trigger] rga_model::contains_id(next.nodes, x)
            &&& forall|x: IdView| #[trigger]
                rga_model::known(next, x) <==> rga_model::known(list, x) || rga_model::known(
                    other,
                    x,
                )
            &&& forall|x: IdView| #[trigger]
                rga_model::dead(next, x) <==> rga_model::dead(list, x) || rga_model::dead(other, x)
        }),
{
    let next = rga_model::merged(list, other);
    let start = rga_model::mourning(list, other);
    let n = other.nodes.len() as int;
    let k = other.pending.len() as int;
    let all = rga_model::absorb(start, other.nodes, n);
    lemma_mourning(list, other);
    assert forall|i: int| 0 <= i < n implies (#[trigger] other.nodes[i]).id.clock
        <= start.clock by {
        assert(other.nodes[i].id.clock <= other.clock);
    }
    assert forall|i: int| 0 <= i < k implies (#[trigger] other.pending[i]).target().clock
        <= start.clock && other.pending[i] is Insert by {
        assert(other.pending[i].target().clock <= other.clock);
        assert(rga_model::waits(other.nodes, other.pending[i]));
    }
    lemma_absorb(start, other.nodes, n);
    lemma_take_over(all, other.pending, k);
    assert(other.nodes.take(n) =~= other.nodes);
    assert(other.pending.take(k) =~= other.pending);
    assert forall|x: IdView|
        rga_model::contains_id(list.nodes, x) || rga_model::contains_id(
            other.nodes,
            x,
        ) implies #[trigger] rga_model::contains_id(next.nodes, x) by {
        if rga_model::contains_id(list.nodes, x) {
            assert(rga_model::contains_id(start.nodes, x));
        } else {
            let j = choose|j: int| rga_model::stands_at(other.nodes, j, x);
            assert(rga_model::contains_id(all.nodes, other.nodes[j].id));
        }
        assert(rga_model::contains_id(all.nodes, x));
    }
    assert forall|x: IdView| #[trigger] rga_model::known(next, x) <==> rga_model::known(list, x)
        || rga_model::known(other, x) by {
        assert(rga_model::known(all, x) <==> rga_model::known(start, x)
            || rga_model::contains_id(other.nodes, x));
        assert(rga_model::known(start, x) <==> rga_model::known(list, x));
    }
    assert forall|x: IdView| #[trigger] rga_model::dead(next, x) <==> rga_model::dead(list, x)
        || rga_model::dead(other, x) by {
        assert(rga_model::dead(all, x) <==> rga_model::dead(start, x));
    }
}

} // verus!
