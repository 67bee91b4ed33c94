//! The order of list elements.
//!
//! Insertions form a forest: each element hangs below the element that it was
//! put behind.  The list is that forest read from the front: an element comes
//! before everything below it, and of two elements below the same one the newer
//! comes first, with all that is below it.  This module defines that order from
//! the record of the insertions alone, and proves that putting an element behind
//! its neighbour, past the newer elements, keeps a list in it.

use crate::lex;
use crate::rga_facts;
use crate::rga_model;
use crate::rga_model::IdView;
use crate::rga_model::NodeView;
use vstd::prelude::*;

verus! {

/// How an element came into the list.
#[verifier::ext_equal]
pub struct Birth<T> {
    pub after: Option<IdView>,
    pub value: T,
}

/// There are finitely many insertions, and each names an older element as its
/// predecessor.
pub open spec fn sound<T>(log: Map<IdView, Birth<T>>) -> bool {
    &&& log.dom().finite()
    &&& forall|x: IdView|
        #[trigger] log.contains_key(x) && log[x].after is Some ==> rga_model::id_lt(
            log[x].after->0,
            x,
        )
}

/// The recorded elements older than `x`.
pub open spec fn older<T>(log: Map<IdView, Birth<T>>, x: IdView) -> Set<IdView> {
    log.dom().filter(|y: IdView| rga_model::id_lt(y, x))
}

/// The way to `x`: the elements that it hangs below, from the outermost, and
/// `x` itself.
pub open spec fn lineage<T>(log: Map<IdView, Birth<T>>, x: IdView) -> Seq<IdView>
    decreases older(log, x).len(),
    when log.dom().finite()
    via lineage_decreases::<T>
{
    if log.contains_key(x) && log[x].after is Some && log.contains_key(log[x].after->0)
        && rga_model::id_lt(log[x].after->0, x) {
        lineage(log, log[x].after->0).push(x)
    } else {
        seq![x]
    }
}

#[via_fn]
proof fn lineage_decreases<T>(log: Map<IdView, Birth<T>>, x: IdView) {
    if log.contains_key(x) && log[x].after is Some && log.contains_key(log[x].after->0)
        && rga_model::id_lt(log[x].after->0, x) {
        lemma_older_shrinks(log, log[x].after->0, x);
    }
}

/// Fewer elements are older than an older element.
pub proof fn lemma_older_shrinks<T>(log: Map<IdView, Birth<T>>, p: IdView, x: IdView)
    requires
        log.dom().finite(),
        log.contains_key(p),
        rga_model::id_lt(p, x),
    ensures
        older(log, p).len() < older(log, x).len(),
{
    assert forall|y: IdView| older(log, p).contains(y) implies older(log, x).contains(y) by {
        rga_facts::lemma_id_transitive(y, p, x);
    }
    rga_facts::lemma_id_order(p, p);
    assert(!older(log, p).contains(p));
    assert(older(log, x).contains(p));
    log.dom().lemma_len_filter(|y: IdView| rga_model::id_lt(y, x));
    older(log, p).lemma_subset_not_in_lt(older(log, x), p);
}

/// Newer elements first.
pub open spec fn newer_first() -> spec_fn(IdView, IdView) -> bool {
    |a: IdView, b: IdView| rga_model::id_lt(b, a)
}

/// `x` comes before `y` in the list.
pub open spec fn precedes<T>(log: Map<IdView, Birth<T>>, x: IdView, y: IdView) -> bool {
    lex::lex_lt(newer_first(), lineage(log, x), lineage(log, y))
}

proof fn lemma_newer_first_total()
    ensures
        lex::strict_total(newer_first()),
{
    let lt = newer_first();
    assert forall|x: IdView| !#[trigger] lt(x, x) by {
        rga_facts::lemma_id_order(x, x);
    }
    assert forall|x: IdView, y: IdView, z: IdView|
        #[trigger] lt(x, y) && #[trigger] lt(y, z) implies lt(x, z) by {
        rga_facts::lemma_id_transitive(z, y, x);
    }
    assert forall|x: IdView, y: IdView| x == y || #[trigger] lt(x, y) || lt(y, x) by {
        rga_facts::lemma_id_order(x, y);
    }
}

/// The list holds recorded elements, each with the element that it hangs below.
pub open spec fn rooted<T>(log: Map<IdView, Birth<T>>, nodes: Seq<NodeView<T>>) -> bool {
    forall|i: int| 0 <= i < nodes.len() ==> born(log, nodes, #[trigger] nodes[i])
}

/// `node` is as recorded, and what it hangs below is in the list.
pub open spec fn born<T>(
    log: Map<IdView, Birth<T>>,
    nodes: Seq<NodeView<T>>,
    node: NodeView<T>,
) -> bool {
    &&& log.contains_key(node.id)
    &&& log[node.id].value == node.value
    &&& log[node.id].after is None || rga_model::contains_id(nodes, log[node.id].after->0)
}

/// Every element comes before those behind it.
pub open spec fn in_order<T>(log: Map<IdView, Birth<T>>, nodes: Seq<NodeView<T>>) -> bool {
    forall|i: int, j: int|
        0 <= i < j < nodes.len() ==> precedes(log, (#[trigger] nodes[i]).id, (
        #[trigger] nodes[j]).id)
}

/// What holds of the way to an element of a rooted list: it ends there, it leads
/// through ever newer elements of the list, and its parts are ways themselves.
pub proof fn lemma_lineage<T>(log: Map<IdView, Birth<T>>, nodes: Seq<NodeView<T>>, x: IdView)
    requires
        sound(log),
        rooted(log, nodes),
        rga_model::contains_id(nodes, x),
    ensures
        lineage(log, x).len() > 0,
        lineage(log, x).last() == x,
        forall|i: int|
            0 <= i < lineage(log, x).len() ==> rga_model::contains_id(
                nodes,
                #[trigger] lineage(log, x)[i],
            ),
        forall|i: int|
            0 <= i < lineage(log, x).len() - 1 ==> rga_model::id_lt(
                #[trigger] lineage(log, x)[i],
                x,
            ),
        forall|i: int|
            0 <= i < lineage(log, x).len() ==> lineage(log, #[trigger] lineage(log, x)[i])
                == lineage(log, x).take(i + 1),
    decreases older(log, x).len(),
{
    let k = choose|k: int| rga_model::stands_at(nodes, k, x);
    assert(born(log, nodes, nodes[k]));
    let way = lineage(log, x);
    if log[x].after is Some {
        let p = log[x].after->0;
        let m = choose|m: int| rga_model::stands_at(nodes, m, p);
        assert(born(log, nodes, nodes[m]));
        lemma_older_shrinks(log, p, x);
        lemma_lineage(log, nodes, p);
        let front = lineage(log, p);
        assert(way == front.push(x));
        assert forall|i: int| 0 <= i < way.len() implies rga_model::contains_id(
            nodes,
            #[trigger] way[i],
        ) && lineage(log, way[i]) == way.take(i + 1) by {
            if i < front.len() {
                assert(way[i] == front[i]);
                assert(front.take(i + 1) =~= way.take(i + 1));
            } else {
                assert(way.take(i + 1) =~= way);
            }
        }
        assert forall|i: int| 0 <= i < way.len() - 1 implies rga_model::id_lt(
            #[trigger] way[i],
            x,
        ) by {
            assert(way[i] == front[i]);
            if i < front.len() - 1 {
                rga_facts::lemma_id_transitive(front[i], p, x);
            }
        }
    } else {
        assert(way == seq![x]);
        assert(way.take(1) =~= way);
    }
}

/// Nothing comes before itself, and no two elements before each other.
pub proof fn lemma_precedes_strict<T>(log: Map<IdView, Birth<T>>, x: IdView, y: IdView)
    ensures
        !precedes(log, x, x),
        precedes(log, x, y) ==> !precedes(log, y, x),
{
    lemma_newer_first_total();
    lex::lemma_lex_irreflexive(newer_first(), lineage(log, x));
    if precedes(log, x, y) {
        lex::lemma_lex_asymmetric(newer_first(), lineage(log, x), lineage(log, y));
    }
}

/// The order of list elements is transitive.
pub proof fn lemma_precedes_transitive<T>(
    log: Map<IdView, Birth<T>>,
    x: IdView,
    y: IdView,
    z: IdView,
)
    requires
        precedes(log, x, y),
        precedes(log, y, z),
    ensures
        precedes(log, x, z),
{
    lemma_newer_first_total();
    lex::lemma_lex_transitive(
        newer_first(),
        lineage(log, x),
        lineage(log, y),
        lineage(log, z),
    );
}

/// Of two different elements one comes before the other.
pub proof fn lemma_precedes_total<T>(log: Map<IdView, Birth<T>>, x: IdView, y: IdView)
    requires
        log.dom().finite(),
        x != y,
    ensures
        precedes(log, x, y) || precedes(log, y, x),
{
    lemma_newer_first_total();
    assert(lineage(log, x).last() == x);
    assert(lineage(log, y).last() == y);
    lex::lemma_lex_total(newer_first(), lineage(log, x), lineage(log, y));
}

/// In an ordered list an element that comes before another stands before it.
pub proof fn lemma_positions<T>(
    log: Map<IdView, Birth<T>>,
    nodes: Seq<NodeView<T>>,
    i: int,
    j: int,
)
    requires
        in_order(log, nodes),
        0 <= i < nodes.len(),
        0 <= j < nodes.len(),
        precedes(log, nodes[i].id, nodes[j].id),
    ensures
        i < j,
{
    lemma_precedes_strict(log, nodes[i].id, nodes[j].id);
    if j < i {
        assert(precedes(log, nodes[j].id, nodes[i].id));
    }
}

/// `q` is a place to look for the position of `n` from: it comes before `n`, and
/// nothing that `n` hangs below comes after it.
pub open spec fn leads_to<T>(
    log: Map<IdView, Birth<T>>,
    nodes: Seq<NodeView<T>>,
    q: Option<IdView>,
    n: IdView,
) -> bool {
    match q {
        None => lineage(log, n).len() == 1,
        Some(a) => {
            &&& rga_model::contains_id(nodes, a)
            &&& precedes(log, a, n)
            &&& forall|i: int|
                0 <= i < lineage(log, n).len() - 1 ==> #[trigger] lineage(log, n)[i] == a
                    || precedes(log, lineage(log, n)[i], a)
        },
    }
}

/// `n` is recorded and not yet in the list, but what it hangs below is.
pub open spec fn ripe<T>(
    log: Map<IdView, Birth<T>>,
    nodes: Seq<NodeView<T>>,
    n: IdView,
) -> bool {
    &&& log.contains_key(n)
    &&& !rga_model::contains_id(nodes, n)
    &&& log[n].after is None || rga_model::contains_id(nodes, log[n].after->0)
}

/// The way to an element that is about to be inserted.
proof fn lemma_lineage_of_ripe<T>(
    log: Map<IdView, Birth<T>>,
    nodes: Seq<NodeView<T>>,
    n: IdView,
)
    requires
        sound(log),
        rooted(log, nodes),
        ripe(log, nodes, n),
    ensures
        lineage(log, n).len() > 0,
        lineage(log, n).last() == n,
        log[n].after is None ==> lineage(log, n).len() == 1,
        log[n].after is Some ==> lineage(log, n) == lineage(log, log[n].after->0).push(n),
        forall|i: int|
            0 <= i < lineage(log, n).len() - 1 ==> {
                &&& rga_model::contains_id(nodes, #[trigger] lineage(log, n)[i])
                &&& rga_model::id_lt(lineage(log, n)[i], n)
                &&& lineage(log, lineage(log, n)[i]) == lineage(log, n).take(i + 1)
            },
{
    if log[n].after is Some {
        let p = log[n].after->0;
        let m = choose|m: int| rga_model::stands_at(nodes, m, p);
        assert(born(log, nodes, nodes[m]));
        lemma_lineage(log, nodes, p);
        let front = lineage(log, p);
        let way = lineage(log, n);
        assert(way == front.push(n));
        assert forall|i: int| 0 <= i < way.len() - 1 implies rga_model::contains_id(
            nodes,
            #[trigger] way[i],
        ) && rga_model::id_lt(way[i], n) && lineage(log, way[i]) == way.take(i + 1) by {
            assert(way[i] == front[i]);
            assert(front.take(i + 1) =~= way.take(i + 1));
            if i < front.len() - 1 {
                rga_facts::lemma_id_transitive(front[i], p, n);
            }
        }
    }
}

/// An element that a new one skips comes before it.
proof fn lemma_skipped<T>(
    log: Map<IdView, Birth<T>>,
    nodes: Seq<NodeView<T>>,
    q: Option<IdView>,
    n: IdView,
    i: int,
)
    requires
        sound(log),
        rooted(log, nodes),
        in_order(log, nodes),
        rga_model::distinct(nodes),
        ripe(log, nodes, n),
        leads_to(log, nodes, q, n),
        rga_model::behind(nodes, q) <= i < nodes.len(),
        forall|j: int|
            rga_model::behind(nodes, q) <= j <= i ==> rga_model::id_lt(n, (
            #[trigger] nodes[j]).id),
    ensures
        precedes(log, nodes[i].id, n),
{
    let z = nodes[i].id;
    lemma_lineage_of_ripe(log, nodes, n);
    assert(rga_model::stands_at(nodes, i, z));
    if !precedes(log, z, n) {
        lemma_precedes_total(log, z, n);
        lemma_lineage(log, nodes, z);
        let a = lineage(log, n);
        let b = lineage(log, z);
        let k = choose|k: int| lex::lex_split(newer_first(), a, b, k);
        if k == a.len() {
            assert(b[k - 1] == n);
            assert(false);
        }
        let w = b[k];
        let m = choose|m: int| rga_model::stands_at(nodes, m, w);
        assert(lineage(log, w) == b.take(k + 1));
        assert(lex::lex_split(newer_first(), a, b.take(k + 1), k));
        assert(precedes(log, n, w));
        assert(rga_model::id_lt(w, n)) by {
            if k < a.len() - 1 {
                rga_facts::lemma_id_transitive(w, a[k], n);
            }
        }
        if k < b.len() - 1 {
            assert(lex::lex_split(newer_first(), b.take(k + 1), b, k + 1));
            assert(precedes(log, w, z));
            lemma_positions(log, nodes, m, i);
        } else {
            assert(w == z);
            rga_facts::lemma_position(nodes, i, z);
            rga_facts::lemma_position(nodes, m, z);
        }
        assert(m <= i);
        if q is Some {
            let qi = rga_model::position(nodes, q->0);
            assert(rga_model::stands_at(nodes, qi, q->0));
            lemma_precedes_transitive(log, q->0, n, w);
            lemma_positions(log, nodes, qi, m);
        }
        assert(rga_model::id_lt(n, nodes[m].id));
        rga_facts::lemma_id_order(n, w);
    }
}

/// The element that a new one stops at comes behind it.
proof fn lemma_stopped<T>(
    log: Map<IdView, Birth<T>>,
    nodes: Seq<NodeView<T>>,
    q: Option<IdView>,
    n: IdView,
    i: int,
)
    requires
        sound(log),
        rooted(log, nodes),
        in_order(log, nodes),
        rga_model::distinct(nodes),
        ripe(log, nodes, n),
        leads_to(log, nodes, q, n),
        rga_model::behind(nodes, q) <= i < nodes.len(),
        rga_model::id_lt(nodes[i].id, n),
    ensures
        precedes(log, n, nodes[i].id),
{
    let w = nodes[i].id;
    lemma_lineage_of_ripe(log, nodes, n);
    assert(rga_model::stands_at(nodes, i, w));
    if !precedes(log, n, w) {
        rga_facts::lemma_id_order(w, n);
        lemma_precedes_total(log, w, n);
        lemma_lineage(log, nodes, w);
        let a = lineage(log, w);
        let b = lineage(log, n);
        let k = choose|k: int| lex::lex_split(newer_first(), a, b, k);
        if q is Some {
            let qi = rga_model::position(nodes, q->0);
            assert(rga_model::stands_at(nodes, qi, q->0));
            assert(precedes(log, nodes[qi].id, nodes[i].id));
            lemma_precedes_strict(log, q->0, w);
        }
        if k == a.len() {
            assert(b[k - 1] == w);
            assert(false);
        }
        let u = a[k];
        if k == b.len() - 1 {
            assert(rga_model::id_lt(n, u));
            rga_facts::lemma_id_order(n, u);
            if k < a.len() - 1 {
                rga_facts::lemma_id_transitive(u, w, n);
            }
            assert(false);
        }
        let c = b[k];
        assert(lineage(log, c) == b.take(k + 1));
        assert(lex::lex_split(newer_first(), a, b.take(k + 1), k));
        assert(precedes(log, w, c));
        if c != q->0 {
            lemma_precedes_transitive(log, w, c, q->0);
        }
        assert(false);
    }
}

/// A new element, put behind a neighbour that leads to it and past the newer
/// elements there, keeps the list in order.
pub proof fn lemma_insert_in_order<T>(
    log: Map<IdView, Birth<T>>,
    nodes: Seq<NodeView<T>>,
    q: Option<IdView>,
    n: IdView,
)
    requires
        sound(log),
        rooted(log, nodes),
        in_order(log, nodes),
        rga_model::distinct(nodes),
        ripe(log, nodes, n),
        leads_to(log, nodes, q, n),
    ensures
        ({
            let next = rga_model::with_element(nodes, n, q, log[n].value);
            &&& rooted(log, next)
            &&& in_order(log, next)
            &&& rga_model::distinct(next)
        }),
{
    let next = rga_model::with_element(nodes, n, q, log[n].value);
    let start = rga_model::behind(nodes, q);
    rga_facts::lemma_with_element(nodes, n, q, log[n].value);
    rga_facts::lemma_behind(nodes, q);
    rga_facts::lemma_landing(nodes, start, n);
    let p = rga_model::landing(nodes, start, n);
    let new = NodeView { id: n, value: log[n].value, deleted: false };
    assert(next == nodes.insert(p, new));
    assert forall|i: int| 0 <= i < next.len() implies born(log, next, #[trigger] next[i]) by {
        if i < p {
            assert(born(log, nodes, nodes[i]));
        } else if i > p {
            assert(born(log, nodes, nodes[i - 1]));
        }
    }
    assert forall|i: int| 0 <= i < p implies precedes(log, (#[trigger] nodes[i]).id, n) by {
        if i < start {
            let qi = rga_model::position(nodes, q->0);
            assert(rga_model::stands_at(nodes, qi, q->0));
            if i < qi {
                assert(precedes(log, nodes[i].id, nodes[qi].id));
                lemma_precedes_transitive(log, nodes[i].id, q->0, n);
            }
        } else {
            lemma_skipped(log, nodes, q, n, i);
        }
    }
    assert forall|i: int| p <= i < nodes.len() implies precedes(log, n, (
    #[trigger] nodes[i]).id) by {
        let w = nodes[p].id;
        assert(rga_model::stands_at(nodes, p, w));
        rga_facts::lemma_id_order(n, w);
        lemma_stopped(log, nodes, q, n, p);
        if p < i {
            assert(precedes(log, w, nodes[i].id));
            lemma_precedes_transitive(log, n, w, nodes[i].id);
        }
    }
    assert forall|i: int, j: int| 0 <= i < j < next.len() implies precedes(
        log,
        (#[trigger] next[i]).id,
        (#[trigger] next[j]).id,
    ) by {
        let ii = if i < p {
            i
        } else {
            i - 1
        };
        let jj = if j < p {
            j
        } else {
            j - 1
        };
        if i == p {
            assert(next[j] == nodes[jj]);
        } else if j == p {
            assert(next[i] == nodes[ii]);
        } else {
            assert(next[i] == nodes[ii]);
            assert(next[j] == nodes[jj]);
            assert(precedes(log, nodes[ii].id, nodes[jj].id));
        }
    }
}

/// The element that a new one hangs below leads to it.
pub proof fn lemma_parent_leads<T>(
    log: Map<IdView, Birth<T>>,
    nodes: Seq<NodeView<T>>,
    n: IdView,
)
    requires
        sound(log),
        rooted(log, nodes),
        ripe(log, nodes, n),
    ensures
        leads_to(log, nodes, log[n].after, n),
{
    lemma_lineage_of_ripe(log, nodes, n);
    if log[n].after is Some {
        let p = log[n].after->0;
        let way = lineage(log, n);
        let front = lineage(log, p);
        lemma_lineage(log, nodes, p);
        assert(lex::lex_split(newer_first(), front, way, front.len() as int));
        assert(precedes(log, p, n));
        assert forall|i: int| 0 <= i < way.len() - 1 implies #[trigger] way[i] == p || precedes(
            log,
            way[i],
            p,
        ) by {
            assert(way[i] == front[i]);
            if i < front.len() - 1 {
                assert(lex::lex_split(newer_first(), front.take(i + 1), front, i + 1));
            }
        }
    }
}

/// Two ordered lists of the same elements are the same list, up to tombstones.
pub proof fn lemma_order_determines<T>(
    log: Map<IdView, Birth<T>>,
    a: Seq<NodeView<T>>,
    b: Seq<NodeView<T>>,
)
    requires
        in_order(log, a),
        in_order(log, b),
        forall|x: IdView|
            #[trigger] rga_model::contains_id(a, x) <==> rga_model::contains_id(b, x),
    ensures
        a.len() == b.len(),
        forall|i: int| 0 <= i < a.len() ==> (#[trigger] a[i]).id == b[i].id,
{
    lemma_same_prefix(log, a, b, a.len() as int);
    assert forall|x: IdView| #[trigger] rga_model::contains_id(b, x)
        <==> rga_model::contains_id(a, x) by {
        assert(rga_model::contains_id(a, x) <==> rga_model::contains_id(b, x));
    }
    lemma_same_prefix(log, b, a, b.len() as int);
}

proof fn lemma_same_prefix<T>(
    log: Map<IdView, Birth<T>>,
    a: Seq<NodeView<T>>,
    b: Seq<NodeView<T>>,
    n: int,
)
    requires
        in_order(log, a),
        in_order(log, b),
        forall|x: IdView|
            #[trigger] rga_model::contains_id(a, x) <==> rga_model::contains_id(b, x),
        0 <= n <= a.len(),
    ensures
        n <= b.len(),
        forall|i: int| 0 <= i < n ==> (#[trigger] a[i]).id == b[i].id,
    decreases n,
{
    if n > 0 {
        let k = n - 1;
        lemma_same_prefix(log, a, b, k);
        let x = a[k].id;
        assert(rga_model::stands_at(a, k, x));
        assert(rga_model::contains_id(a, x));
        let j = choose|j: int| rga_model::stands_at(b, j, x);
        lemma_precedes_strict(log, x, x);
        if j < k {
            assert(a[j].id == b[j].id);
            assert(precedes(log, a[j].id, a[k].id));
        } else if j > k {
            let y = b[k].id;
            assert(precedes(log, b[k].id, b[j].id));
            assert(rga_model::stands_at(b, k, y));
            assert(rga_model::contains_id(b, y));
            assert(rga_model::contains_id(a, y));
            let i = choose|i: int| rga_model::stands_at(a, i, y);
            lemma_positions(log, a, i, k);
            assert(a[i].id == b[i].id);
            assert(precedes(log, b[i].id, b[k].id));
            lemma_precedes_strict(log, y, y);
        }
    }
}

} // verus!
