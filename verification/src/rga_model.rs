//! The list as a mathematical object.
//!
//! A replica of a list is modelled by its element list (tombstones included),
//! the insertions it holds back, the identifiers of elements that were deleted
//! before they arrived, and its clock.  The functions of this module say what each
//! operation makes of such a state.

use crate::text;
use vstd::prelude::*;

verus! {

/// The identifier of a list element: a logical time and the node that used it.
#[verifier::ext_equal]
pub struct IdView {
    pub clock: u64,
    pub node: Seq<char>,
}

/// A list element; `deleted` marks a tombstone.
#[verifier::ext_equal]
pub struct NodeView<T> {
    pub id: IdView,
    pub value: T,
    pub deleted: bool,
}

/// An operation on a list.
#[verifier::ext_equal]
pub enum OpView<T> {
    /// Put `value` under `id` behind the element `after`, or at the front.
    Insert { id: IdView, after: Option<IdView>, value: T },
    /// Turn the element `id` into a tombstone.
    Delete { id: IdView },
}

/// The state of one replica of a list.
#[verifier::ext_equal]
pub struct ListView<T> {
    pub clock: u64,
    pub nodes: Seq<NodeView<T>>,
    /// Insertions that wait for an element that has not arrived.
    pub pending: Seq<OpView<T>>,
    /// Elements that were deleted and have not arrived.
    pub graves: Set<IdView>,
}

/// The state of a new replica.
pub open spec fn empty_list<T>() -> ListView<T> {
    ListView { clock: 0, nodes: Seq::empty(), pending: Seq::empty(), graves: Set::empty() }
}

/// The order of identifiers: by clock, then by the name of the node.
pub open spec fn id_lt(a: IdView, b: IdView) -> bool {
    a.clock < b.clock || (a.clock == b.clock && text::text_lt(a.node, b.node))
}

impl<T> OpView<T> {
    /// The identifier that the operation is about.
    pub open spec fn target(self) -> IdView {
        match self {
            OpView::Insert { id, .. } => id,
            OpView::Delete { id } => id,
        }
    }
}

/// The element `id` stands at position `i`.
pub open spec fn stands_at<T>(nodes: Seq<NodeView<T>>, i: int, id: IdView) -> bool {
    0 <= i < nodes.len() && nodes[i].id == id
}

/// The element `id` is in the list, alive or as a tombstone.
pub open spec fn contains_id<T>(nodes: Seq<NodeView<T>>, id: IdView) -> bool {
    exists|i: int| stands_at(nodes, i, id)
}

/// The position of the element `id`.
pub open spec fn position<T>(nodes: Seq<NodeView<T>>, id: IdView) -> int {
    choose|i: int| stands_at(nodes, i, id)
}

/// No identifier occurs twice.
pub open spec fn distinct<T>(nodes: Seq<NodeView<T>>) -> bool {
    forall|i: int, j: int|
        0 <= i < j < nodes.len() ==> (#[trigger] nodes[i]).id != (#[trigger] nodes[j]).id
}

/// The first position from `start` on whose element is not newer than `id`.
pub open spec fn landing<T>(nodes: Seq<NodeView<T>>, start: int, id: IdView) -> int
    decreases nodes.len() - start,
{
    if 0 <= start < nodes.len() && id_lt(id, nodes[start].id) {
        landing(nodes, start + 1, id)
    } else {
        start
    }
}

/// The position behind `after`, or the front of the list.
pub open spec fn behind<T>(nodes: Seq<NodeView<T>>, after: Option<IdView>) -> int {
    match after {
        None => 0,
        Some(a) => position(nodes, a) + 1,
    }
}

/// The list with a new element: behind `after`, and there behind all the newer
/// elements that follow without a gap.
pub open spec fn with_element<T>(
    nodes: Seq<NodeView<T>>,
    id: IdView,
    after: Option<IdView>,
    value: T,
) -> Seq<NodeView<T>> {
    nodes.insert(
        landing(nodes, behind(nodes, after), id),
        NodeView { id, value, deleted: false },
    )
}

/// The elements, with a tombstone for each whose identifier is among `ids`.
pub open spec fn entombed<T>(nodes: Seq<NodeView<T>>, ids: Set<IdView>) -> Seq<NodeView<T>> {
    nodes.map_values(
        |n: NodeView<T>|
            if ids.contains(n.id) {
                NodeView { deleted: true, ..n }
            } else {
                n
            },
    )
}

/// The state in which the deleted elements that are there have become tombstones;
/// graves are left for those that are not there.
pub open spec fn interred<T>(list: ListView<T>) -> ListView<T> {
    ListView {
        nodes: entombed(list.nodes, list.graves),
        graves: list.graves.filter(|id: IdView| !contains_id(list.nodes, id)),
        ..list
    }
}

/// What `op` makes of the order of the list; `None` if the element that it is to be
/// put behind is not there yet.  A deletion moves nothing.
pub open spec fn step<T>(nodes: Seq<NodeView<T>>, op: OpView<T>) -> Option<Seq<NodeView<T>>> {
    match op {
        OpView::Insert { id, after, value } => if contains_id(nodes, id) {
            Some(nodes)
        } else if after is None || contains_id(nodes, after->0) {
            Some(with_element(nodes, id, after, value))
        } else {
            None
        },
        OpView::Delete { .. } => Some(nodes),
    }
}

/// Tries the operations `todo` in turn; those that have to wait go to the end
/// of `kept`.
pub open spec fn sweep<T>(
    nodes: Seq<NodeView<T>>,
    kept: Seq<OpView<T>>,
    todo: Seq<OpView<T>>,
) -> (Seq<NodeView<T>>, Seq<OpView<T>>)
    decreases todo.len(),
{
    if todo.len() == 0 {
        (nodes, kept)
    } else {
        match step(nodes, todo[0]) {
            Some(next) => sweep(next, kept, todo.drop_first()),
            None => sweep(nodes, kept.push(todo[0]), todo.drop_first()),
        }
    }
}

/// Sweeps over the operations held back until none of them can be applied.
pub open spec fn settle<T>(
    nodes: Seq<NodeView<T>>,
    pending: Seq<OpView<T>>,
) -> (Seq<NodeView<T>>, Seq<OpView<T>>)
    decreases pending.len(),
{
    let (next, kept) = sweep(nodes, Seq::empty(), pending);
    if kept.len() < pending.len() {
        settle(next, kept)
    } else {
        (next, kept)
    }
}

/// The later of two clock values.
pub open spec fn later(a: u64, b: u64) -> u64 {
    if a < b {
        b
    } else {
        a
    }
}

/// The state after receiving `op`.  A deletion holds whether the element has arrived
/// or not.
pub open spec fn receive<T>(list: ListView<T>, op: OpView<T>) -> ListView<T> {
    let clock = later(list.clock, op.target().clock);
    match op {
        OpView::Delete { id } => interred(
            ListView { clock, graves: list.graves.insert(id), ..list },
        ),
        OpView::Insert { .. } => match step(list.nodes, op) {
            None => ListView { clock, pending: list.pending.push(op), ..list },
            Some(next) => {
                let (nodes, pending) = settle(next, list.pending);
                interred(ListView { clock, nodes, pending, ..list })
            },
        },
    }
}

/// The operation that brings element `i` of `source` to another replica: behind
/// its neighbour in `source`.
pub open spec fn transfer_op<T>(source: Seq<NodeView<T>>, i: int) -> OpView<T> {
    OpView::Insert {
        id: source[i].id,
        after: if i == 0 {
            None
        } else {
            Some(source[i - 1].id)
        },
        value: source[i].value,
    }
}

/// The state after taking over the first `n` elements of `source`.
pub open spec fn absorb<T>(list: ListView<T>, source: Seq<NodeView<T>>, n: int) -> ListView<T>
    decreases n,
{
    if n <= 0 {
        list
    } else {
        let sofar = absorb(list, source, n - 1);
        if contains_id(sofar.nodes, source[n - 1].id) {
            sofar
        } else {
            receive(sofar, transfer_op(source, n - 1))
        }
    }
}

/// `id` is a tombstone in `nodes`.
pub open spec fn buried<T>(nodes: Seq<NodeView<T>>, id: IdView) -> bool {
    exists|i: int| stands_at(nodes, i, id) && nodes[i].deleted
}

/// The identifiers of the tombstones in `nodes`.
pub open spec fn buried_ids<T>(nodes: Seq<NodeView<T>>) -> Set<IdView> {
    Set::new(|id: IdView| buried(nodes, id))
}

/// An insertion of `id` is among `ops`.
pub open spec fn held<T>(ops: Seq<OpView<T>>, id: IdView) -> bool {
    exists|i: int| 0 <= i < ops.len() && (#[trigger] ops[i]).target() == id
}

/// The insertion of `id` has arrived: the element is in the list, or held back.
pub open spec fn known<T>(list: ListView<T>, id: IdView) -> bool {
    contains_id(list.nodes, id) || held(list.pending, id)
}

/// The deletion of `id` has arrived.
pub open spec fn dead<T>(list: ListView<T>, id: IdView) -> bool {
    buried(list.nodes, id) || list.graves.contains(id)
}

/// The state after taking over the first `n` of the insertions `ops` that another
/// replica holds back, those that have arrived already left out.
pub open spec fn take_over<T>(list: ListView<T>, ops: Seq<OpView<T>>, n: int) -> ListView<T>
    decreases n,
{
    if n <= 0 {
        list
    } else {
        let sofar = take_over(list, ops, n - 1);
        if known(sofar, ops[n - 1].target()) {
            sofar
        } else {
            receive(sofar, ops[n - 1])
        }
    }
}

/// The state in which all the deletions that arrived at `other`, and its clock, have
/// been taken note of.
pub open spec fn mourning<T>(list: ListView<T>, other: ListView<T>) -> ListView<T> {
    interred(
        ListView {
            clock: later(list.clock, other.clock),
            graves: list.graves.union(buried_ids(other.nodes)).union(other.graves),
            ..list
        },
    )
}

/// The state after merging the state `other` of another replica: its deletions, its
/// elements, and what it holds back.
pub open spec fn merged<T>(list: ListView<T>, other: ListView<T>) -> ListView<T> {
    let all = absorb(mourning(list, other), other.nodes, other.nodes.len() as int);
    take_over(all, other.pending, other.pending.len() as int)
}

/// The elements that are not tombstones, in order.
pub open spec fn live<T>(nodes: Seq<NodeView<T>>) -> Seq<NodeView<T>> {
    nodes.filter(|n: NodeView<T>| !n.deleted)
}

/// The values of the visible elements, in order.
pub open spec fn visible<T>(nodes: Seq<NodeView<T>>) -> Seq<T> {
    live(nodes).map_values(|n: NodeView<T>| n.value)
}

/// The list without the tombstones of elements inserted at or before `before`.
pub open spec fn pruned<T>(nodes: Seq<NodeView<T>>, before: u64) -> Seq<NodeView<T>> {
    nodes.filter(|n: NodeView<T>| !n.deleted || n.id.clock > before)
}

/// The insertion of `value` at the visible index `index`, made by `owner` at
/// the next tick of its clock.
pub open spec fn insertion<T>(
    list: ListView<T>,
    owner: Seq<char>,
    index: int,
    value: T,
) -> OpView<T> {
    OpView::Insert {
        id: IdView { clock: (list.clock + 1) as u64, node: owner },
        after: if index == 0 {
            None
        } else {
            Some(live(list.nodes)[index - 1].id)
        },
        value,
    }
}

/// The deletion of the element at the visible index `index`.
pub open spec fn deletion<T>(nodes: Seq<NodeView<T>>, index: int) -> OpView<T> {
    OpView::Delete { id: live(nodes)[index].id }
}

/// `op` has to wait: it inserts a new element behind one that is not there.
pub open spec fn waits<T>(nodes: Seq<NodeView<T>>, op: OpView<T>) -> bool {
    op matches OpView::Insert { id, after, .. } && !contains_id(nodes, id) && after is Some && !contains_id(
        nodes,
        after->0,
    )
}

impl<T> ListView<T> {
    /// What every reachable state satisfies: identifiers are unique, none is ahead of
    /// the clock, every operation held back has to wait, and graves are left only for
    /// elements that are not there.
    pub open spec fn well_formed(self) -> bool {
        &&& distinct(self.nodes)
        &&& forall|i: int| 0 <= i < self.nodes.len() ==> (#[trigger] self.nodes[i]).id.clock <= self.clock
        &&& forall|i: int|
            0 <= i < self.pending.len() ==> waits(self.nodes, #[trigger] self.pending[i])
        &&& forall|i: int|
            0 <= i < self.pending.len() ==> (#[trigger] self.pending[i]).target().clock <= self.clock
        &&& forall|id: IdView| #[trigger]
            self.graves.contains(id) ==> !contains_id(self.nodes, id) && id.clock <= self.clock
    }
}

/// `copies` are the elements `nodes` with their values cloned.
pub open spec fn cloned_nodes<T: Clone>(
    nodes: Seq<NodeView<T>>,
    copies: Seq<NodeView<T>>,
) -> bool {
    &&& copies.len() == nodes.len()
    &&& forall|i: int|
        #![trigger copies[i]]
        0 <= i < nodes.len() ==> copies[i].id == nodes[i].id && copies[i].deleted
            == nodes[i].deleted && cloned(nodes[i].value, copies[i].value)
}

} // verus!
