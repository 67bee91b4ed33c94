//! A replicated growable array: an ordered list that several replicas edit at
//! the same time.
//!
//! Every element carries an identifier that is unique and totally ordered.  An
//! insertion names the element that it goes behind; where several elements were
//! put behind the same one, the newer comes first.  A deletion leaves a
//! tombstone.  An insertion whose predecessor has not arrived yet is held back
//! until it has, and a deletion of an element that has not arrived yet is remembered
//! until it has.  So operations may arrive in any order and any number of times.
//!
//! What the operations do is said over the states of
//! [`rga_model`](crate::rga_model); that replicas converge is proved in
//! [`rga_laws`](crate::rga_laws).

use crate::copies;
use crate::rga_facts;
use crate::rga_model;
use crate::rga_model::IdView;
use crate::rga_model::ListView;
use crate::rga_model::NodeView;
use crate::rga_model::OpView;
use crate::text;
use std::cmp::Ordering;
use vstd::prelude::*;

verus! {

/// Unique, totally ordered identifier of a list element.
#[derive(Debug, Eq, Ord, Hash)]
pub struct RGAId {
    /// Logical time of the insertion; higher is newer.
    pub clock: u64,
    /// The node that made the insertion.  Breaks ties between equal times.
    pub node_id: String,
}

impl View for RGAId {
    type V = IdView;

    open spec fn view(&self) -> IdView {
        IdView { clock: self.clock, node: self.node_id@ }
    }
}

impl Clone for RGAId {
    fn clone(&self) -> (copy: Self)
        ensures
            copy == *self,
    {
        RGAId { clock: self.clock, node_id: self.node_id.clone() }
    }
}

impl PartialEq for RGAId {
    fn eq(&self, other: &Self) -> (same: bool) {
        self.clock == other.clock && self.node_id == other.node_id
    }
}

impl vstd::std_specs::cmp::PartialEqSpecImpl for RGAId {
    open spec fn obeys_eq_spec() -> bool {
        true
    }

    open spec fn eq_spec(&self, other: &Self) -> bool {
        self@ == other@
    }
}

impl PartialOrd for RGAId {
    fn partial_cmp(&self, other: &Self) -> (order: Option<Ordering>) {
        if self.clock < other.clock {
            Some(Ordering::Less)
        } else if self.clock > other.clock {
            Some(Ordering::Greater)
        } else if self.node_id == other.node_id {
            Some(Ordering::Equal)
        } else if text::text_less(self.node_id.as_str(), other.node_id.as_str()) {
            Some(Ordering::Less)
        } else {
            Some(Ordering::Greater)
        }
    }
}

impl vstd::std_specs::cmp::PartialOrdSpecImpl for RGAId {
    open spec fn obeys_partial_cmp_spec() -> bool {
        true
    }

    open spec fn partial_cmp_spec(&self, other: &Self) -> Option<Ordering> {
        if self@ == other@ {
            Some(Ordering::Equal)
        } else if rga_model::id_lt(self@, other@) {
            Some(Ordering::Less)
        } else {
            Some(Ordering::Greater)
        }
    }
}

impl RGAId {
    /// The identifier with the given time and node.
    pub fn new(clock: u64, node_id: &str) -> (id: Self)
        ensures
            id@ == (IdView { clock, node: node_id@ }),
    {
        RGAId { clock, node_id: node_id.to_owned() }
    }
}

/// The identifier, if there is one, as a mathematical value.
pub open spec fn opt_id_view(id: Option<RGAId>) -> Option<IdView> {
    match id {
        None => None,
        Some(i) => Some(i@),
    }
}

/// An element of the list, alive or as a tombstone.
#[derive(Debug)]
pub struct RGANode<T: Clone> {
    pub id: RGAId,
    pub value: T,
    /// `true` means that the element has been deleted.
    pub deleted: bool,
}

impl<T: Clone> View for RGANode<T> {
    type V = NodeView<T>;

    open spec fn view(&self) -> NodeView<T> {
        NodeView { id: self.id@, value: self.value, deleted: self.deleted }
    }
}

/// An operation on an [`RGA`].
#[derive(Debug, PartialEq, Eq)]
pub enum RGAOp<T> {
    /// Insert `value` with identifier `id` behind the element `after_id`, or at
    /// the front if `after_id` is `None`.
    Insert { id: RGAId, after_id: Option<RGAId>, value: T },
    /// Turn the element `id` into a tombstone.
    Delete { id: RGAId },
}

impl<T> View for RGAOp<T> {
    type V = OpView<T>;

    open spec fn view(&self) -> OpView<T> {
        match *self {
            RGAOp::Insert { id, after_id, value } => OpView::Insert {
                id: id@,
                after: opt_id_view(after_id),
                value,
            },
            RGAOp::Delete { id } => OpView::Delete { id: id@ },
        }
    }
}

/// `copy` is the operation `op` with its value cloned.
pub open spec fn cloned_op<T: Clone>(op: OpView<T>, copy: OpView<T>) -> bool {
    match op {
        OpView::Insert { id, after, value } => copy matches OpView::Insert {
            id: id2,
            after: after2,
            value: value2,
        } && id2 == id && after2 == after && cloned(value, value2),
        OpView::Delete { id } => copy == op,
    }
}

impl<T: Clone> Clone for RGAOp<T> {
    fn clone(&self) -> (copy: Self)
        ensures
            cloned_op(self@, copy@),
    {
        match self {
            RGAOp::Insert { id, after_id, value } => RGAOp::Insert {
                id: id.clone(),
                after_id: match after_id {
                    None => None,
                    Some(a) => Some(a.clone()),
                },
                value: value.clone(),
            },
            RGAOp::Delete { id } => RGAOp::Delete { id: id.clone() },
        }
    }
}

impl<T> RGAOp<T> {
    /// The identifier of the element that an insertion creates; `None` for a
    /// deletion.
    pub fn id(&self) -> (id: Option<RGAId>)
        ensures
            opt_id_view(id) == match self@ {
                OpView::Insert { id, .. } => Some(id),
                OpView::Delete { .. } => None,
            },
    {
        match self {
            RGAOp::Insert { id, .. } => Some(id.clone()),
            RGAOp::Delete { .. } => None,
        }
    }
}

/// A replica of a list.
#[derive(Debug)]
pub struct RGA<T: Clone> {
    node_id: String,
    clock: u64,
    /// The elements, tombstones among them, in list order.
    nodes: Vec<RGANode<T>>,
    /// Operations that wait for an element that has not arrived.
    pending: Vec<RGAOp<T>>,
    /// Elements that were deleted and have not arrived.
    graves: Vec<RGAId>,
}

/// The identifier `id` stands at position `i`.
pub open spec fn is_at(ids: Seq<RGAId>, i: int, id: IdView) -> bool {
    0 <= i < ids.len() && ids[i]@ == id
}

/// The identifiers as a mathematical set.
pub open spec fn id_set(ids: Seq<RGAId>) -> Set<IdView> {
    Set::new(|id: IdView| exists|i: int| is_at(ids, i, id))
}

/// One more identifier.
proof fn lemma_id_set_take(ids: Seq<RGAId>, n: int)
    requires
        0 <= n < ids.len(),
    ensures
        id_set(ids.take(n + 1)) == id_set(ids.take(n)).insert(ids[n]@),
{
    let (less, more) = (ids.take(n), ids.take(n + 1));
    assert forall|id: IdView| #[trigger] id_set(more).contains(id) <==> id_set(less).insert(
        ids[n]@,
    ).contains(id) by {
        if id_set(more).contains(id) {
            let i = choose|i: int| is_at(more, i, id);
            if i < n {
                assert(is_at(less, i, id));
            }
        }
        if id_set(less).contains(id) {
            let i = choose|i: int| is_at(less, i, id);
            assert(is_at(more, i, id));
        }
        if id == ids[n]@ {
            assert(is_at(more, n, id));
        }
    }
    assert(id_set(more) =~= id_set(less).insert(ids[n]@));
}

/// One identifier at the end.
proof fn lemma_id_set_push(ids: Seq<RGAId>, id: RGAId)
    ensures
        id_set(ids.push(id)) == id_set(ids).insert(id@),
{
    let more = ids.push(id);
    assert(more.take(ids.len() as int) =~= ids);
    assert(more.take(more.len() as int) =~= more);
    lemma_id_set_take(more, ids.len() as int);
}

/// Whether `id` is among `ids`.
fn among(ids: &Vec<RGAId>, id: &RGAId) -> (found: bool)
    ensures
        found == id_set(ids@).contains(id@),
{
    let mut i: usize = 0;
    while i < ids.len()
        invariant
            i <= ids.len(),
            forall|j: int| 0 <= j < i ==> (#[trigger] ids@[j])@ != id@,
        decreases ids.len() - i,
    {
        if ids[i] == *id {
            assert(is_at(ids@, i as int, id@));
            return true;
        }
        i += 1;
    }
    false
}

/// The elements as mathematical values.
pub open spec fn node_views<T: Clone>(nodes: Seq<RGANode<T>>) -> Seq<NodeView<T>> {
    nodes.map_values(|n: RGANode<T>| n@)
}

/// The operations as mathematical values.
pub open spec fn op_views<T>(ops: Seq<RGAOp<T>>) -> Seq<OpView<T>> {
    ops.map_values(|op: RGAOp<T>| op@)
}

/// `copies` are the operations `ops` with their values cloned.
pub open spec fn cloned_ops<T: Clone>(ops: Seq<OpView<T>>, copies: Seq<OpView<T>>) -> bool {
    &&& copies.len() == ops.len()
    &&& forall|i: int| 0 <= i < ops.len() ==> cloned_op(ops[i], #[trigger] copies[i])
}

/// `copy` is the state `list` with its values cloned.
pub open spec fn cloned_list<T: Clone>(list: ListView<T>, copy: ListView<T>) -> bool {
    &&& copy.clock == list.clock
    &&& rga_model::cloned_nodes(list.nodes, copy.nodes)
    &&& cloned_ops(list.pending, copy.pending)
    &&& copy.graves == list.graves
}

/// All that a replica knows of a list, laid open.
#[derive(Debug)]
pub struct RGAState<T: Clone> {
    pub clock: u64,
    /// The elements, tombstones among them, in list order.
    pub nodes: Vec<RGANode<T>>,
    /// Operations that wait for an element that has not arrived.
    pub pending: Vec<RGAOp<T>>,
    /// Elements that were deleted and have not arrived.
    pub graves: Vec<RGAId>,
}

impl<T: Clone> View for RGAState<T> {
    type V = ListView<T>;

    open spec fn view(&self) -> ListView<T> {
        ListView {
            clock: self.clock,
            nodes: node_views(self.nodes@),
            pending: op_views(self.pending@),
            graves: id_set(self.graves@),
        }
    }
}

/// Whether one of the first `n` elements is `id`.
fn occurs<T: Clone>(nodes: &Vec<RGANode<T>>, n: usize, id: &RGAId) -> (found: bool)
    requires
        n <= nodes.len(),
    ensures
        found == rga_model::contains_id(node_views(nodes@).take(n as int), id@),
{
    let ghost front = node_views(nodes@).take(n as int);
    let mut i: usize = 0;
    while i < n
        invariant
            i <= n <= nodes.len(),
            front == node_views(nodes@).take(n as int),
            forall|j: int| 0 <= j < i ==> (#[trigger] front[j]).id != id@,
        decreases n - i,
    {
        if nodes[i].id == *id {
            assert(rga_model::stands_at(front, i as int, id@));
            return true;
        }
        assert(front[i as int].id == nodes@[i as int].id@);
        i += 1;
    }
    false
}

impl<T: Clone> RGAState<T> {
    /// Whether a replica can be in this state.
    pub fn is_well_formed(&self) -> (ok: bool)
        ensures
            ok == self@.well_formed(),
    {
        let ghost nodes = self@.nodes;
        let ghost pending = self@.pending;
        let mut i: usize = 0;
        while i < self.nodes.len()
            invariant
                i <= self.nodes.len(),
                nodes == self@.nodes,
                forall|a: int, b: int|
                    0 <= a < b < i ==> (#[trigger] nodes[a]).id != (#[trigger] nodes[b]).id,
                forall|a: int| 0 <= a < i ==> (#[trigger] nodes[a]).id.clock <= self.clock,
            decreases self.nodes.len() - i,
        {
            assert(nodes[i as int].id == self.nodes@[i as int].id@);
            if self.nodes[i].id.clock > self.clock {
                return false;
            }
            if occurs(&self.nodes, i, &self.nodes[i].id) {
                proof {
                    let front = nodes.take(i as int);
                    let a = choose|a: int| rga_model::stands_at(front, a, nodes[i as int].id);
                    assert(nodes[a].id == nodes[i as int].id);
                }
                return false;
            }
            proof {
                let front = nodes.take(i as int);
                assert forall|a: int| 0 <= a < i implies (#[trigger] nodes[a]).id
                    != nodes[i as int].id by {
                    assert(front[a] == nodes[a]);
                    assert(!rga_model::stands_at(front, a, nodes[i as int].id));
                }
            }
            i += 1;
        }
        assert(rga_model::distinct(nodes));
        assert(nodes.take(nodes.len() as int) =~= nodes);
        let mut k: usize = 0;
        while k < self.pending.len()
            invariant
                k <= self.pending.len(),
                nodes == self@.nodes,
                pending == self@.pending,
                nodes.take(nodes.len() as int) == nodes,
                nodes.len() == self.nodes.len(),
                forall|a: int| 0 <= a < k ==> rga_model::waits(nodes, #[trigger] pending[a]),
                forall|a: int|
                    0 <= a < k ==> (#[trigger] pending[a]).target().clock <= self.clock,
            decreases self.pending.len() - k,
        {
            assert(pending[k as int] == self.pending@[k as int]@);
            match &self.pending[k] {
                RGAOp::Delete { .. } => {
                    assert(!rga_model::waits(nodes, pending[k as int]));
                    return false;
                },
                RGAOp::Insert { id, after_id, .. } => {
                    if id.clock > self.clock || occurs(&self.nodes, self.nodes.len(), id) {
                        assert(!rga_model::waits(nodes, pending[k as int])
                            || pending[k as int].target().clock > self.clock);
                        return false;
                    }
                    match after_id {
                        None => {
                            assert(!rga_model::waits(nodes, pending[k as int]));
                            return false;
                        },
                        Some(a) => {
                            if occurs(&self.nodes, self.nodes.len(), a) {
                                assert(!rga_model::waits(nodes, pending[k as int]));
                                return false;
                            }
                        },
                    }
                },
            }
            k += 1;
        }
        let mut m: usize = 0;
        while m < self.graves.len()
            invariant
                m <= self.graves.len(),
                nodes == self@.nodes,
                nodes.take(nodes.len() as int) == nodes,
                nodes.len() == self.nodes.len(),
                forall|a: int|
                    0 <= a < m ==> !rga_model::contains_id(nodes, (#[trigger] self.graves@[a])@)
                        && self.graves@[a]@.clock <= self.clock,
            decreases self.graves.len() - m,
        {
            let id = &self.graves[m];
            if id.clock > self.clock || occurs(&self.nodes, self.nodes.len(), id) {
                assert(is_at(self.graves@, m as int, id@));
                assert(self@.graves.contains(id@));
                return false;
            }
            m += 1;
        }
        assert forall|id: IdView| #[trigger] self@.graves.contains(id) implies
            !rga_model::contains_id(nodes, id) && id.clock <= self.clock by {
            let a = choose|a: int| is_at(self.graves@, a, id);
            assert(self.graves@[a]@ == id);
        }
        true
    }
}

impl<T: Clone> Clone for RGANode<T> {
    fn clone(&self) -> (copy: Self)
        ensures
            copy@.id == self@.id,
            copy@.deleted == self@.deleted,
            cloned(self@.value, copy@.value),
    {
        RGANode { id: self.id.clone(), value: self.value.clone(), deleted: self.deleted }
    }
}

impl<T: Clone> Clone for RGA<T> {
    fn clone(&self) -> (copy: Self)
        ensures
            cloned_list(self@, copy@),
            copy.owner() == self.owner(),
            copies::exact_values::<T>() ==> copy@ == self@,
    {
        let state = self.state();
        proof {
            if copies::exact_values::<T>() {
                lemma_exact_copy(self@, state@);
            }
        }
        RGA {
            node_id: self.node_id.clone(),
            clock: state.clock,
            nodes: state.nodes,
            pending: state.pending,
            graves: state.graves,
        }
    }
}

impl<T: Clone> View for RGA<T> {
    type V = ListView<T>;

    closed spec fn view(&self) -> ListView<T> {
        ListView {
            clock: self.clock,
            nodes: node_views(self.nodes@),
            pending: op_views(self.pending@),
            graves: id_set(self.graves@),
        }
    }
}

impl<T: Clone> RGA<T> {
    /// The node that owns this replica.
    pub closed spec fn owner(&self) -> Seq<char> {
        self.node_id@
    }

    /// A new, empty list owned by `node_id`.
    pub fn new(node_id: &str) -> (list: Self)
        ensures
            list.owner() == node_id@,
            list@ == rga_model::empty_list::<T>(),
            list@.well_formed(),
    {
        let list = RGA {
            node_id: node_id.to_owned(),
            clock: 0,
            nodes: Vec::new(),
            pending: Vec::new(),
            graves: Vec::new(),
        };
        assert(list@.graves =~= Set::empty());
        assert(list@.nodes =~= Seq::empty());
        assert(list@.pending =~= Seq::empty());
        list
    }

    /// All that this replica knows of the list, cloned.
    pub fn state(&self) -> (state: RGAState<T>)
        ensures
            cloned_list(self@, state@),
    {
        let mut nodes: Vec<RGANode<T>> = Vec::new();
        let mut i: usize = 0;
        while i < self.nodes.len()
            invariant
                i <= self.nodes.len(),
                nodes.len() == i,
                forall|j: int|
                    #![trigger nodes@[j]]
                    0 <= j < i ==> nodes@[j]@.id == self.nodes@[j]@.id && nodes@[j]@.deleted
                        == self.nodes@[j]@.deleted && cloned(
                        self.nodes@[j]@.value,
                        nodes@[j]@.value,
                    ),
            decreases self.nodes.len() - i,
        {
            nodes.push(self.nodes[i].clone());
            i += 1;
        }
        let mut pending: Vec<RGAOp<T>> = Vec::new();
        let mut k: usize = 0;
        while k < self.pending.len()
            invariant
                k <= self.pending.len(),
                pending.len() == k,
                forall|j: int|
                    0 <= j < k ==> cloned_op(self.pending@[j]@, (#[trigger] pending@[j])@),
            decreases self.pending.len() - k,
        {
            pending.push(self.pending[k].clone());
            k += 1;
        }
        let mut graves: Vec<RGAId> = Vec::new();
        let mut m: usize = 0;
        assert(id_set(graves@) =~= id_set(self.graves@.take(0)));
        while m < self.graves.len()
            invariant
                m <= self.graves.len(),
                id_set(graves@) == id_set(self.graves@.take(m as int)),
            decreases self.graves.len() - m,
        {
            let ghost sofar = graves@;
            graves.push(self.graves[m].clone());
            proof {
                lemma_id_set_push(sofar, graves@.last());
                lemma_id_set_take(self.graves@, m as int);
                assert(graves@ =~= sofar.push(graves@.last()));
            }
            m += 1;
        }
        assert(self.graves@.take(m as int) =~= self.graves@);
        RGAState { clock: self.clock, nodes, pending, graves }
    }

    /// The replica of `node_id` in the given state; `None` if no replica can be in
    /// that state.
    pub fn restore(node_id: &str, state: RGAState<T>) -> (list: Option<Self>)
        ensures
            match list {
                Some(l) => state@.well_formed() && l@ == state@ && l.owner() == node_id@,
                None => !state@.well_formed(),
            },
    {
        if state.is_well_formed() {
            Some(
                RGA {
                    node_id: node_id.to_owned(),
                    clock: state.clock,
                    nodes: state.nodes,
                    pending: state.pending,
                    graves: state.graves,
                },
            )
        } else {
            None
        }
    }

    /// The greatest time among the elements that this replica has seen.
    pub fn clock(&self) -> (time: u64)
        ensures
            time == self@.clock,
    {
        self.clock
    }

    /// The identifier for the next insertion of this replica.
    fn next_id(&mut self) -> (id: RGAId)
        requires
            old(self)@.clock < u64::MAX,
        ensures
            final(self).owner() == old(self).owner(),
            final(self)@ == (ListView { clock: (old(self)@.clock + 1) as u64, ..old(self)@ }),
            id@ == (IdView { clock: final(self)@.clock, node: old(self).owner() }),
    {
        self.clock = self.clock + 1;
        RGAId { clock: self.clock, node_id: self.node_id.clone() }
    }

    /// The position of the element `id` in the internal list.
    fn pos_of(&self, id: &RGAId) -> (pos: Option<usize>)
        ensures
            match pos {
                None => !rga_model::contains_id(self@.nodes, id@),
                Some(p) => rga_model::stands_at(self@.nodes, p as int, id@),
            },
    {
        let mut i: usize = 0;
        while i < self.nodes.len()
            invariant
                i <= self.nodes.len(),
                forall|j: int| 0 <= j < i ==> (#[trigger] self@.nodes[j]).id != id@,
            decreases self.nodes.len() - i,
        {
            if self.nodes[i].id == *id {
                return Some(i);
            }
            assert(self@.nodes[i as int].id != id@);
            i += 1;
        }
        None
    }

    /// The positions of the visible elements, in order.
    fn visible_positions(&self) -> (positions: Vec<usize>)
        ensures
            positions@.len() == rga_model::live(self@.nodes).len(),
            forall|k: int|
                #![trigger positions@[k]]
                0 <= k < positions@.len() ==> positions@[k] < self@.nodes.len()
                    && self@.nodes[positions@[k] as int] == rga_model::live(self@.nodes)[k],
    {
        let mut positions: Vec<usize> = Vec::new();
        let mut i: usize = 0;
        while i < self.nodes.len()
            invariant
                i <= self.nodes.len(),
                positions@.len() == rga_model::live(self@.nodes.take(i as int)).len(),
                forall|k: int|
                    #![trigger positions@[k]]
                    0 <= k < positions@.len() ==> positions@[k] < i
                        && self@.nodes[positions@[k] as int] == rga_model::live(
                        self@.nodes.take(i as int),
                    )[k],
            decreases self.nodes.len() - i,
        {
            proof {
                rga_facts::lemma_live_take(self@.nodes, i as int);
            }
            if !self.nodes[i].deleted {
                positions.push(i);
            }
            i += 1;
        }
        assert(self@.nodes.take(i as int) =~= self@.nodes);
        positions
    }

    /// The number of visible elements.
    pub fn len(&self) -> (n: usize)
        ensures
            n == rga_model::visible(self@.nodes).len(),
    {
        let mut n: usize = 0;
        let mut i: usize = 0;
        while i < self.nodes.len()
            invariant
                n <= i <= self.nodes.len(),
                n == rga_model::live(self@.nodes.take(i as int)).len(),
            decreases self.nodes.len() - i,
        {
            proof {
                rga_facts::lemma_live_take(self@.nodes, i as int);
            }
            if !self.nodes[i].deleted {
                n += 1;
            }
            i += 1;
        }
        assert(self@.nodes.take(i as int) =~= self@.nodes);
        n
    }

    /// Whether no element is visible.
    pub fn is_empty(&self) -> (empty: bool)
        ensures
            empty == (rga_model::visible(self@.nodes).len() == 0),
    {
        self.len() == 0
    }

    /// The values of the visible elements, cloned, in order.
    pub fn to_vec(&self) -> (values: Vec<T>)
        ensures
            values@.len() == rga_model::visible(self@.nodes).len(),
            forall|k: int|
                #![trigger values@[k]]
                0 <= k < values@.len() ==> cloned(rga_model::visible(self@.nodes)[k], values@[k]),
    {
        let mut values: Vec<T> = Vec::new();
        let mut i: usize = 0;
        while i < self.nodes.len()
            invariant
                i <= self.nodes.len(),
                values@.len() == rga_model::live(self@.nodes.take(i as int)).len(),
                forall|k: int|
                    #![trigger values@[k]]
                    0 <= k < values@.len() ==> cloned(
                        rga_model::live(self@.nodes.take(i as int))[k].value,
                        values@[k],
                    ),
            decreases self.nodes.len() - i,
        {
            proof {
                rga_facts::lemma_live_take(self@.nodes, i as int);
            }
            if !self.nodes[i].deleted {
                values.push(self.nodes[i].value.clone());
            }
            i += 1;
        }
        assert(self@.nodes.take(i as int) =~= self@.nodes);
        values
    }

    /// The values of the visible elements, in order.
    pub fn iter(&self) -> (values: Vec<&T>)
        ensures
            values@.len() == rga_model::visible(self@.nodes).len(),
            forall|k: int|
                #![trigger values@[k]]
                0 <= k < values@.len() ==> *values@[k] == rga_model::visible(self@.nodes)[k],
    {
        let mut values: Vec<&T> = Vec::new();
        let mut i: usize = 0;
        while i < self.nodes.len()
            invariant
                i <= self.nodes.len(),
                values@.len() == rga_model::live(self@.nodes.take(i as int)).len(),
                forall|k: int|
                    #![trigger values@[k]]
                    0 <= k < values@.len() ==> *values@[k] == rga_model::live(
                        self@.nodes.take(i as int),
                    )[k].value,
            decreases self.nodes.len() - i,
        {
            proof {
                rga_facts::lemma_live_take(self@.nodes, i as int);
            }
            if !self.nodes[i].deleted {
                values.push(&self.nodes[i].value);
            }
            i += 1;
        }
        assert(self@.nodes.take(i as int) =~= self@.nodes);
        values
    }

    /// The operation that inserts `value` at the visible index `index`; index 0
    /// is the front, `len()` the end.  The operation is not applied.
    pub fn insert_op(&mut self, index: usize, value: T) -> (op: RGAOp<T>)
        requires
            old(self)@.well_formed(),
            old(self)@.clock < u64::MAX,
            index <= rga_model::visible(old(self)@.nodes).len(),
        ensures
            final(self)@.well_formed(),
            final(self).owner() == old(self).owner(),
            final(self)@ == (ListView { clock: (old(self)@.clock + 1) as u64, ..old(self)@ }),
            op@ == rga_model::insertion(old(self)@, old(self).owner(), index as int, value),
    {
        let visible = self.visible_positions();
        let after_id = if index == 0 {
            None
        } else {
            Some(self.nodes[visible[index - 1]].id.clone())
        };
        let id = self.next_id();
        RGAOp::Insert { id, after_id, value }
    }

    /// The operation that deletes the element at the visible index `index`;
    /// `None` if there is none.  The operation is not applied.
    pub fn delete_op(&self, index: usize) -> (op: Option<RGAOp<T>>)
        ensures
            match op {
                Some(o) => index < rga_model::visible(self@.nodes).len() && o@
                    == rga_model::deletion(self@.nodes, index as int),
                None => index >= rga_model::visible(self@.nodes).len(),
            },
    {
        let visible = self.visible_positions();
        if index < visible.len() {
            Some(RGAOp::Delete { id: self.nodes[visible[index]].id.clone() })
        } else {
            None
        }
    }

    /// Puts the element of `op` into the list if it need not wait, else `op` with the
    /// operations held back.  Says whether it need not wait; a deletion never does, and
    /// moves nothing.
    fn try_apply_one(&mut self, op: RGAOp<T>) -> (applied: bool)
        requires
            rga_model::distinct(old(self)@.nodes),
        ensures
            final(self).owner() == old(self).owner(),
            final(self)@.clock == old(self)@.clock,
            final(self)@.graves == old(self)@.graves,
            applied == rga_model::step(old(self)@.nodes, op@) is Some,
            match rga_model::step(old(self)@.nodes, op@) {
                Some(next) => final(self)@.nodes == next && final(self)@.pending
                    == old(self)@.pending,
                None => final(self)@.nodes == old(self)@.nodes && final(self)@.pending
                    == old(self)@.pending.push(op@),
            },
    {
        match op {
            RGAOp::Insert { id, after_id, value } => {
                if self.pos_of(&id).is_some() {
                    return true;
                }
                let start: usize = match &after_id {
                    None => 0,
                    Some(a) => match self.pos_of(a) {
                        Some(p) => {
                            proof {
                                rga_facts::lemma_position(self@.nodes, p as int, a@);
                                assert(p < self.nodes.len());
                            }
                            p + 1
                        },
                        None => {
                            self.pending.push(RGAOp::Insert { id, after_id, value });
                            assert(self@.pending =~= old(self)@.pending.push(op@));
                            return false;
                        },
                    },
                };
                let mut p: usize = start;
                proof {
                    if start < self.nodes.len() {
                        rga_facts::lemma_id_order(self@.nodes[start as int].id, id@);
                    }
                }
                while p < self.nodes.len() && self.nodes[p].id > id
                    invariant
                        start <= p <= self.nodes.len(),
                        rga_model::landing(self@.nodes, start as int, id@) == rga_model::landing(
                            self@.nodes,
                            p as int,
                            id@,
                        ),
                        p < self.nodes.len() ==> (self.nodes[p as int].id@ == id@
                            || rga_model::id_lt(self.nodes[p as int].id@, id@)
                            <==> !rga_model::id_lt(id@, self.nodes[p as int].id@)),
                    decreases self.nodes.len() - p,
                {
                    assert(self@.nodes[p as int].id == self.nodes[p as int].id@);
                    p += 1;
                    proof {
                        if p < self.nodes.len() {
                            rga_facts::lemma_id_order(self@.nodes[p as int].id, id@);
                        }
                    }
                }
                let ghost before = self@.nodes;
                self.nodes.insert(p, RGANode { id, value, deleted: false });
                assert(self@.nodes =~= before.insert(
                    p as int,
                    NodeView { id: id@, value, deleted: false },
                ));
                true
            },
            RGAOp::Delete { .. } => true,
        }
    }

    /// Makes a tombstone of the element `id`; if it has not arrived, the deletion is
    /// remembered until it does.
    fn bury(&mut self, id: &RGAId)
        requires
            rga_model::distinct(old(self)@.nodes),
            forall|x: IdView| #[trigger]
                old(self)@.graves.contains(x) ==> !rga_model::contains_id(old(self)@.nodes, x),
        ensures
            final(self).owner() == old(self).owner(),
            final(self)@ == rga_model::interred(
                ListView { graves: old(self)@.graves.insert(id@), ..old(self)@ },
            ),
    {
        let ghost before = self@;
        let ghost graves = before.graves.insert(id@);
        let ghost goal = rga_model::interred(ListView { graves, ..before });
        match self.pos_of(id) {
            Some(p) => {
                self.nodes[p].deleted = true;
                proof {
                    assert forall|j: int| 0 <= j < before.nodes.len() implies #[trigger] self@.nodes[j]
                        == goal.nodes[j] by {
                        assert(rga_model::stands_at(before.nodes, j, before.nodes[j].id));
                        if j != p {
                            assert(before.nodes[j].id != before.nodes[p as int].id);
                        }
                    }
                    assert(self@.nodes =~= goal.nodes);
                    assert(self@.graves =~= goal.graves);
                }
            },
            None => {
                let ghost ids = self.graves@;
                if !among(&self.graves, id) {
                    self.graves.push(id.clone());
                    proof {
                        lemma_id_set_push(ids, self.graves@.last());
                        assert(self.graves@ =~= ids.push(self.graves@.last()));
                    }
                }
                proof {
                    assert(self@.graves =~= graves);
                    assert forall|j: int| 0 <= j < before.nodes.len() implies #[trigger] self@.nodes[j]
                        == goal.nodes[j] by {
                        assert(rga_model::stands_at(before.nodes, j, before.nodes[j].id));
                    }
                    assert(self@.nodes =~= goal.nodes);
                    assert(self@.graves =~= goal.graves);
                }
            },
        }
    }

    /// Makes tombstones of the elements that have arrived after their deletion.
    fn inter(&mut self)
        requires
            rga_model::distinct(old(self)@.nodes),
        ensures
            final(self).owner() == old(self).owner(),
            final(self)@ == rga_model::interred(old(self)@),
    {
        let ghost before = self@;
        let mut graves: Vec<RGAId> = Vec::new();
        std::mem::swap(&mut graves, &mut self.graves);
        let ghost ids = graves@;
        let ghost bare = ListView { graves: id_set(ids.take(0)), ..before };
        proof {
            assert(self@.graves =~= Set::empty());
            assert(bare.graves =~= Set::empty());
            assert(rga_model::entombed(before.nodes, Set::empty()) =~= before.nodes);
            assert(rga_model::interred(bare).graves =~= Set::empty());
        }
        let mut i: usize = 0;
        while i < graves.len()
            invariant
                i <= graves.len(),
                graves@ == ids,
                self.owner() == old(self).owner(),
                rga_model::distinct(before.nodes),
                rga_model::distinct(self@.nodes),
                self@ == rga_model::interred(
                    ListView { graves: id_set(ids.take(i as int)), ..before },
                ),
            decreases graves.len() - i,
        {
            let ghost sofar = ListView { graves: id_set(ids.take(i as int)), ..before };
            proof {
                rga_facts::lemma_interred(sofar);
                lemma_id_set_take(ids, i as int);
                let one = Set::<IdView>::empty().insert(ids[i as int]@);
                rga_facts::lemma_inter_more(sofar, one);
                assert(self@.graves.union(one) =~= self@.graves.insert(ids[i as int]@));
                assert(sofar.graves.union(one) =~= id_set(ids.take(i + 1)));
            }
            self.bury(&graves[i]);
            proof {
                rga_facts::lemma_interred(
                    ListView { graves: id_set(ids.take(i + 1)), ..before },
                );
            }
            i += 1;
        }
        assert(ids.take(i as int) =~= ids);
    }

    /// Applies an operation, of this replica or of another.
    ///
    /// An insertion behind an element that has not arrived is held back, and
    /// tried again whenever the list grows.  A deletion of an element that has not
    /// arrived is remembered until it does.
    pub fn apply(&mut self, op: RGAOp<T>)
        requires
            old(self)@.well_formed(),
        ensures
            final(self)@.well_formed(),
            final(self).owner() == old(self).owner(),
            final(self)@ == rga_model::receive(old(self)@, op@),
    {
        let op_clock: u64 = match &op {
            RGAOp::Insert { id, .. } => id.clock,
            RGAOp::Delete { id } => id.clock,
        };
        if op_clock > self.clock {
            self.clock = op_clock;
        }
        proof {
            rga_facts::lemma_receive(old(self)@, op@);
            rga_facts::lemma_step(old(self)@.nodes, op@, self@.clock);
        }
        match &op {
            RGAOp::Delete { id } => {
                self.bury(id);
                return;
            },
            RGAOp::Insert { .. } => {},
        }
        if self.try_apply_one(op) {
            let ghost goal = rga_model::settle(self@.nodes, self@.pending);
            let mut progress = true;
            while progress
                invariant
                    self.owner() == old(self).owner(),
                    self@.clock == rga_model::later(old(self)@.clock, op@.target().clock),
                    self@.graves == old(self)@.graves,
                    rga_model::distinct(self@.nodes),
                    rga_facts::nodes_within(self@.nodes, self@.clock),
                    rga_facts::ops_within(self@.pending, self@.clock),
                    progress ==> rga_model::settle(self@.nodes, self@.pending) == goal,
                    !progress ==> (self@.nodes, self@.pending) == goal,
                decreases
                        self.pending.len(),
                        if progress {
                            1int
                        } else {
                            0
                        },
            {
                let ghost nodes0 = self@.nodes;
                let ghost pending0 = self@.pending;
                proof {
                    rga_facts::lemma_sweep(nodes0, Seq::empty(), pending0, self@.clock);
                }
                progress = self.retry_pending();
            }
            self.inter();
        }
    }

    /// Tries each of the operations held back once more, in the order in which
    /// they came.  Says whether any could be applied.
    fn retry_pending(&mut self) -> (progress: bool)
        requires
            rga_model::distinct(old(self)@.nodes),
        ensures
            final(self).owner() == old(self).owner(),
            final(self)@.clock == old(self)@.clock,
            final(self)@.graves == old(self)@.graves,
            (final(self)@.nodes, final(self)@.pending) == rga_model::sweep(
                old(self)@.nodes,
                Seq::empty(),
                old(self)@.pending,
            ),
            progress == (final(self)@.pending.len() < old(self)@.pending.len()),
    {
        let mut todo: Vec<RGAOp<T>> = Vec::new();
        std::mem::swap(&mut todo, &mut self.pending);
        assert(self@.pending =~= Seq::empty());
        let ghost ops = todo@;
        assert(op_views(ops).skip(0) =~= op_views(ops));
        let mut progress = false;
        for op in it: todo
            invariant
                self.owner() == old(self).owner(),
                self@.clock == old(self)@.clock,
                self@.graves == old(self)@.graves,
                it.seq() == ops,
                op_views(ops) == old(self)@.pending,
                rga_model::distinct(self@.nodes),
                self@.pending.len() <= it.index(),
                progress == (self@.pending.len() < it.index()),
                rga_model::sweep(self@.nodes, self@.pending, op_views(ops).skip(it.index()))
                    == rga_model::sweep(old(self)@.nodes, Seq::empty(), old(self)@.pending),
        {
            proof {
                let k = it.index();
                assert(op_views(ops).skip(k)[0] == op@);
                assert(op_views(ops).skip(k).drop_first() =~= op_views(ops).skip(k + 1));
                rga_facts::lemma_step(self@.nodes, op@, 0);
            }
            if self.try_apply_one(op) {
                progress = true;
            }
        }
        progress
    }

    /// Inserts `value` at the visible index `index` and applies the insertion.
    ///
    /// The operation is returned for the other replicas.
    pub fn insert(&mut self, index: usize, value: T) -> (op: RGAOp<T>)
        requires
            old(self)@.well_formed(),
            old(self)@.clock < u64::MAX,
            index <= rga_model::visible(old(self)@.nodes).len(),
        ensures
            final(self)@.well_formed(),
            final(self).owner() == old(self).owner(),
            op@ == rga_model::insertion(old(self)@, old(self).owner(), index as int, value),
            exists|copy: OpView<T>|
                {
                    &&& #[trigger] cloned_op(op@, copy)
                    &&& final(self)@ == rga_model::receive(old(self)@, copy)
                },
            copies::exact_values::<T>() ==> final(self)@ == rga_model::receive(old(self)@, op@),
    {
        let op = self.insert_op(index, value);
        let copy = op.clone();
        assert(cloned_op(op@, copy@));
        self.apply(copy);
        op
    }

    /// Deletes the element at the visible index `index` and applies the deletion;
    /// `None` if there is no such element.
    ///
    /// The operation is returned for the other replicas.
    pub fn delete(&mut self, index: usize) -> (op: Option<RGAOp<T>>)
        requires
            old(self)@.well_formed(),
        ensures
            final(self)@.well_formed(),
            final(self).owner() == old(self).owner(),
            match op {
                Some(o) => {
                    &&& index < rga_model::visible(old(self)@.nodes).len()
                    &&& o@ == rga_model::deletion(old(self)@.nodes, index as int)
                    &&& final(self)@ == rga_model::receive(old(self)@, o@)
                },
                None => index >= rga_model::visible(old(self)@.nodes).len() && final(self)@ == old(
                    self,
                )@,
            },
    {
        match self.delete_op(index) {
            None => None,
            Some(op) => {
                self.apply(op.clone());
                Some(op)
            },
        }
    }

    /// Drops the tombstones of elements inserted at or before `before_ts`.
    ///
    /// Deletions of elements that have not arrived stay on record.
    pub fn prune_tombstones(&mut self, before_ts: u64)
        requires
            old(self)@.well_formed(),
        ensures
            final(self)@.well_formed(),
            final(self).owner() == old(self).owner(),
            final(self)@ == (ListView {
                nodes: rga_model::pruned(old(self)@.nodes, before_ts),
                ..old(self)@
            }),
            rga_model::visible(final(self)@.nodes) == rga_model::visible(old(self)@.nodes),
    {
        let mut all: Vec<RGANode<T>> = Vec::new();
        std::mem::swap(&mut all, &mut self.nodes);
        let ghost nodes = all@;
        assert(self@.nodes =~= rga_model::pruned(node_views(nodes).take(0), before_ts));
        for node in it: all
            invariant
                self.owner() == old(self).owner(),
                self@.clock == old(self)@.clock,
                self@.pending == old(self)@.pending,
                self@.graves == old(self)@.graves,
                it.seq() == nodes,
                node_views(nodes) == old(self)@.nodes,
                self@.nodes == rga_model::pruned(node_views(nodes).take(it.index()), before_ts),
        {
            let ghost sofar = self@.nodes;
            proof {
                rga_facts::lemma_pruned_take(node_views(nodes), it.index(), before_ts);
            }
            if !node.deleted || node.id.clock > before_ts {
                self.nodes.push(node);
                assert(self@.nodes =~= sofar.push(node@));
            }
        }
        proof {
            assert(node_views(nodes).take(nodes.len() as int) =~= node_views(nodes));
            rga_facts::lemma_pruned(old(self)@, before_ts);
        }
    }

    /// Takes over the state of another replica: its deletions, its elements, and the
    /// operations that it holds back.
    pub fn merge(&mut self, other: &RGA<T>)
        requires
            old(self)@.well_formed(),
            other@.well_formed(),
        ensures
            final(self)@.well_formed(),
            final(self).owner() == old(self).owner(),
            exists|copy: ListView<T>|
                {
                    &&& #[trigger] cloned_list(other@, copy)
                    &&& final(self)@ == rga_model::merged(old(self)@, copy)
                },
            copies::exact_values::<T>() ==> final(self)@ == rga_model::merged(old(self)@, other@),
    {
        if other.clock > self.clock {
            self.clock = other.clock;
        }
        self.mourn(other);
        let ghost start = self@;
        proof {
            assert(start == rga_model::mourning(old(self)@, other@));
            rga_facts::lemma_mourning(old(self)@, other@);
        }
        let ghost mut nodes: Seq<NodeView<T>> = Seq::empty();
        let mut i: usize = 0;
        while i < other.nodes.len()
            invariant
                i <= other.nodes.len(),
                self@.well_formed(),
                other@.well_formed(),
                self.owner() == old(self).owner(),
                rga_model::cloned_nodes(other@.nodes.take(i as int), nodes),
                self@ == rga_model::absorb(start, nodes, i as int),
            decreases other.nodes.len() - i,
        {
            let node = &other.nodes[i];
            let ghost sofar = nodes;
            if self.pos_of(&node.id).is_none() {
                let after_id = if i == 0 {
                    None
                } else {
                    Some(other.nodes[i - 1].id.clone())
                };
                let value = node.value.clone();
                proof {
                    nodes = nodes.push(NodeView { value, ..node@ });
                }
                let op = RGAOp::Insert { id: node.id.clone(), after_id, value };
                assert(op@ == rga_model::transfer_op(nodes, i as int)) by {
                    if i > 0 {
                        assert(nodes[i - 1].id == other@.nodes.take(i as int)[i - 1].id);
                    }
                }
                self.apply(op);
            } else {
                proof {
                    nodes = nodes.push(node@);
                }
            }
            proof {
                assert(sofar.take(i as int) =~= nodes.take(i as int));
                rga_facts::lemma_absorb_prefix(start, sofar, nodes, i as int);
            }
            i += 1;
        }
        assert(other@.nodes.take(i as int) =~= other@.nodes);
        let ghost all = self@;
        let ghost mut ops: Seq<OpView<T>> = Seq::empty();
        let mut k: usize = 0;
        while k < other.pending.len()
            invariant
                k <= other.pending.len(),
                self@.well_formed(),
                self.owner() == old(self).owner(),
                cloned_ops(other@.pending.take(k as int), ops),
                self@ == rga_model::take_over(all, ops, k as int),
            decreases other.pending.len() - k,
        {
            let ghost sofar = ops;
            let op = &other.pending[k];
            if self.knows(op) {
                proof {
                    ops = ops.push(op@);
                }
            } else {
                let copy = op.clone();
                proof {
                    ops = ops.push(copy@);
                }
                self.apply(copy);
            }
            proof {
                assert(sofar.take(k as int) =~= ops.take(k as int));
                rga_facts::lemma_take_over_prefix(all, sofar, ops, k as int);
                assert forall|j: int| 0 <= j < k + 1 implies cloned_op(
                    other@.pending.take(k + 1)[j],
                    #[trigger] ops[j],
                ) by {
                    if j < k {
                        assert(cloned_op(other@.pending.take(k as int)[j], sofar[j]));
                    }
                }
            }
            k += 1;
        }
        proof {
            assert(other@.pending.take(k as int) =~= other@.pending);
            let copy = ListView { nodes, pending: ops, ..other@ };
            assert(cloned_list(other@, copy));
            lemma_buried_clones(other@.nodes, nodes);
            assert(rga_model::mourning(old(self)@, copy) == start);
            assert(self@ == rga_model::merged(old(self)@, copy));
            if copies::exact_values::<T>() {
                lemma_exact_copy(other@, copy);
            }
        }
    }

    /// Takes note of the deletions that arrived at another replica.
    fn mourn(&mut self, other: &RGA<T>)
        requires
            old(self)@.well_formed(),
            other@.well_formed(),
        ensures
            final(self).owner() == old(self).owner(),
            final(self)@ == rga_model::interred(
                ListView {
                    graves: old(self)@.graves.union(rga_model::buried_ids(other@.nodes)).union(
                        other@.graves,
                    ),
                    ..old(self)@
                },
            ),
    {
        let ghost before = self@;
        let ghost own = before.graves;
        let ghost all = other@.nodes;
        proof {
            let none = rga_model::buried_ids(all.take(0));
            assert forall|x: IdView| !none.contains(x) by {}
            assert(own.union(none) =~= own);
            rga_facts::lemma_interred_already(before, own);
        }
        let mut i: usize = 0;
        while i < other.nodes.len()
            invariant
                i <= other.nodes.len(),
                all == other@.nodes,
                before.well_formed(),
                self.owner() == old(self).owner(),
                own == before.graves,
                self@ == rga_model::interred(
                    ListView {
                        graves: own.union(rga_model::buried_ids(all.take(i as int))),
                        ..before
                    },
                ),
            decreases other.nodes.len() - i,
        {
            let ghost less = rga_model::buried_ids(all.take(i as int));
            let ghost more = rga_model::buried_ids(all.take(i + 1));
            let ghost sofar = ListView { graves: own.union(less), ..before };
            proof {
                rga_facts::lemma_interred(sofar);
                rga_facts::lemma_tombstones_take(all, i as int);
                let one = Set::<IdView>::empty().insert(all[i as int].id);
                rga_facts::lemma_inter_more(sofar, one);
                assert(self@.graves.union(one) =~= self@.graves.insert(all[i as int].id));
                if all[i as int].deleted {
                    assert(sofar.graves.union(one) =~= own.union(more));
                } else {
                    assert(sofar.graves =~= own.union(more));
                }
            }
            if other.nodes[i].deleted {
                self.bury(&other.nodes[i].id);
            }
            i += 1;
        }
        assert(all.take(i as int) =~= all);
        let ghost both = own.union(rga_model::buried_ids(all));
        proof {
            assert(both.union(id_set(other.graves@.take(0))) =~= both);
        }
        let mut k: usize = 0;
        while k < other.graves.len()
            invariant
                k <= other.graves.len(),
                before.well_formed(),
                self.owner() == old(self).owner(),
                self@ == rga_model::interred(
                    ListView {
                        graves: both.union(id_set(other.graves@.take(k as int))),
                        ..before
                    },
                ),
            decreases other.graves.len() - k,
        {
            let ghost less = id_set(other.graves@.take(k as int));
            let ghost more = id_set(other.graves@.take(k + 1));
            let ghost sofar = ListView { graves: both.union(less), ..before };
            let ghost x = other.graves@[k as int]@;
            proof {
                rga_facts::lemma_interred(sofar);
                lemma_id_set_take(other.graves@, k as int);
                let one = Set::<IdView>::empty().insert(x);
                rga_facts::lemma_inter_more(sofar, one);
                assert(self@.graves.union(one) =~= self@.graves.insert(x));
                assert(sofar.graves.union(one) =~= both.union(more));
            }
            self.bury(&other.graves[k]);
            k += 1;
        }
        assert(other.graves@.take(k as int) =~= other.graves@);
    }

    /// Whether the insertion of the element that `op` is about has arrived.
    fn knows(&self, op: &RGAOp<T>) -> (known: bool)
        ensures
            known == rga_model::known(self@, op@.target()),
    {
        let id = match op {
            RGAOp::Insert { id, .. } => id,
            RGAOp::Delete { id } => id,
        };
        if self.pos_of(id).is_some() {
            return true;
        }
        let mut i: usize = 0;
        while i < self.pending.len()
            invariant
                i <= self.pending.len(),
                id@ == op@.target(),
                forall|j: int| 0 <= j < i ==> (#[trigger] self@.pending[j]).target() != id@,
            decreases self.pending.len() - i,
        {
            let held = match &self.pending[i] {
                RGAOp::Insert { id, .. } => id,
                RGAOp::Delete { id } => id,
            };
            assert(self@.pending[i as int].target() == held@);
            if *held == *id {
                return true;
            }
            i += 1;
        }
        false
    }
}

/// Clones of elements are tombstones where the elements are.
proof fn lemma_buried_clones<T: Clone>(nodes: Seq<NodeView<T>>, copies: Seq<NodeView<T>>)
    requires
        rga_model::cloned_nodes(nodes, copies),
    ensures
        rga_model::buried_ids(copies) == rga_model::buried_ids(nodes),
{
    let (a, b) = (rga_model::buried_ids(copies), rga_model::buried_ids(nodes));
    assert forall|x: IdView| #[trigger] a.contains(x) <==> b.contains(x) by {
        if rga_model::buried(copies, x) {
            let i = choose|i: int| rga_model::stands_at(copies, i, x) && copies[i].deleted;
            assert(rga_model::stands_at(nodes, i, x) && nodes[i].deleted);
        }
        if rga_model::buried(nodes, x) {
            let i = choose|i: int| rga_model::stands_at(nodes, i, x) && nodes[i].deleted;
            assert(copies[i].id == x);
            assert(rga_model::stands_at(copies, i, x) && copies[i].deleted);
        }
    }
    assert(a =~= b);
}

/// A copy whose values are the same is the same.
proof fn lemma_exact_copy<T: Clone>(list: ListView<T>, copy: ListView<T>)
    requires
        copies::exact_values::<T>(),
        cloned_list(list, copy),
    ensures
        copy == list,
{
    assert forall|i: int| 0 <= i < list.nodes.len() implies copy.nodes[i] == list.nodes[i] by {
        assert(cloned(list.nodes[i].value, copy.nodes[i].value));
    }
    assert(copy.nodes =~= list.nodes);
    assert forall|i: int| 0 <= i < list.pending.len() implies copy.pending[i]
        == list.pending[i] by {
        assert(cloned_op(list.pending[i], copy.pending[i]));
    }
    assert(copy.pending =~= list.pending);
}

/// Identifiers are equal if their clocks and their nodes are, and compare by their clocks
/// first and the names of their nodes then.
pub proof fn law_identifiers_compare(a: RGAId, b: RGAId)
    ensures
        vstd::std_specs::cmp::PartialEqSpec::eq_spec(&a, &b) <==> a.clock == b.clock
            && a.node_id@ == b.node_id@,
        vstd::std_specs::cmp::PartialOrdSpec::partial_cmp_spec(&a, &b) == Some(
            if a.clock < b.clock {
                Ordering::Less
            } else if a.clock > b.clock {
                Ordering::Greater
            } else if a.node_id@ == b.node_id@ {
                Ordering::Equal
            } else if text::text_lt(a.node_id@, b.node_id@) {
                Ordering::Less
            } else {
                Ordering::Greater
            },
        ),
{
}

} // verus!
