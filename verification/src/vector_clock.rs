//! A vector clock: one counter for each node.
//!
//! A node counts its own events, and takes over the counters of others from the
//! messages that it receives.  Comparing two stamps then tells whether one event
//! could have caused the other or whether they are concurrent.

use crate::str_map::StrMap;
use vstd::prelude::*;

verus! {

/// The counter of `node`; nodes without an entry are at 0.
pub open spec fn count(vector: Map<Seq<char>, u64>, node: Seq<char>) -> u64 {
    if vector.contains_key(node) {
        vector[node]
    } else {
        0
    }
}

/// Every counter of `a` is at most that of `b`.
pub open spec fn at_most(a: Map<Seq<char>, u64>, b: Map<Seq<char>, u64>) -> bool {
    forall|node: Seq<char>| #[trigger] count(a, node) <= count(b, node)
}

/// Every counter of `a` is at most that of `b`, and some counter is smaller.
pub open spec fn before(a: Map<Seq<char>, u64>, b: Map<Seq<char>, u64>) -> bool {
    at_most(a, b) && exists|node: Seq<char>| #[trigger] count(a, node) < count(b, node)
}

/// Some counter is greater and some counter is smaller.
pub open spec fn concurrent(a: Map<Seq<char>, u64>, b: Map<Seq<char>, u64>) -> bool {
    &&& exists|node: Seq<char>| #[trigger] count(a, node) > count(b, node)
    &&& exists|node: Seq<char>| #[trigger] count(a, node) < count(b, node)
}

/// All counters are equal.
pub open spec fn same_counts(a: Map<Seq<char>, u64>, b: Map<Seq<char>, u64>) -> bool {
    forall|node: Seq<char>| #[trigger] count(a, node) == count(b, node)
}

/// The vector with the counter of `node` moved on by one.
pub open spec fn counted(vector: Map<Seq<char>, u64>, node: Seq<char>) -> Map<Seq<char>, u64> {
    vector.insert(node, (count(vector, node) + 1) as u64)
}

/// The greater of the two counters for each node.
pub open spec fn union_max(
    a: Map<Seq<char>, u64>,
    b: Map<Seq<char>, u64>,
) -> Map<Seq<char>, u64> {
    Map::new(
        |node: Seq<char>| a.contains_key(node) || b.contains_key(node),
        |node: Seq<char>|
            if count(a, node) < count(b, node) {
                count(b, node)
            } else {
                count(a, node)
            },
    )
}

/// The state of a vector clock, to be attached to a message.  Nodes without an
/// entry are at 0.
#[derive(Debug)]
pub struct VectorTimestamp(pub StrMap<u64>);

impl View for VectorTimestamp {
    type V = Map<Seq<char>, u64>;

    open spec fn view(&self) -> Map<Seq<char>, u64> {
        self.0@
    }
}

impl VectorTimestamp {
    /// No node occurs twice.
    pub open spec fn well_formed(&self) -> bool {
        self.0.well_formed()
    }

    fn counter(&self, node: &str) -> (value: u64)
        ensures
            value == count(self@, node@),
    {
        match self.0.get(node) {
            Some(value) => *value,
            None => 0,
        }
    }

    /// Whether some counter of `self` is greater than that of `other`.
    fn ahead_of(&self, other: &VectorTimestamp) -> (found: bool)
        ensures
            found == exists|node: Seq<char>| #[trigger] count(self@, node) > count(other@, node),
    {
        let mut i: usize = 0;
        while i < self.0.len()
            invariant
                i <= self.0.keys().len(),
                forall|j: int|
                    0 <= j < i ==> count(self@, #[trigger] self.0.keys()[j]) <= count(
                        other@,
                        self.0.keys()[j],
                    ),
            decreases self.0.keys().len() - i,
        {
            let node = self.0.key_at(i);
            if self.counter(node) > other.counter(node) {
                assert(count(self@, node@) > count(other@, node@));
                return true;
            }
            i += 1;
        }
        proof {
            self.0.lemma_keys();
            assert forall|node: Seq<char>| #[trigger] count(self@, node) <= count(
                other@,
                node,
            ) by {
                if self@.contains_key(node) {
                    let j = choose|j: int| 0 <= j < self.0.keys().len() && self.0.keys()[j] == node;
                    assert(count(self@, self.0.keys()[j]) <= count(other@, self.0.keys()[j]));
                }
            }
        }
        false
    }

    /// Whether `self` happened before `other`: no counter is greater, and at least
    /// one is smaller.
    pub fn happened_before(&self, other: &VectorTimestamp) -> (earlier: bool)
        ensures
            earlier == before(self@, other@),
    {
        if self.ahead_of(other) {
            return false;
        }
        let earlier = other.ahead_of(self);
        proof {
            if earlier {
                let node = choose|node: Seq<char>| #[trigger]
                    count(other@, node) > count(self@, node);
                assert(count(self@, node) < count(other@, node));
            } else if before(self@, other@) {
                let node = choose|node: Seq<char>| #[trigger]
                    count(self@, node) < count(other@, node);
                assert(count(other@, node) > count(self@, node));
            }
        }
        earlier
    }

    /// Whether neither happened before the other and they are not equal.  An entry that
    /// is missing counts as 0.
    pub fn concurrent_with(&self, other: &VectorTimestamp) -> (independent: bool)
        ensures
            independent == concurrent(self@, other@),
            independent == (!before(self@, other@) && !before(other@, self@) && !same_counts(
                self@,
                other@,
            )),
    {
        let independent = self.ahead_of(other) && other.ahead_of(self);
        proof {
            law_stamps_compare(self@, other@);
            if independent {
                let node = choose|node: Seq<char>| #[trigger]
                    count(other@, node) > count(self@, node);
                assert(count(self@, node) < count(other@, node));
            }
            if concurrent(self@, other@) {
                let node = choose|node: Seq<char>| #[trigger]
                    count(self@, node) < count(other@, node);
                assert(count(other@, node) > count(self@, node));
            }
        }
        independent
    }

    /// Whether every entry of `self` is in `other` with the same counter.
    fn within(&self, other: &VectorTimestamp) -> (all: bool)
        ensures
            all == forall|node: Seq<char>| #[trigger]
                self@.contains_key(node) ==> other@.contains_key(node) && other@[node]
                    == self@[node],
    {
        let mut i: usize = 0;
        while i < self.0.len()
            invariant
                i <= self.0.keys().len(),
                forall|j: int|
                    #![trigger self.0.keys()[j]]
                    0 <= j < i ==> other@.contains_key(self.0.keys()[j])
                        && other@[self.0.keys()[j]] == self@[self.0.keys()[j]],
            decreases self.0.keys().len() - i,
        {
            let node = self.0.key_at(i);
            match other.0.get(node) {
                None => {
                    assert(self@.contains_key(node@));
                    return false;
                },
                Some(value) => {
                    if *value != self.counter(node) {
                        assert(self@.contains_key(node@));
                        return false;
                    }
                },
            }
            i += 1;
        }
        proof {
            self.0.lemma_keys();
            assert forall|node: Seq<char>| #[trigger]
                self@.contains_key(node) implies other@.contains_key(node) && other@[node]
                == self@[node] by {
                let j = choose|j: int| 0 <= j < self.0.keys().len() && self.0.keys()[j] == node;
                assert(other@.contains_key(self.0.keys()[j]));
            }
        }
        true
    }

    fn same(&self, other: &VectorTimestamp) -> (equal: bool)
        ensures
            equal == (self@ == other@),
    {
        let equal = self.within(other) && other.within(self);
        proof {
            if equal {
                assert(self@ =~= other@) by {
                    assert forall|node: Seq<char>| #[trigger]
                        self@.contains_key(node) <==> other@.contains_key(node) by {}
                    assert forall|node: Seq<char>| #[trigger]
                        self@.contains_key(node) implies self@[node] == other@[node] by {}
                }
            }
        }
        equal
    }
}

impl Clone for VectorTimestamp {
    fn clone(&self) -> (copy: Self)
        ensures
            copy@ == self@,
            copy.well_formed() == self.well_formed(),
    {
        let copy = VectorTimestamp(self.0.clone());
        assert(copy@ =~= self@);
        copy
    }
}

impl PartialEq for VectorTimestamp {
    fn eq(&self, other: &Self) -> (equal: bool) {
        self.same(other)
    }
}

impl vstd::std_specs::cmp::PartialEqSpecImpl for VectorTimestamp {
    open spec fn obeys_eq_spec() -> bool {
        true
    }

    open spec fn eq_spec(&self, other: &Self) -> bool {
        self@ == other@
    }
}

impl Eq for VectorTimestamp {

}

/// The vector clock of one node.
#[derive(Debug)]
pub struct VectorClock {
    node_id: String,
    vector: StrMap<u64>,
}

impl View for VectorClock {
    type V = Map<Seq<char>, u64>;

    closed spec fn view(&self) -> Map<Seq<char>, u64> {
        self.vector@
    }
}

impl VectorClock {
    /// The node that this clock belongs to.
    pub closed spec fn owner(&self) -> Seq<char> {
        self.node_id@
    }

    /// No node occurs twice.
    pub closed spec fn well_formed(&self) -> bool {
        self.vector.well_formed()
    }

    /// A clock for `node_id` with all counters at 0.
    pub fn new(node_id: &str) -> (clock: Self)
        ensures
            clock.well_formed(),
            clock.owner() == node_id@,
            clock@ == Map::<Seq<char>, u64>::empty(),
    {
        VectorClock { node_id: node_id.to_owned(), vector: StrMap::new() }
    }

    /// The counter of this node.
    pub fn local_time(&self) -> (time: u64)
        ensures
            time == count(self@, self.owner()),
    {
        match self.vector.get(self.node_id.as_str()) {
            Some(time) => *time,
            None => 0,
        }
    }

    /// Counts a local event or a message to be sent, and returns the stamp for it.
    pub fn increment(&mut self) -> (stamp: VectorTimestamp)
        requires
            old(self).well_formed(),
            count(old(self)@, old(self).owner()) < u64::MAX,
        ensures
            final(self).well_formed(),
            final(self).owner() == old(self).owner(),
            final(self)@ == counted(old(self)@, old(self).owner()),
            final(self)@ == old(self)@.insert(
                old(self).owner(),
                final(self)@[old(self).owner()],
            ),
            old(self)@.contains_key(old(self).owner()) ==> final(self)@[old(self).owner()]
                == old(self)@[old(self).owner()] + 1,
            !old(self)@.contains_key(old(self).owner()) ==> final(self)@[old(self).owner()] == 1,
            stamp.well_formed(),
            stamp@ == final(self)@,
    {
        let time: u64 = self.local_time();
        self.vector.insert(self.node_id.as_str(), time + 1);
        self.snapshot()
    }

    /// Takes over the counters of `received` that are ahead, and counts the receipt.
    pub fn update(&mut self, received: &VectorTimestamp)
        requires
            old(self).well_formed(),
            received.well_formed(),
            count(old(self)@, old(self).owner()) < u64::MAX,
            count(received@, old(self).owner()) < u64::MAX,
        ensures
            final(self).well_formed(),
            final(self).owner() == old(self).owner(),
            final(self)@ == counted(union_max(old(self)@, received@), old(self).owner()),
            forall|node: Seq<char>| #[trigger]
                final(self)@.contains_key(node) <==> node == old(self).owner()
                    || old(self)@.contains_key(node) || received@.contains_key(node),
            forall|node: Seq<char>|
                #![trigger final(self)@[node]]
                node != old(self).owner() && final(self)@.contains_key(node) ==> {
                    &&& old(self)@.contains_key(node) && final(self)@[node] == old(self)@[node]
                        || received@.contains_key(node) && final(self)@[node] == received@[node]
                    &&& old(self)@.contains_key(node) ==> old(self)@[node] <= final(self)@[node]
                    &&& received@.contains_key(node) ==> received@[node] <= final(self)@[node]
                },
    {
        let ghost start = self.vector@;
        let mut i: usize = 0;
        while i < received.0.len()
            invariant
                i <= received.0.keys().len(),
                received.well_formed(),
                self.vector.well_formed(),
                self.node_id == old(self).node_id,
                start == old(self).vector@,
                forall|node: Seq<char>| #[trigger]
                    self.vector@.contains_key(node) <==> start.contains_key(node)
                        || received.0.keys().take(i as int).contains(node),
                forall|node: Seq<char>| #[trigger]
                    self.vector@.contains_key(node) ==> self.vector@[node] == (
                    if received.0.keys().take(i as int).contains(node) && count(start, node)
                        < count(received@, node) {
                        count(received@, node)
                    } else {
                        count(start, node)
                    }),
            decreases received.0.keys().len() - i,
        {
            let node = received.0.key_at(i);
            let time: u64 = *received.0.value_at(i);
            let ghost before = self.vector@;
            let ghost key = node@;
            let slot = self.vector.entry(node, 0);
            if time > *slot {
                *slot = time;
            }
            proof {
                let keys = received.0.keys();
                let less = keys.take(i as int);
                let more = keys.take(i + 1);
                assert(more =~= less.push(key));
                assert(!less.contains(key)) by {
                    if less.contains(key) {
                        let j = choose|j: int| 0 <= j < less.len() && less[j] == key;
                        assert(keys[j] == keys[i as int]);
                    }
                }
                assert forall|n: Seq<char>| #[trigger]
                    more.contains(n) <==> less.contains(n) || n == key by {
                    if more.contains(n) {
                        let j = choose|j: int| 0 <= j < more.len() && more[j] == n;
                        if j < i {
                            assert(less[j] == n);
                        }
                    }
                    if less.contains(n) {
                        let j = choose|j: int| 0 <= j < less.len() && less[j] == n;
                        assert(more[j] == n);
                    }
                    if n == key {
                        assert(more[i as int] == n);
                    }
                }
            }
            i += 1;
        }
        proof {
            let keys = received.0.keys();
            assert(keys.take(keys.len() as int) =~= keys);
            received.0.lemma_keys();
            assert(self.vector@ =~= union_max(start, received@));
        }
        let time: u64 = self.local_time();
        self.vector.insert(self.node_id.as_str(), time + 1);
    }

    /// The current counters as a stamp.  The clock does not move.
    pub fn snapshot(&self) -> (stamp: VectorTimestamp)
        requires
            self.well_formed(),
        ensures
            stamp.well_formed(),
            stamp@ == self@,
    {
        let stamp = VectorTimestamp(self.vector.clone());
        assert(stamp@ =~= self@);
        stamp
    }
}

impl Clone for VectorClock {
    fn clone(&self) -> (copy: Self)
        ensures
            copy@ == self@,
            copy.owner() == self.owner(),
            copy.well_formed() == self.well_formed(),
    {
        let copy = VectorClock { node_id: self.node_id.clone(), vector: self.vector.clone() };
        assert(copy@ =~= self@);
        copy
    }
}

/// Nothing happened before itself.
pub proof fn law_before_irreflexive(a: Map<Seq<char>, u64>)
    ensures
        !before(a, a),
{
}

/// Of two stamps at most one happened before the other.
pub proof fn law_before_asymmetric(a: Map<Seq<char>, u64>, b: Map<Seq<char>, u64>)
    requires
        before(a, b),
    ensures
        !before(b, a),
{
    let node = choose|node: Seq<char>| #[trigger] count(a, node) < count(b, node);
    if before(b, a) {
        assert(count(b, node) <= count(a, node));
    }
}

/// Happening before is transitive.
pub proof fn law_before_transitive(
    a: Map<Seq<char>, u64>,
    b: Map<Seq<char>, u64>,
    c: Map<Seq<char>, u64>,
)
    requires
        before(a, b),
        before(b, c),
    ensures
        before(a, c),
{
    assert forall|node: Seq<char>| #[trigger] count(a, node) <= count(c, node) by {
        assert(count(a, node) <= count(b, node));
        assert(count(b, node) <= count(c, node));
    }
    let node = choose|node: Seq<char>| #[trigger] count(a, node) < count(b, node);
    assert(count(b, node) <= count(c, node));
    assert(count(a, node) < count(c, node));
}

/// Two stamps have equal counters, or one happened before the other, or they are
/// concurrent; and only one of these holds.
pub proof fn law_stamps_compare(a: Map<Seq<char>, u64>, b: Map<Seq<char>, u64>)
    ensures
        same_counts(a, b) || before(a, b) || before(b, a) || concurrent(a, b),
        same_counts(a, b) ==> !before(a, b) && !before(b, a) && !concurrent(a, b),
        before(a, b) ==> !before(b, a) && !concurrent(a, b),
        concurrent(a, b) <==> concurrent(b, a),
{
    if before(a, b) {
        law_before_asymmetric(a, b);
    }
    assert forall|node: Seq<char>| #[trigger] count(a, node) < count(b, node) implies exists|
        n: Seq<char>,
    | #[trigger] count(b, n) > count(a, n) by {
        assert(count(b, node) > count(a, node));
    }
    if concurrent(a, b) {
        let m = choose|m: Seq<char>| #[trigger] count(a, m) > count(b, m);
        let n = choose|n: Seq<char>| #[trigger] count(a, n) < count(b, n);
        assert(count(b, m) < count(a, m));
        assert(count(b, n) > count(a, n));
    }
    if concurrent(b, a) {
        let m = choose|m: Seq<char>| #[trigger] count(b, m) > count(a, m);
        let n = choose|n: Seq<char>| #[trigger] count(b, n) < count(a, n);
        assert(count(a, m) < count(b, m));
        assert(count(a, n) > count(b, n));
    }
    if !same_counts(a, b) {
        let k = choose|k: Seq<char>| #[trigger] count(a, k) != count(b, k);
        if !at_most(a, b) {
            let m = choose|m: Seq<char>| #[trigger] count(a, m) > count(b, m);
            assert(count(b, m) < count(a, m));
            if !at_most(b, a) {
                let n = choose|n: Seq<char>| #[trigger] count(b, n) > count(a, n);
                assert(count(a, n) < count(b, n));
            }
        } else {
            assert(count(a, k) < count(b, k));
        }
    }
}

/// A local event comes after everything that the node knew.
pub proof fn law_increment_is_later(vector: Map<Seq<char>, u64>, node: Seq<char>)
    requires
        count(vector, node) < u64::MAX,
    ensures
        before(vector, counted(vector, node)),
{
    let next = counted(vector, node);
    assert forall|n: Seq<char>| #[trigger] count(vector, n) <= count(next, n) by {}
    assert(count(vector, node) < count(next, node));
}

/// The receipt of a message comes after the message, and after everything that
/// the receiver knew.
pub proof fn law_receipt_is_later(
    vector: Map<Seq<char>, u64>,
    received: Map<Seq<char>, u64>,
    node: Seq<char>,
)
    requires
        count(vector, node) < u64::MAX,
        count(received, node) < u64::MAX,
    ensures
        before(received, counted(union_max(vector, received), node)),
        before(vector, counted(union_max(vector, received), node)),
{
    let joined = union_max(vector, received);
    let next = counted(joined, node);
    assert forall|n: Seq<char>| #[trigger] count(received, n) <= count(next, n) by {}
    assert(count(received, node) < count(next, node));
    assert forall|n: Seq<char>| #[trigger] count(vector, n) <= count(next, n) by {}
    assert(count(vector, node) < count(next, node));
}

/// Events of different nodes, neither of which knows of the other, are concurrent.
pub proof fn law_unknowing_events_are_concurrent(
    a: Map<Seq<char>, u64>,
    b: Map<Seq<char>, u64>,
    m: Seq<char>,
    n: Seq<char>,
)
    requires
        count(a, m) < u64::MAX,
        count(b, n) < u64::MAX,
        m != n,
        count(b, m) <= count(a, m),
        count(a, n) <= count(b, n),
    ensures
        concurrent(counted(a, m), counted(b, n)),
{
    let x = counted(a, m);
    let y = counted(b, n);
    assert(count(x, m) > count(y, m));
    assert(count(x, n) < count(y, n));
}

/// What two stamps have to do with each other is decided node by node, a missing entry
/// counting as 0: the one happened before the other if no counter is greater and some
/// counter is smaller, they are concurrent if some counter is greater and some is
/// smaller.
pub proof fn law_stamps_compare_node_by_node(a: Map<Seq<char>, u64>, b: Map<Seq<char>, u64>)
    ensures
        ({
            let at = |vector: Map<Seq<char>, u64>, node: Seq<char>| -> int
                {
                    if vector.contains_key(node) {
                        vector[node] as int
                    } else {
                        0
                    }
                };
            let behind = exists|node: Seq<char>| #[trigger] at(a, node) < at(b, node);
            let ahead = exists|node: Seq<char>| #[trigger] at(a, node) > at(b, node);
            &&& before(a, b) <==> behind && !ahead
            &&& before(b, a) <==> ahead && !behind
            &&& concurrent(a, b) <==> ahead && behind
            &&& same_counts(a, b) <==> !ahead && !behind
        }),
{
    let at = |vector: Map<Seq<char>, u64>, node: Seq<char>| -> int
        {
            if vector.contains_key(node) {
                vector[node] as int
            } else {
                0
            }
        };
    assert forall|vector: Map<Seq<char>, u64>, node: Seq<char>|
        #![trigger at(vector, node)]
        #![trigger count(vector, node)]
        at(vector, node) == count(vector, node) by {}
    law_stamps_compare(a, b);
    if exists|node: Seq<char>| #[trigger] at(a, node) < at(b, node) {
        let n = choose|node: Seq<char>| #[trigger] at(a, node) < at(b, node);
        assert(count(a, n) < count(b, n));
        assert(count(b, n) > count(a, n));
    }
    if exists|node: Seq<char>| #[trigger] at(a, node) > at(b, node) {
        let n = choose|node: Seq<char>| #[trigger] at(a, node) > at(b, node);
        assert(count(a, n) > count(b, n));
        assert(count(b, n) < count(a, n));
    }
    if exists|node: Seq<char>| #[trigger] count(a, node) < count(b, node) {
        let n = choose|node: Seq<char>| #[trigger] count(a, node) < count(b, node);
        assert(at(a, n) < at(b, n));
    }
    if exists|node: Seq<char>| #[trigger] count(a, node) > count(b, node) {
        let n = choose|node: Seq<char>| #[trigger] count(a, node) > count(b, node);
        assert(at(a, n) > at(b, n));
    }
    if before(b, a) {
        let n = choose|node: Seq<char>| #[trigger] count(b, node) < count(a, node);
        assert(at(a, n) > at(b, n));
    }
}

/// A local event moves the counter of its node on by one, and no other counter.
pub proof fn law_increment_counts_one(
    vector: Map<Seq<char>, u64>,
    owner: Seq<char>,
    node: Seq<char>,
)
    requires
        vector.contains_key(owner) ==> vector[owner] < u64::MAX,
    ensures
        ({
            let next = counted(vector, owner);
            &&& next.contains_key(owner)
            &&& vector.contains_key(owner) ==> next[owner] == vector[owner] + 1
            &&& !vector.contains_key(owner) ==> next[owner] == 1
            &&& node != owner ==> (next.contains_key(node) <==> vector.contains_key(node))
            &&& node != owner && vector.contains_key(node) ==> next[node] == vector[node]
        }),
{
}

/// The receipt of a stamp gives the least vector above what the receiver knew and what
/// came: the counter of a node other than the receiver is one of the two, and no smaller
/// than either; the counter of the receiver is one more than the greater of its two.
/// Nothing is learned of nodes that neither of the two knows of.
pub proof fn law_receipt_takes_over_no_more(
    vector: Map<Seq<char>, u64>,
    received: Map<Seq<char>, u64>,
    owner: Seq<char>,
    node: Seq<char>,
    bound: Map<Seq<char>, u64>,
)
    requires
        vector.contains_key(owner) ==> vector[owner] < u64::MAX,
        received.contains_key(owner) ==> received[owner] < u64::MAX,
    ensures
        ({
            let next = counted(union_max(vector, received), owner);
            let at = |v: Map<Seq<char>, u64>, n: Seq<char>| -> int
                {
                    if v.contains_key(n) {
                        v[n] as int
                    } else {
                        0
                    }
                };
            &&& node != owner ==> {
                &&& next.contains_key(node) <==> vector.contains_key(node)
                    || received.contains_key(node)
                &&& at(next, node) == at(vector, node) || at(next, node) == at(received, node)
                &&& at(next, node) >= at(vector, node)
                &&& at(next, node) >= at(received, node)
                &&& at(bound, node) >= at(vector, node) && at(bound, node) >= at(received, node)
                    ==> at(bound, node) >= at(next, node)
            }
            &&& next.contains_key(owner)
            &&& next[owner] > at(vector, owner)
            &&& next[owner] > at(received, owner)
            &&& next[owner] == at(vector, owner) + 1 || next[owner] == at(received, owner) + 1
        }),
{
}

/// An event of another node that neither the receiver nor the sender of a stamp knew of
/// did not happen before the receipt.
pub proof fn law_unknown_events_did_not_happen_before(
    vector: Map<Seq<char>, u64>,
    received: Map<Seq<char>, u64>,
    owner: Seq<char>,
    event: Map<Seq<char>, u64>,
    node: Seq<char>,
)
    requires
        vector.contains_key(owner) ==> vector[owner] < u64::MAX,
        received.contains_key(owner) ==> received[owner] < u64::MAX,
        node != owner,
        event.contains_key(node),
        event[node] > 0,
        vector.contains_key(node) ==> vector[node] < event[node],
        received.contains_key(node) ==> received[node] < event[node],
    ensures
        !before(event, counted(union_max(vector, received), owner)),
        !before(event, counted(vector, owner)),
{
    let next = counted(union_max(vector, received), owner);
    assert(count(event, node) > count(next, node));
    assert(count(event, node) > count(counted(vector, owner), node));
}

/// Stamps are equal if they have the same entries.
pub proof fn law_stamps_are_equal_entry_by_entry(a: VectorTimestamp, b: VectorTimestamp)
    ensures
        vstd::std_specs::cmp::PartialEqSpec::eq_spec(&a, &b) <==> {
            &&& forall|node: Seq<char>| #[trigger] a@.contains_key(node) <==> b@.contains_key(node)
            &&& forall|node: Seq<char>| #[trigger] a@.contains_key(node) ==> a@[node] == b@[node]
        },
{
    if (forall|node: Seq<char>| #[trigger] a@.contains_key(node) <==> b@.contains_key(node)) && (
    forall|node: Seq<char>| #[trigger] a@.contains_key(node) ==> a@[node] == b@[node]) {
        assert(a@ =~= b@);
    }
}

} // verus!
