//! The store as a mathematical object.

use crate::json::JsonValue;
use crate::lww_register;
use crate::lww_register::WriteView;
use crate::or_set;
use crate::or_set::SetOpView;
use crate::or_set::SetView;
use crate::rga_model;
use crate::rga_model::ListView;
use crate::rga_model::OpView;
use vstd::prelude::*;

verus! {

/// The state of a set of values; an element is the text of its value, without
/// the signs of zeros.
pub type ValueSet = SetView<JsonValue>;

/// The state of a store: its clock, and what is held under each name.
#[verifier::ext_equal]
pub struct StoreView {
    pub clock: u64,
    pub registers: Map<Seq<char>, Option<WriteView<JsonValue>>>,
    pub sets: Map<Seq<char>, ValueSet>,
    pub sequences: Map<Seq<char>, ListView<JsonValue>>,
}

/// An operation on something in a store.
#[verifier::ext_equal]
pub enum StoreOpView {
    Register { key: Seq<char>, op: WriteView<JsonValue> },
    OrSet { key: Seq<char>, op: SetOpView<JsonValue> },
    Sequence { key: Seq<char>, op: OpView<JsonValue> },
}

/// A message between stores.
#[verifier::ext_equal]
pub struct EnvelopeView {
    pub timestamp: u64,
    pub node: Seq<char>,
    pub op: StoreOpView,
}

impl StoreOpView {
    /// The name of what the operation is about.
    pub open spec fn key(self) -> Seq<char> {
        match self {
            StoreOpView::Register { key, .. } => key,
            StoreOpView::OrSet { key, .. } => key,
            StoreOpView::Sequence { key, .. } => key,
        }
    }
}

/// The state of a new store.
pub open spec fn empty_store() -> StoreView {
    StoreView { clock: 0, registers: Map::empty(), sets: Map::empty(), sequences: Map::empty() }
}

impl StoreView {
    /// What the register `key` holds; one that does not exist was never written.
    pub open spec fn register(self, key: Seq<char>) -> Option<WriteView<JsonValue>> {
        if self.registers.contains_key(key) {
            self.registers[key]
        } else {
            None
        }
    }

    /// What is in the set `key`; one that does not exist is empty.
    pub open spec fn set(self, key: Seq<char>) -> ValueSet {
        if self.sets.contains_key(key) {
            self.sets[key]
        } else {
            or_set::empty_set()
        }
    }

    /// The sequence `key`; one that does not exist is empty.
    pub open spec fn sequence(self, key: Seq<char>) -> ListView<JsonValue> {
        if self.sequences.contains_key(key) {
            self.sequences[key]
        } else {
            rga_model::empty_list()
        }
    }

    /// The values that the sequence `key` shows.
    pub open spec fn items(self, key: Seq<char>) -> Seq<JsonValue> {
        rga_model::visible(self.sequence(key).nodes)
    }

    /// Every set and every sequence is in a state that a replica can be in.
    pub open spec fn well_formed(self) -> bool {
        &&& forall|key: Seq<char>| #[trigger]
            self.sets.contains_key(key) ==> self.sets[key].well_formed()
        &&& forall|key: Seq<char>| #[trigger]
            self.sequences.contains_key(key) ==> self.sequences[key].well_formed()
    }
}

/// The state after receiving an envelope.
pub open spec fn received(store: StoreView, env: EnvelopeView) -> StoreView {
    let clock = rga_model::later(store.clock, env.timestamp);
    match env.op {
        StoreOpView::Register { key, op } => StoreView {
            clock,
            registers: store.registers.insert(
                key,
                lww_register::written(store.register(key), op),
            ),
            ..store
        },
        StoreOpView::OrSet { key, op } => StoreView {
            clock,
            sets: store.sets.insert(key, or_set::after(store.set(key), op)),
            ..store
        },
        StoreOpView::Sequence { key, op } => StoreView {
            clock,
            sequences: store.sequences.insert(key, rga_model::receive(store.sequence(key), op)),
            ..store
        },
    }
}

/// The state with the clock moved on by one.
pub open spec fn ticked(store: StoreView) -> StoreView {
    StoreView { clock: (store.clock + 1) as u64, ..store }
}

/// The envelope for a write of `value` to the register `key`.
pub open spec fn register_envelope(
    store: StoreView,
    owner: Seq<char>,
    key: Seq<char>,
    value: JsonValue,
) -> EnvelopeView {
    let timestamp = (store.clock + 1) as u64;
    EnvelopeView {
        timestamp,
        node: owner,
        op: StoreOpView::Register { key, op: WriteView { value, timestamp, node: owner } },
    }
}

/// The token for an addition by `owner`.
pub open spec fn token(owner: Seq<char>, suffix: Seq<char>) -> Seq<char> {
    owner + seq!['-'] + suffix
}

/// The envelope for an addition of `value` to the set `key`.
pub open spec fn addition_envelope(
    store: StoreView,
    owner: Seq<char>,
    key: Seq<char>,
    value: JsonValue,
    suffix: Seq<char>,
) -> EnvelopeView {
    EnvelopeView {
        timestamp: (store.clock + 1) as u64,
        node: owner,
        op: StoreOpView::OrSet {
            key,
            op: SetOpView::Add { value, token: token(owner, suffix) },
        },
    }
}

/// The envelope for a removal of `element` from the set `key`.
pub open spec fn removal_envelope(
    store: StoreView,
    owner: Seq<char>,
    key: Seq<char>,
    element: Seq<char>,
) -> EnvelopeView {
    EnvelopeView {
        timestamp: (store.clock + 1) as u64,
        node: owner,
        op: StoreOpView::OrSet {
            key,
            op: SetOpView::Remove { tokens: or_set::tokens_of(store.set(key), element) },
        },
    }
}

/// The envelope for an insertion of `value` at `index` into the sequence `key`.
pub open spec fn insertion_envelope(
    store: StoreView,
    owner: Seq<char>,
    key: Seq<char>,
    index: int,
    value: JsonValue,
) -> EnvelopeView {
    EnvelopeView {
        timestamp: (store.clock + 1) as u64,
        node: owner,
        op: StoreOpView::Sequence {
            key,
            op: rga_model::insertion(store.sequence(key), owner, index, value),
        },
    }
}

/// The envelope for a deletion at `index` from the sequence `key`.
pub open spec fn deletion_envelope(
    store: StoreView,
    owner: Seq<char>,
    key: Seq<char>,
    index: int,
) -> EnvelopeView {
    EnvelopeView {
        timestamp: (store.clock + 1) as u64,
        node: owner,
        op: StoreOpView::Sequence {
            key,
            op: rga_model::deletion(store.sequence(key).nodes, index),
        },
    }
}

/// The state after merging the state `other`.
pub open spec fn merged(store: StoreView, other: StoreView) -> StoreView {
    StoreView {
        clock: rga_model::later(store.clock, other.clock),
        registers: Map::new(
            |key: Seq<char>| store.registers.contains_key(key) || other.registers.contains_key(key),
            |key: Seq<char>| lww_register::joined(store.register(key), other.register(key)),
        ),
        sets: Map::new(
            |key: Seq<char>| store.sets.contains_key(key) || other.sets.contains_key(key),
            |key: Seq<char>|
                if other.sets.contains_key(key) {
                    or_set::merged(store.set(key), other.sets[key])
                } else {
                    store.sets[key]
                },
        ),
        sequences: Map::new(
            |key: Seq<char>| store.sequences.contains_key(key) || other.sequences.contains_key(key),
            |key: Seq<char>|
                if other.sequences.contains_key(key) {
                    rga_model::merged(store.sequence(key), other.sequences[key])
                } else {
                    store.sequences[key]
                },
        ),
    }
}

/// The state without the tombstones of elements inserted at or before `before`.  The
/// sets, with the tokens that were removed, stay as they are, and so do the deletions of
/// elements that have not arrived.
pub open spec fn pruned(store: StoreView, before: u64) -> StoreView {
    StoreView {
        sequences: Map::new(
            |key: Seq<char>| store.sequences.contains_key(key),
            |key: Seq<char>|
                ListView {
                    nodes: rga_model::pruned(store.sequences[key].nodes, before),
                    ..store.sequences[key]
                },
        ),
        ..store
    }
}

} // verus!
