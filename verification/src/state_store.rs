//! A store of named registers, sets and sequences.
//!
//! Every change that a store makes comes with an envelope for the other stores.
//! Stores that received the same envelopes hold the same.

use crate::copies;
use crate::json::JsonValue;
use crate::lww_register;
use crate::lww_register::LWWOp;
use crate::lww_register::LWWRegister;
use crate::lww_register::WriteView;
use crate::or_set;
use crate::or_set::ORSet;
use crate::or_set::ORSetOp;
use crate::proxy::StateProxy;
use crate::rga::RGAOp;
use crate::rga::RGA;
use crate::rga_model;
use crate::rga_model::ListView;
use crate::store_model;
use crate::store_model::EnvelopeView;
use crate::store_model::StoreOpView;
use crate::store_model::StoreView;
use crate::store_model::ValueSet;
use crate::str_map::StrMap;
use crate::unique;
use vstd::prelude::*;

verus! {

/// What an envelope carries: an operation on something that has a name.
#[derive(Debug)]
pub enum StoreOp {
    /// A write to a register.
    Register { key: String, op: LWWOp<JsonValue> },
    /// An operation on a set.
    OrSet { key: String, op: ORSetOp<JsonValue> },
    /// An operation on a sequence.
    Sequence { key: String, op: RGAOp<JsonValue> },
}

impl View for StoreOp {
    type V = StoreOpView;

    open spec fn view(&self) -> StoreOpView {
        match self {
            StoreOp::Register { key, op } => StoreOpView::Register { key: key@, op: op@ },
            StoreOp::OrSet { key, op } => StoreOpView::OrSet { key: key@, op: op@ },
            StoreOp::Sequence { key, op } => StoreOpView::Sequence { key: key@, op: op@ },
        }
    }
}

impl Clone for StoreOp {
    fn clone(&self) -> (copy: Self)
        ensures
            copy@ == self@,
    {
        match self {
            StoreOp::Register { key, op } => StoreOp::Register { key: key.clone(), op: op.clone() },
            StoreOp::OrSet { key, op } => StoreOp::OrSet { key: key.clone(), op: op.clone() },
            StoreOp::Sequence { key, op } => StoreOp::Sequence { key: key.clone(), op: op.clone() },
        }
    }
}

/// A message from one store to the others.
#[derive(Debug)]
pub struct Envelope {
    /// Logical time of the message.
    pub timestamp: u64,
    /// The node that sent it.
    pub node_id: String,
    /// The operation.
    pub op: StoreOp,
    /// A signature over the rest, by which a relay may check where it comes from.
    pub signature: Option<Vec<u8>>,
}

impl View for Envelope {
    type V = EnvelopeView;

    open spec fn view(&self) -> EnvelopeView {
        EnvelopeView { timestamp: self.timestamp, node: self.node_id@, op: self.op@ }
    }
}

impl Clone for Envelope {
    fn clone(&self) -> (copy: Self)
        ensures
            copy@ == self@,
            copy.signature is Some <==> self.signature is Some,
            self.signature is Some ==> copy.signature->0@ == self.signature->0@,
    {
        let signature = match &self.signature {
            Some(bytes) => {
                let copied = bytes.clone();
                assert(copied@ =~= bytes@);
                Some(copied)
            },
            None => None,
        };
        Envelope {
            timestamp: self.timestamp,
            node_id: self.node_id.clone(),
            op: self.op.clone(),
            signature,
        }
    }
}

type JsonRegister = LWWRegister<JsonValue>;

type JsonORSet = ORSet<JsonValue>;

type JsonRGA = RGA<JsonValue>;

/// A store of named registers, sets and sequences.
#[derive(Debug)]
pub struct StateStore {
    node_id: String,
    clock: u64,
    registers: StrMap<JsonRegister>,
    sets: StrMap<JsonORSet>,
    sequences: StrMap<JsonRGA>,
}

/// What the registers hold.
pub open spec fn register_views(registers: Map<Seq<char>, LWWRegister<JsonValue>>) -> Map<
    Seq<char>,
    Option<WriteView<JsonValue>>,
> {
    registers.map_values(|register: LWWRegister<JsonValue>| register@)
}

/// What is in the sets.
pub open spec fn set_views(sets: Map<Seq<char>, ORSet<JsonValue>>) -> Map<Seq<char>, ValueSet> {
    sets.map_values(|set: ORSet<JsonValue>| set@)
}

/// The states of the sequences.
pub open spec fn sequence_views(sequences: Map<Seq<char>, RGA<JsonValue>>) -> Map<
    Seq<char>,
    ListView<JsonValue>,
> {
    sequences.map_values(|sequence: RGA<JsonValue>| sequence@)
}

impl View for StateStore {
    type V = StoreView;

    closed spec fn view(&self) -> StoreView {
        StoreView {
            clock: self.clock,
            registers: register_views(self.registers@),
            sets: set_views(self.sets@),
            sequences: sequence_views(self.sequences@),
        }
    }
}

/// Cloning a JSON value gives the same value, and comparing two tells whether they
/// are the same.
proof fn lemma_json_values()
    ensures
        copies::exact_values::<JsonValue>(),
        or_set::exact_clone::<JsonValue>(),
        or_set::exact_eq::<JsonValue>(),
{
}

/// All registers belong to `owner`.
pub open spec fn registers_ok(
    registers: Map<Seq<char>, LWWRegister<JsonValue>>,
    owner: Seq<char>,
) -> bool {
    forall|key: Seq<char>| #[trigger]
        registers.contains_key(key) ==> registers[key].owner() == owner
}

/// All sets belong to `owner` and are well formed.
pub open spec fn sets_ok(sets: Map<Seq<char>, ORSet<JsonValue>>, owner: Seq<char>) -> bool {
    forall|key: Seq<char>| #[trigger]
        sets.contains_key(key) ==> sets[key].owner() == owner && sets[key].well_formed()
}

/// All sequences belong to `owner` and are well formed.
pub open spec fn sequences_ok(
    sequences: Map<Seq<char>, RGA<JsonValue>>,
    owner: Seq<char>,
) -> bool {
    forall|key: Seq<char>| #[trigger]
        sequences.contains_key(key) ==> sequences[key].owner() == owner
            && sequences[key]@.well_formed()
}

impl StateStore {
    /// The node that this store belongs to.
    pub closed spec fn owner(&self) -> Seq<char> {
        self.node_id@
    }

    /// Everything in the store belongs to the node of the store, and is well formed.
    pub closed spec fn well_formed(&self) -> bool {
        &&& self.registers.well_formed()
        &&& self.sets.well_formed()
        &&& self.sequences.well_formed()
        &&& registers_ok(self.registers@, self.node_id@)
        &&& sets_ok(self.sets@, self.node_id@)
        &&& sequences_ok(self.sequences@, self.node_id@)
    }

    /// The state of a well-formed store is well formed.
    pub proof fn law_state_is_well_formed(&self)
        requires
            self.well_formed(),
        ensures
            self@.well_formed(),
    {
        assert forall|key: Seq<char>| #[trigger] self@.sets.contains_key(key) implies
            self@.sets[key].well_formed() by {
            assert(self.sets@.contains_key(key));
            self.sets@[key].law_state_is_well_formed();
        }
    }

    /// An empty store for `node_id`.
    pub fn new(node_id: &str) -> (store: Self)
        ensures
            store.well_formed(),
            store.owner() == node_id@,
            store@ == store_model::empty_store(),
    {
        let store = StateStore {
            node_id: node_id.to_owned(),
            clock: 0,
            registers: StrMap::new(),
            sets: StrMap::new(),
            sequences: StrMap::new(),
        };
        assert(store@.registers =~= Map::empty());
        assert(store@.sets =~= Map::empty());
        assert(store@.sequences =~= Map::empty());
        store
    }

    /// A store for `node_id` with the given clock and contents.
    pub fn from_parts(
        node_id: &str,
        clock: u64,
        registers: StrMap<LWWRegister<JsonValue>>,
        sets: StrMap<ORSet<JsonValue>>,
        sequences: StrMap<RGA<JsonValue>>,
    ) -> (store: Self)
        requires
            registers.well_formed(),
            sets.well_formed(),
            sequences.well_formed(),
            registers_ok(registers@, node_id@),
            sets_ok(sets@, node_id@),
            sequences_ok(sequences@, node_id@),
        ensures
            store.well_formed(),
            store.owner() == node_id@,
            store@ == (StoreView {
                clock,
                registers: register_views(registers@),
                sets: set_views(sets@),
                sequences: sequence_views(sequences@),
            }),
    {
        StateStore { node_id: node_id.to_owned(), clock, registers, sets, sequences }
    }

    /// The node that this store belongs to.
    pub fn node_id(&self) -> (node: &str)
        ensures
            node@ == self.owner(),
    {
        self.node_id.as_str()
    }

    /// The registers by name.
    pub fn registers(&self) -> (registers: &StrMap<LWWRegister<JsonValue>>)
        requires
            self.well_formed(),
        ensures
            registers.well_formed(),
            registers_ok(registers@, self.owner()),
            register_views(registers@) == self@.registers,
    {
        &self.registers
    }

    /// The sets by name.
    pub fn sets(&self) -> (sets: &StrMap<ORSet<JsonValue>>)
        requires
            self.well_formed(),
        ensures
            sets.well_formed(),
            sets_ok(sets@, self.owner()),
            set_views(sets@) == self@.sets,
    {
        &self.sets
    }

    /// The sequences by name.
    pub fn sequences(&self) -> (sequences: &StrMap<RGA<JsonValue>>)
        requires
            self.well_formed(),
        ensures
            sequences.well_formed(),
            sequences_ok(sequences@, self.owner()),
            sequence_views(sequences@) == self@.sequences,
    {
        &self.sequences
    }

    /// The current value of the clock.
    pub fn clock(&self) -> (time: u64)
        ensures
            time == self@.clock,
    {
        self.clock
    }

    fn tick(&mut self) -> (time: u64)
        requires
            old(self).well_formed(),
            old(self)@.clock < u64::MAX,
        ensures
            final(self).well_formed(),
            final(self).owner() == old(self).owner(),
            final(self)@ == store_model::ticked(old(self)@),
            time == final(self)@.clock,
    {
        self.clock += 1;
        self.clock
    }

    fn update_clock(&mut self, remote_ts: u64)
        requires
            old(self).well_formed(),
        ensures
            final(self).well_formed(),
            final(self).owner() == old(self).owner(),
            final(self)@ == (StoreView {
                clock: rga_model::later(old(self)@.clock, remote_ts),
                ..old(self)@
            }),
    {
        if remote_ts > self.clock {
            self.clock = remote_ts;
        }
    }

    // ── Registers ────────────────────────────────────────────────────────────

    /// Writes `value` to the register `key`.
    ///
    /// The envelope is returned for the other stores.
    pub fn set_register(&mut self, key: &str, value: JsonValue) -> (env: Envelope)
        requires
            old(self).well_formed(),
            old(self)@.clock < u64::MAX,
        ensures
            final(self).well_formed(),
            final(self).owner() == old(self).owner(),
            env@ == store_model::register_envelope(
                old(self)@,
                old(self).owner(),
                key@,
                value,
            ),
            env.signature is None,
            final(self)@ == store_model::received(old(self)@, env@),
    {
        let ts: u64 = self.tick();
        let op = LWWOp { value, timestamp: ts, node_id: self.node_id.clone() };
        let copy = op.clone();
        self.write(key, copy);
        Envelope {
            timestamp: ts,
            node_id: self.node_id.clone(),
            op: StoreOp::Register { key: key.to_owned(), op },
            signature: None,
        }
    }

    /// Applies a write to the register `key`.
    fn write(&mut self, key: &str, op: LWWOp<JsonValue>)
        requires
            old(self).well_formed(),
        ensures
            final(self).well_formed(),
            final(self).owner() == old(self).owner(),
            final(self)@ == (StoreView {
                registers: old(self)@.registers.insert(
                    key@,
                    lww_register::written(old(self)@.register(key@), op@),
                ),
                ..old(self)@
            }),
    {
        let fresh = LWWRegister::new(self.node_id.as_str());
        let register = self.registers.entry(key, fresh);
        register.apply(op);
        assert(self@.registers =~= old(self)@.registers.insert(
            key@,
            lww_register::written(old(self)@.register(key@), op@),
        ));
    }

    /// The value of the register `key`; `None` if it was never written.
    pub fn get_register(&self, key: &str) -> (value: Option<&JsonValue>)
        ensures
            match value {
                Some(v) => self@.register(key@) is Some && *v == self@.register(key@)->0.value,
                None => self@.register(key@) is None,
            },
    {
        match self.registers.get(key) {
            Some(register) => register.get(),
            None => None,
        }
    }

    // ── Sets ─────────────────────────────────────────────────────────────────

    /// Adds `value` to the set `key`, under a token that ends in `suffix`.
    ///
    /// The envelope is returned for the other stores.
    pub fn set_add_with(&mut self, key: &str, value: JsonValue, suffix: &str) -> (env: Envelope)
        requires
            old(self).well_formed(),
            old(self)@.clock < u64::MAX,
        ensures
            final(self).well_formed(),
            final(self).owner() == old(self).owner(),
            env@ == store_model::addition_envelope(
                old(self)@,
                old(self).owner(),
                key@,
                value,
                suffix@,
            ),
            env.signature is None,
            final(self)@ == store_model::received(old(self)@, env@),
    {
        let ts: u64 = self.tick();
        proof {
            lemma_json_values();
        }
        let fresh = ORSet::new(self.node_id.as_str());
        let set = self.sets.entry(key, fresh);
        let op = set.add_with(value, suffix);
        let copy = op.clone();
        set.apply(copy);
        let env = Envelope {
            timestamp: ts,
            node_id: self.node_id.clone(),
            op: StoreOp::OrSet { key: key.to_owned(), op },
            signature: None,
        };
        assert(self@.sets =~= old(self)@.sets.insert(
            key@,
            or_set::after(old(self)@.set(key@), op@),
        ));
        env
    }

    /// Adds `value` to the set `key`, under a new token.
    ///
    /// The envelope is returned for the other stores.
    pub fn set_add(&mut self, key: &str, value: JsonValue) -> (env: Envelope)
        requires
            old(self).well_formed(),
            old(self)@.clock < u64::MAX,
        ensures
            final(self).well_formed(),
            final(self).owner() == old(self).owner(),
            exists|suffix: Seq<char>| #[trigger]
                unique::is_random_uuid(suffix) && env@ == store_model::addition_envelope(
                    old(self)@,
                    old(self).owner(),
                    key@,
                    value,
                    suffix,
                ),
            env.signature is None,
            final(self)@ == store_model::received(old(self)@, env@),
    {
        let suffix = unique::fresh_uuid();
        self.set_add_with(key, value, suffix.as_str())
    }

    /// Removes `value` from the set `key`; `None` if it is not in the set.
    ///
    /// The envelope is returned for the other stores.  The clock moves on in either
    /// case.
    pub fn set_remove(&mut self, key: &str, value: JsonValue) -> (env: Option<Envelope>)
        requires
            old(self).well_formed(),
            old(self)@.clock < u64::MAX,
        ensures
            final(self).well_formed(),
            final(self).owner() == old(self).owner(),
            match env {
                Some(e) => {
                    &&& or_set::members(old(self)@.set(key@)).contains(value.deep_view())
                    &&& e@ == store_model::removal_envelope(
                        old(self)@,
                        old(self).owner(),
                        key@,
                        value.deep_view(),
                    )
                    &&& e.signature is None
                    &&& final(self)@ == store_model::received(old(self)@, e@)
                },
                None => {
                    &&& !or_set::members(old(self)@.set(key@)).contains(value.deep_view())
                    &&& final(self)@ == store_model::ticked(old(self)@)
                },
            },
    {
        let ts: u64 = self.tick();
        proof {
            lemma_json_values();
        }
        match self.sets.get_mut(key) {
            None => {
                assert(or_set::members(old(self)@.set(key@)) =~= Set::empty());
                None
            },
            Some(set) => {
                let removal = set.remove(&value);
                match removal {
                    None => {
                        assert(self@.sets =~= old(self)@.sets);
                        None
                    },
                    Some(op) => {
                        let copy = op.clone();
                        set.apply(copy);
                        let env = Envelope {
                            timestamp: ts,
                            node_id: self.node_id.clone(),
                            op: StoreOp::OrSet { key: key.to_owned(), op },
                            signature: None,
                        };
                        assert(self@.sets =~= old(self)@.sets.insert(
                            key@,
                            or_set::after(old(self)@.set(key@), op@),
                        ));
                        Some(env)
                    },
                }
            },
        }
    }

    /// Whether `value` is in the set `key`.
    pub fn set_contains(&self, key: &str, value: &JsonValue) -> (present: bool)
        requires
            self.well_formed(),
        ensures
            present == or_set::members(self@.set(key@)).contains(value.deep_view()),
    {
        proof {
            lemma_json_values();
        }
        match self.sets.get(key) {
            Some(set) => set.contains(value),
            None => {
                assert(or_set::members(self@.set(key@)) =~= Set::empty());
                false
            },
        }
    }

    /// The elements of the set `key`, each once, by the values that stand for them.
    pub fn set_items(&self, key: &str) -> (items: Vec<&JsonValue>)
        requires
            self.well_formed(),
        ensures
            or_set::seen(items@).no_duplicates(),
            or_set::seen(items@).to_set() == or_set::members(self@.set(key@)),
            or_set::stand_in(self@.set(key@), items@),
    {
        match self.sets.get(key) {
            Some(set) => set.iter(),
            None => {
                let items: Vec<&JsonValue> = Vec::new();
                assert(or_set::members(self@.set(key@)) =~= Set::empty());
                assert(or_set::seen(items@).to_set() =~= Set::empty());
                items
            },
        }
    }

    // ── Sequences ────────────────────────────────────────────────────────────

    /// Inserts `value` at `index` into the sequence `key`; 0 is the front, the
    /// length of the sequence the end.
    ///
    /// The envelope is returned for the other stores.
    pub fn seq_insert(&mut self, key: &str, index: usize, value: JsonValue) -> (env: Envelope)
        requires
            old(self).well_formed(),
            old(self)@.clock < u64::MAX,
            old(self)@.sequence(key@).clock < u64::MAX,
            index <= old(self)@.items(key@).len(),
        ensures
            final(self).well_formed(),
            final(self).owner() == old(self).owner(),
            env@ == store_model::insertion_envelope(
                old(self)@,
                old(self).owner(),
                key@,
                index as int,
                value,
            ),
            env.signature is None,
            final(self)@ == store_model::received(old(self)@, env@),
    {
        let ts: u64 = self.tick();
        let fresh = RGA::new(self.node_id.as_str());
        let sequence = self.sequences.entry(key, fresh);
        let op = sequence.insert_op(index, value);
        let copy = op.clone();
        sequence.apply(copy);
        let env = Envelope {
            timestamp: ts,
            node_id: self.node_id.clone(),
            op: StoreOp::Sequence { key: key.to_owned(), op },
            signature: None,
        };
        assert(self@.sequences =~= old(self)@.sequences.insert(
            key@,
            rga_model::receive(old(self)@.sequence(key@), op@),
        ));
        env
    }

    /// Deletes the element at `index` of the sequence `key`; `None` if there is no
    /// such element.
    ///
    /// The envelope is returned for the other stores.  The clock moves on in either
    /// case.
    pub fn seq_delete(&mut self, key: &str, index: usize) -> (env: Option<Envelope>)
        requires
            old(self).well_formed(),
            old(self)@.clock < u64::MAX,
        ensures
            final(self).well_formed(),
            final(self).owner() == old(self).owner(),
            match env {
                Some(e) => {
                    &&& index < old(self)@.items(key@).len()
                    &&& e@ == store_model::deletion_envelope(
                        old(self)@,
                        old(self).owner(),
                        key@,
                        index as int,
                    )
                    &&& e.signature is None
                    &&& final(self)@ == store_model::received(old(self)@, e@)
                },
                None => {
                    &&& index >= old(self)@.items(key@).len()
                    &&& final(self)@ == store_model::ticked(old(self)@)
                },
            },
    {
        let ts: u64 = self.tick();
        match self.sequences.get_mut(key) {
            None => {
                proof {
                    lemma_empty_shows_nothing();
                }
                None
            },
            Some(sequence) => {
                match sequence.delete_op(index) {
                    None => {
                        assert(self@.sequences =~= old(self)@.sequences);
                        None
                    },
                    Some(op) => {
                        let copy = op.clone();
                        sequence.apply(copy);
                        let env = Envelope {
                            timestamp: ts,
                            node_id: self.node_id.clone(),
                            op: StoreOp::Sequence { key: key.to_owned(), op },
                            signature: None,
                        };
                        assert(self@.sequences =~= old(self)@.sequences.insert(
                            key@,
                            rga_model::receive(old(self)@.sequence(key@), op@),
                        ));
                        Some(env)
                    },
                }
            },
        }
    }

    /// The values that the sequence `key` shows.
    pub fn seq_items(&self, key: &str) -> (items: Vec<&JsonValue>)
        ensures
            items@.len() == self@.items(key@).len(),
            forall|i: int|
                #![trigger items@[i]]
                0 <= i < items@.len() ==> *items@[i] == self@.items(key@)[i],
    {
        match self.sequences.get(key) {
            Some(sequence) => sequence.iter(),
            None => {
                proof {
                    lemma_empty_shows_nothing();
                }
                Vec::new()
            },
        }
    }

    /// The number of values that the sequence `key` shows.
    pub fn seq_len(&self, key: &str) -> (n: usize)
        ensures
            n == self@.items(key@).len(),
    {
        match self.sequences.get(key) {
            Some(sequence) => sequence.len(),
            None => {
                proof {
                    lemma_empty_shows_nothing();
                }
                0
            },
        }
    }

    /// The clock of the sequence `key`: the greatest time among the elements that it
    /// has seen.
    pub fn seq_clock(&self, key: &str) -> (time: u64)
        ensures
            time == self@.sequence(key@).clock,
    {
        match self.sequences.get(key) {
            Some(sequence) => sequence.clock(),
            None => 0,
        }
    }

    /// A proxy that queues the envelopes of the changes made through it.
    pub fn proxy(&mut self) -> (proxy: StateProxy<'_>)
        ensures
            *proxy.store == *old(self),
            *final(proxy.store) == *final(self),
            proxy.queue() == Seq::<EnvelopeView>::empty(),
    {
        StateProxy::new(self)
    }

    // ── Other stores ─────────────────────────────────────────────────────────

    /// Receives an envelope.
    pub fn apply_envelope(&mut self, env: Envelope)
        requires
            old(self).well_formed(),
        ensures
            final(self).well_formed(),
            final(self).owner() == old(self).owner(),
            final(self)@ == store_model::received(old(self)@, env@),
    {
        self.update_clock(env.timestamp);
        proof {
            lemma_json_values();
        }
        match env.op {
            StoreOp::Register { key, op } => {
                self.write(key.as_str(), op);
            },
            StoreOp::OrSet { key, op } => {
                let fresh = ORSet::new(self.node_id.as_str());
                let set = self.sets.entry(key.as_str(), fresh);
                set.apply(op);
                assert(self@.sets =~= old(self)@.sets.insert(
                    key@,
                    or_set::after(old(self)@.set(key@), op@),
                ));
            },
            StoreOp::Sequence { key, op } => {
                let fresh = RGA::new(self.node_id.as_str());
                let sequence = self.sequences.entry(key.as_str(), fresh);
                sequence.apply(op);
                assert(self@.sequences =~= old(self)@.sequences.insert(
                    key@,
                    rga_model::receive(old(self)@.sequence(key@), op@),
                ));
            },
        }
    }

    /// Takes over the state of another store: the later write of each register, the
    /// elements of each set, the elements and tombstones of each sequence.
    pub fn merge(&mut self, other: &StateStore)
        requires
            old(self).well_formed(),
            other.well_formed(),
        ensures
            final(self).well_formed(),
            final(self).owner() == old(self).owner(),
            final(self)@ == store_model::merged(old(self)@, other@),
    {
        self.update_clock(other.clock);
        self.merge_registers(other);
        self.merge_sets(other);
        self.merge_sequences(other);
        proof {
            let goal = store_model::merged(old(self)@, other@);
            assert(self@.registers =~= goal.registers);
            assert(self@.sets =~= goal.sets);
            assert(self@.sequences =~= goal.sequences);
        }
    }

    fn merge_registers(&mut self, other: &StateStore)
        requires
            old(self).well_formed(),
            other.well_formed(),
        ensures
            final(self).well_formed(),
            final(self).owner() == old(self).owner(),
            final(self)@ == (StoreView {
                registers: store_model::merged(old(self)@, other@).registers,
                ..old(self)@
            }),
    {
        let ghost keys = other.registers.keys();
        let mut i: usize = 0;
        while i < other.registers.len()
            invariant
                i <= keys.len(),
                keys == other.registers.keys(),
                other.well_formed(),
                self.well_formed(),
                self.owner() == old(self).owner(),
                self@.clock == old(self)@.clock,
                self@.sets == old(self)@.sets,
                self@.sequences == old(self)@.sequences,
                forall|key: Seq<char>| #[trigger]
                    self@.registers.contains_key(key) <==> old(self)@.registers.contains_key(key)
                        || keys.take(i as int).contains(key),
                forall|key: Seq<char>| #[trigger]
                    self@.registers.contains_key(key) ==> self@.registers[key] == (
                    if keys.take(i as int).contains(key) {
                        lww_register::joined(old(self)@.register(key), other@.register(key))
                    } else {
                        old(self)@.register(key)
                    }),
            decreases keys.len() - i,
        {
            let key = other.registers.key_at(i);
            let ghost k = key@;
            let ghost before = self@;
            let fresh = LWWRegister::new(self.node_id.as_str());
            let register = self.registers.entry(key, fresh);
            register.merge(other.registers.value_at(i));
            proof {
                lemma_key_taken(keys, i as int);
                assert(self@.registers =~= before.registers.insert(
                    k,
                    lww_register::joined(before.register(k), other@.register(k)),
                ));
                assert forall|key: Seq<char>| #[trigger]
                    self@.registers.contains_key(key) <==> old(self)@.registers.contains_key(key)
                        || keys.take(i + 1).contains(key) by {
                    assert(before.registers.contains_key(key) <==> old(
                        self,
                    )@.registers.contains_key(key) || keys.take(i as int).contains(key));
                }
                assert forall|key: Seq<char>| #[trigger]
                    self@.registers.contains_key(key) implies self@.registers[key] == (
                if keys.take(i + 1).contains(key) {
                    lww_register::joined(old(self)@.register(key), other@.register(key))
                } else {
                    old(self)@.register(key)
                }) by {
                    assert(before.registers.contains_key(key) || key == k);
                    assert(before.register(k) == old(self)@.register(k));
                }
            }
            i += 1;
        }
        proof {
            assert(keys.take(i as int) =~= keys);
            other.registers.lemma_keys();
            assert(self@.registers =~= store_model::merged(old(self)@, other@).registers);
        }
    }

    fn merge_sets(&mut self, other: &StateStore)
        requires
            old(self).well_formed(),
            other.well_formed(),
        ensures
            final(self).well_formed(),
            final(self).owner() == old(self).owner(),
            final(self)@ == (StoreView {
                sets: store_model::merged(old(self)@, other@).sets,
                ..old(self)@
            }),
    {
        let ghost keys = other.sets.keys();
        proof {
            lemma_json_values();
        }
        let mut i: usize = 0;
        while i < other.sets.len()
            invariant
                i <= keys.len(),
                keys == other.sets.keys(),
                copies::exact_values::<JsonValue>(),
                or_set::exact_clone::<JsonValue>(),
                or_set::exact_eq::<JsonValue>(),
                other.well_formed(),
                self.well_formed(),
                self.owner() == old(self).owner(),
                self@.clock == old(self)@.clock,
                self@.registers == old(self)@.registers,
                self@.sequences == old(self)@.sequences,
                forall|key: Seq<char>| #[trigger]
                    self@.sets.contains_key(key) <==> old(self)@.sets.contains_key(key)
                        || keys.take(i as int).contains(key),
                forall|key: Seq<char>| #[trigger]
                    self@.sets.contains_key(key) ==> self@.sets[key] == (if keys.take(
                        i as int,
                    ).contains(key) {
                        or_set::merged(old(self)@.set(key), other@.sets[key])
                    } else {
                        old(self)@.set(key)
                    }),
            decreases keys.len() - i,
        {
            let key = other.sets.key_at(i);
            let ghost k = key@;
            let ghost before = self@;
            let fresh = ORSet::new(self.node_id.as_str());
            let set = self.sets.entry(key, fresh);
            set.merge(other.sets.value_at(i));
            proof {
                lemma_key_taken(keys, i as int);
                assert(self@.sets =~= before.sets.insert(
                    k,
                    or_set::merged(before.set(k), other@.sets[k]),
                ));
                assert forall|key: Seq<char>| #[trigger]
                    self@.sets.contains_key(key) <==> old(self)@.sets.contains_key(key)
                        || keys.take(i + 1).contains(key) by {
                    assert(before.sets.contains_key(key) <==> old(self)@.sets.contains_key(key)
                        || keys.take(i as int).contains(key));
                }
                assert forall|key: Seq<char>| #[trigger]
                    self@.sets.contains_key(key) implies self@.sets[key] == (if keys.take(
                    i + 1,
                ).contains(key) {
                    or_set::merged(old(self)@.set(key), other@.sets[key])
                } else {
                    old(self)@.set(key)
                }) by {
                    assert(before.sets.contains_key(key) || key == k);
                    assert(before.set(k) == old(self)@.set(k));
                }
            }
            i += 1;
        }
        proof {
            assert(keys.take(i as int) =~= keys);
            other.sets.lemma_keys();
            assert(self@.sets =~= store_model::merged(old(self)@, other@).sets);
        }
    }

    fn merge_sequences(&mut self, other: &StateStore)
        requires
            old(self).well_formed(),
            other.well_formed(),
        ensures
            final(self).well_formed(),
            final(self).owner() == old(self).owner(),
            final(self)@ == (StoreView {
                sequences: store_model::merged(old(self)@, other@).sequences,
                ..old(self)@
            }),
    {
        let ghost keys = other.sequences.keys();
        let mut i: usize = 0;
        while i < other.sequences.len()
            invariant
                i <= keys.len(),
                keys == other.sequences.keys(),
                other.well_formed(),
                self.well_formed(),
                self.owner() == old(self).owner(),
                self@.clock == old(self)@.clock,
                self@.registers == old(self)@.registers,
                self@.sets == old(self)@.sets,
                forall|key: Seq<char>| #[trigger]
                    self@.sequences.contains_key(key) <==> old(self)@.sequences.contains_key(key)
                        || keys.take(i as int).contains(key),
                forall|key: Seq<char>| #[trigger]
                    self@.sequences.contains_key(key) ==> self@.sequences[key] == (
                    if keys.take(i as int).contains(key) {
                        rga_model::merged(old(self)@.sequence(key), other@.sequences[key])
                    } else {
                        old(self)@.sequence(key)
                    }),
            decreases keys.len() - i,
        {
            let key = other.sequences.key_at(i);
            let ghost k = key@;
            let ghost before = self@;
            let fresh = RGA::new(self.node_id.as_str());
            let source = other.sequences.value_at(i);
            let sequence = self.sequences.entry(key, fresh);
            sequence.merge(source);
            proof {
                lemma_key_taken(keys, i as int);
                assert(copies::exact_values::<JsonValue>());
                assert(self@.sequences =~= before.sequences.insert(
                    k,
                    rga_model::merged(before.sequence(k), other@.sequences[k]),
                ));
                assert forall|key: Seq<char>| #[trigger]
                    self@.sequences.contains_key(key) <==> old(self)@.sequences.contains_key(key)
                        || keys.take(i + 1).contains(key) by {
                    assert(before.sequences.contains_key(key) <==> old(
                        self,
                    )@.sequences.contains_key(key) || keys.take(i as int).contains(key));
                }
                assert forall|key: Seq<char>| #[trigger]
                    self@.sequences.contains_key(key) implies self@.sequences[key] == (
                if keys.take(i + 1).contains(key) {
                    rga_model::merged(old(self)@.sequence(key), other@.sequences[key])
                } else {
                    old(self)@.sequence(key)
                }) by {
                    assert(before.sequences.contains_key(key) || key == k);
                    assert(before.sequence(k) == old(self)@.sequence(k));
                }
            }
            i += 1;
        }
        proof {
            assert(keys.take(i as int) =~= keys);
            other.sequences.lemma_keys();
            assert(self@.sequences =~= store_model::merged(old(self)@, other@).sequences);
        }
    }

    /// Drops the tombstones, in all sequences, of elements inserted at or before
    /// `before_ts`.
    ///
    /// Deletions of elements that have not arrived, and the tokens that were removed
    /// from sets, stay on record: without them a late insertion or addition would come
    /// back.
    pub fn prune_tombstones(&mut self, before_ts: u64)
        requires
            old(self).well_formed(),
        ensures
            final(self).well_formed(),
            final(self).owner() == old(self).owner(),
            final(self)@ == store_model::pruned(old(self)@, before_ts),
            forall|key: Seq<char>| #[trigger] final(self)@.items(key) == old(self)@.items(key),
    {
        let ghost keys = self.sequences.keys();
        let mut i: usize = 0;
        while i < self.sequences.len()
            invariant
                i <= keys.len(),
                keys == self.sequences.keys(),
                keys.len() == old(self).sequences.keys().len(),
                self.well_formed(),
                self.owner() == old(self).owner(),
                self@.clock == old(self)@.clock,
                self@.registers == old(self)@.registers,
                self@.sets == old(self)@.sets,
                keys == old(self).sequences.keys(),
                forall|key: Seq<char>| #[trigger]
                    self@.sequences.contains_key(key) <==> old(self)@.sequences.contains_key(key),
                forall|key: Seq<char>| #[trigger]
                    self@.sequences.contains_key(key) ==> {
                        &&& self@.sequences[key] == (if keys.take(i as int).contains(key) {
                            ListView {
                                nodes: rga_model::pruned(
                                    old(self)@.sequences[key].nodes,
                                    before_ts,
                                ),
                                ..old(self)@.sequences[key]
                            }
                        } else {
                            old(self)@.sequences[key]
                        })
                        &&& rga_model::visible(self@.sequences[key].nodes) == rga_model::visible(
                            old(self)@.sequences[key].nodes,
                        )
                    },
            decreases keys.len() - i,
        {
            let name = self.sequences.key_at(i).to_owned();
            let ghost k = name@;
            let ghost before = self@;
            match self.sequences.get_mut(name.as_str()) {
                Some(sequence) => {
                    sequence.prune_tombstones(before_ts);
                },
                None => {},
            }
            proof {
                lemma_key_taken(keys, i as int);
                assert(before.sequences.contains_key(k));
                assert(self@.sequences =~= before.sequences.insert(
                    k,
                    ListView {
                        nodes: rga_model::pruned(before.sequences[k].nodes, before_ts),
                        ..before.sequences[k]
                    },
                ));
                assert forall|key: Seq<char>| #[trigger]
                    self@.sequences.contains_key(key) <==> old(self)@.sequences.contains_key(
                        key,
                    ) by {
                    assert(before.sequences.contains_key(key) <==> old(
                        self,
                    )@.sequences.contains_key(key));
                }
                assert forall|key: Seq<char>| #[trigger]
                    self@.sequences.contains_key(key) implies {
                    &&& self@.sequences[key] == (if keys.take(i + 1).contains(key) {
                        ListView {
                            nodes: rga_model::pruned(old(self)@.sequences[key].nodes, before_ts),
                            ..old(self)@.sequences[key]
                        }
                    } else {
                        old(self)@.sequences[key]
                    })
                    &&& rga_model::visible(self@.sequences[key].nodes) == rga_model::visible(
                        old(self)@.sequences[key].nodes,
                    )
                } by {
                    assert(before.sequences.contains_key(key));
                }
            }
            i += 1;
        }
        proof {
            assert(keys.take(i as int) =~= keys);
            old(self).sequences.lemma_keys();
            assert(self@.sequences =~= store_model::pruned(old(self)@, before_ts).sequences);
            assert forall|key: Seq<char>| #[trigger] self@.items(key) == old(self)@.items(key) by {
                if old(self)@.sequences.contains_key(key) {
                    assert(self@.sequences.contains_key(key));
                }
            }
        }
    }
}

impl Clone for StateStore {
    fn clone(&self) -> (copy: Self)
        ensures
            copy@ == self@,
            copy.owner() == self.owner(),
            self.well_formed() ==> copy.well_formed(),
    {
        let copy = StateStore {
            node_id: self.node_id.clone(),
            clock: self.clock,
            registers: self.registers.clone(),
            sets: self.sets.clone(),
            sequences: self.sequences.clone(),
        };
        proof {
            lemma_json_values();
            assert forall|key: Seq<char>| #[trigger]
                self.registers@.contains_key(key) implies copy.registers@[key]@
                == self.registers@[key]@ && copy.registers@[key].owner()
                == self.registers@[key].owner() by {
                assert(cloned(self.registers@[key], copy.registers@[key]));
            }
            assert forall|key: Seq<char>| #[trigger]
                self.sets@.contains_key(key) implies copy.sets@[key]@ == self.sets@[key]@
                && copy.sets@[key].owner() == self.sets@[key].owner() && (
            self.sets@[key].well_formed() ==> copy.sets@[key].well_formed()) by {
                assert(cloned(self.sets@[key], copy.sets@[key]));
            }
            assert forall|key: Seq<char>| #[trigger]
                self.sequences@.contains_key(key) implies copy.sequences@[key]@
                == self.sequences@[key]@ && copy.sequences@[key].owner()
                == self.sequences@[key].owner() by {
                assert(cloned(self.sequences@[key], copy.sequences@[key]));
            }
            assert(copy@.registers =~= self@.registers);
            assert(copy@.sets =~= self@.sets);
            assert(copy@.sequences =~= self@.sequences);
        }
        copy
    }
}

/// Among the first `i + 1` keys are the first `i` and one more.
proof fn lemma_key_taken(keys: Seq<Seq<char>>, i: int)
    requires
        0 <= i < keys.len(),
        keys.no_duplicates(),
    ensures
        !keys.take(i).contains(keys[i]),
        forall|key: Seq<char>| #[trigger]
            keys.take(i + 1).contains(key) <==> keys.take(i).contains(key) || key == keys[i],
{
    let less = keys.take(i);
    let more = keys.take(i + 1);
    if less.contains(keys[i]) {
        let j = choose|j: int| 0 <= j < less.len() && less[j] == keys[i];
        assert(keys[j] == keys[i]);
    }
    assert forall|key: Seq<char>| #[trigger] more.contains(key) <==> less.contains(key) || key
        == keys[i] by {
        if more.contains(key) {
            let j = choose|j: int| 0 <= j < more.len() && more[j] == key;
            if j < i {
                assert(less[j] == key);
            }
        }
        if less.contains(key) {
            let j = choose|j: int| 0 <= j < less.len() && less[j] == key;
            assert(more[j] == key);
        }
        assert(more[i] == keys[i]);
    }
}

/// A sequence without elements shows nothing.
proof fn lemma_empty_shows_nothing()
    ensures
        rga_model::visible(rga_model::empty_list::<JsonValue>().nodes).len() == 0,
{
    reveal(Seq::filter);
}

} // verus!
