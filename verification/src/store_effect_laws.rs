//! Laws of what envelopes, merges and pruning do to a store, name by name.

use crate::json;
use crate::json::JsonError;
use crate::json::JsonValue;
use crate::lww_register;
use crate::lww_register::LWWOp;
use crate::lww_register::LWWRegister;
use crate::lww_register::WriteView;
use crate::or_set;
use crate::or_set::ORSet;
use crate::or_set::SetOpView;
use crate::proxy::StateProxy;
use crate::rga::RGA;
use crate::rga_model;
use crate::rga_model::OpView;
use crate::state_store;
use crate::state_store::Envelope;
use crate::state_store::StoreOp;
use crate::store_laws;
use crate::store_model;
use crate::store_model::EnvelopeView;
use crate::store_model::StoreOpView;
use crate::store_model::StoreView;
use crate::wasm;
use crate::wasm::WasmStateStore;
use vstd::prelude::*;

verus! {

// ── Looking up ───────────────────────────────────────────────────────────────

/// What a store holds under a name: what stands there, and if nothing does, a register
/// that was never written, an empty set, an empty sequence.  A new store holds nothing.
pub proof fn law_names_hold_what_stands_there(store: StoreView, key: Seq<char>)
    ensures
        store.registers.contains_key(key) ==> store.register(key) == store.registers[key],
        !store.registers.contains_key(key) ==> store.register(key) is None,
        store.sets.contains_key(key) ==> store.set(key) == store.sets[key],
        !store.sets.contains_key(key) ==> store.set(key) == or_set::empty_set::<JsonValue>(),
        store.sequences.contains_key(key) ==> store.sequence(key) == store.sequences[key],
        !store.sequences.contains_key(key) ==> store.sequence(key) == rga_model::empty_list::<
            JsonValue,
        >(),
        store.items(key) == rga_model::visible(store.sequence(key).nodes),
        store_model::empty_store().clock == 0,
        !store_model::empty_store().registers.contains_key(key),
        !store_model::empty_store().sets.contains_key(key),
        !store_model::empty_store().sequences.contains_key(key),
{
}

// ── Receiving ────────────────────────────────────────────────────────────────

/// The thing that an envelope names receives its operation, and nothing else in the store
/// changes; the clock is then the later of its own time and that of the envelope.
pub proof fn law_envelopes_reach_what_they_name(
    store: StoreView,
    env: EnvelopeView,
    other: Seq<char>,
)
    ensures
        ({
            let next = store_model::received(store, env);
            &&& next.clock >= store.clock
            &&& next.clock >= env.timestamp
            &&& next.clock == store.clock || next.clock == env.timestamp
            &&& match env.op {
                StoreOpView::Register { key, op } => {
                    &&& next.registers.contains_key(key)
                    &&& next.registers[key] == lww_register::written(store.register(key), op)
                    &&& other != key ==> {
                        &&& next.registers.contains_key(other) <==> store.registers.contains_key(
                            other,
                        )
                        &&& store.registers.contains_key(other) ==> next.registers[other]
                            == store.registers[other]
                    }
                    &&& next.sets == store.sets
                    &&& next.sequences == store.sequences
                },
                StoreOpView::OrSet { key, op } => {
                    &&& next.sets.contains_key(key)
                    &&& next.sets[key] == or_set::after(store.set(key), op)
                    &&& other != key ==> {
                        &&& next.sets.contains_key(other) <==> store.sets.contains_key(other)
                        &&& store.sets.contains_key(other) ==> next.sets[other]
                            == store.sets[other]
                    }
                    &&& next.registers == store.registers
                    &&& next.sequences == store.sequences
                },
                StoreOpView::Sequence { key, op } => {
                    &&& next.sequences.contains_key(key)
                    &&& next.sequences[key] == rga_model::receive(store.sequence(key), op)
                    &&& other != key ==> {
                        &&& next.sequences.contains_key(other) <==> store.sequences.contains_key(
                            other,
                        )
                        &&& store.sequences.contains_key(other) ==> next.sequences[other]
                            == store.sequences[other]
                    }
                    &&& next.registers == store.registers
                    &&& next.sets == store.sets
                },
            }
        }),
{
}

/// Envelopes are received one after the other.
pub proof fn law_envelopes_are_received_one_by_one(
    store: StoreView,
    envs: Seq<EnvelopeView>,
    env: EnvelopeView,
)
    ensures
        store_laws::received_all(store, Seq::empty()) == store,
        store_laws::received_all(store, envs.push(env)) == store_model::received(
            store_laws::received_all(store, envs),
            env,
        ),
{
    assert(envs.push(env).drop_last() =~= envs);
}

/// Moving the clock on moves nothing else.
pub proof fn law_ticking_moves_the_clock_only(store: StoreView)
    requires
        store.clock < u64::MAX,
    ensures
        store_model::ticked(store).clock == store.clock + 1,
        store_model::ticked(store).registers == store.registers,
        store_model::ticked(store).sets == store.sets,
        store_model::ticked(store).sequences == store.sequences,
{
}

// ── Making envelopes ─────────────────────────────────────────────────────────

/// Every local change is announced at the next time of the clock, by its own node.
pub proof fn law_envelopes_bear_the_next_time(
    store: StoreView,
    owner: Seq<char>,
    key: Seq<char>,
    value: JsonValue,
    suffix: Seq<char>,
    element: Seq<char>,
    index: int,
)
    requires
        store.clock < u64::MAX,
    ensures
        ({
            let write = store_model::register_envelope(store, owner, key, value);
            let addition = store_model::addition_envelope(store, owner, key, value, suffix);
            let removal = store_model::removal_envelope(store, owner, key, element);
            let insertion = store_model::insertion_envelope(store, owner, key, index, value);
            let deletion = store_model::deletion_envelope(store, owner, key, index);
            &&& write.timestamp == store.clock + 1 && write.node == owner
            &&& addition.timestamp == store.clock + 1 && addition.node == owner
            &&& removal.timestamp == store.clock + 1 && removal.node == owner
            &&& insertion.timestamp == store.clock + 1 && insertion.node == owner
            &&& deletion.timestamp == store.clock + 1 && deletion.node == owner
            &&& write.op is Register && write.op->Register_key == key
            &&& addition.op is OrSet && addition.op->OrSet_key == key
            &&& removal.op is OrSet && removal.op->OrSet_key == key
            &&& insertion.op is Sequence && insertion.op->Sequence_key == key
            &&& deletion.op is Sequence && deletion.op->Sequence_key == key
        }),
{
}

/// What local changes carry: a write its value and its stamp, an addition its value and a
/// token of the node, a removal exactly the tokens under which the element is in the set,
/// an insertion and a deletion what the sequence makes of their index.
pub proof fn law_envelopes_carry_the_change(
    store: StoreView,
    owner: Seq<char>,
    key: Seq<char>,
    value: JsonValue,
    suffix: Seq<char>,
    element: Seq<char>,
    index: int,
    token: Seq<char>,
)
    requires
        store.clock < u64::MAX,
    ensures
        store_model::register_envelope(store, owner, key, value).op
            matches StoreOpView::Register { op, .. } && op.value == value && op.timestamp
            == store.clock + 1 && op.node == owner,
        store_model::addition_envelope(store, owner, key, value, suffix).op
            matches StoreOpView::OrSet { op, .. } && op matches SetOpView::Add { value: v, token: t }
            && v == value && t == owner + seq!['-'] + suffix,
        store_model::removal_envelope(store, owner, key, element).op
            matches StoreOpView::OrSet { op, .. } && op matches SetOpView::Remove { tokens } && (
        tokens.contains(token) <==> store.set(key).pairs.contains((element, token))),
        store_model::insertion_envelope(store, owner, key, index, value).op
            matches StoreOpView::Sequence { op, .. } && op == rga_model::insertion(
            store.sequence(key),
            owner,
            index,
            value,
        ),
        store_model::deletion_envelope(store, owner, key, index).op
            matches StoreOpView::Sequence { op, .. } && op == rga_model::deletion(
            store.sequence(key).nodes,
            index,
        ),
{
}

// ── Merging and pruning ──────────────────────────────────────────────────────

/// A merge brings together what the two stores hold, name by name; what only one holds
/// the merged store holds too.
pub proof fn law_merges_go_name_by_name(a: StoreView, b: StoreView, key: Seq<char>)
    ensures
        ({
            let m = store_model::merged(a, b);
            &&& m.clock >= a.clock
            &&& m.clock >= b.clock
            &&& m.clock == a.clock || m.clock == b.clock
            &&& m.registers.contains_key(key) <==> a.registers.contains_key(key)
                || b.registers.contains_key(key)
            &&& m.registers.contains_key(key) ==> m.registers[key] == lww_register::joined(
                a.register(key),
                b.register(key),
            )
            &&& m.sets.contains_key(key) <==> a.sets.contains_key(key) || b.sets.contains_key(key)
            &&& b.sets.contains_key(key) ==> m.sets[key] == or_set::merged(
                a.set(key),
                b.sets[key],
            )
            &&& !b.sets.contains_key(key) && a.sets.contains_key(key) ==> m.sets[key]
                == a.sets[key]
            &&& m.sequences.contains_key(key) <==> a.sequences.contains_key(key)
                || b.sequences.contains_key(key)
            &&& b.sequences.contains_key(key) ==> m.sequences[key] == rga_model::merged(
                a.sequence(key),
                b.sequences[key],
            )
            &&& !b.sequences.contains_key(key) && a.sequences.contains_key(key)
                ==> m.sequences[key] == a.sequences[key]
        }),
{
}

/// Pruning drops old tombstones from the sequences and changes nothing else.
pub proof fn law_pruning_touches_tombstones_only(store: StoreView, before: u64, key: Seq<char>)
    ensures
        ({
            let next = store_model::pruned(store, before);
            &&& next.clock == store.clock
            &&& next.registers == store.registers
            &&& next.sets == store.sets
            &&& next.sequences.contains_key(key) <==> store.sequences.contains_key(key)
            &&& store.sequences.contains_key(key) ==> {
                &&& next.sequences[key].nodes == rga_model::pruned(
                    store.sequences[key].nodes,
                    before,
                )
                &&& next.sequences[key].pending == store.sequences[key].pending
                &&& next.sequences[key].graves == store.sequences[key].graves
                &&& next.sequences[key].clock == store.sequences[key].clock
            }
        }),
{
}

// ── Values as they are held ──────────────────────────────────────────────────

/// Envelopes and what they carry are seen as they are.
pub proof fn law_envelopes_are_seen_as_they_are(env: Envelope, write: LWWOp<JsonValue>)
    ensures
        env@.timestamp == env.timestamp,
        env@.node == env.node_id@,
        match env.op {
            StoreOp::Register { key, op } => env@.op == (StoreOpView::Register {
                key: key@,
                op: op@,
            }),
            StoreOp::OrSet { key, op } => env@.op == (StoreOpView::OrSet { key: key@, op: op@ }),
            StoreOp::Sequence { key, op } => env@.op == (StoreOpView::Sequence {
                key: key@,
                op: op@,
            }),
        },
        write@ == (WriteView {
            value: write.value,
            timestamp: write.timestamp,
            node: write.node_id@,
        }),
{
}

/// The tables of a store are seen name by name.
pub proof fn law_tables_are_seen_name_by_name(
    registers: Map<Seq<char>, LWWRegister<JsonValue>>,
    sets: Map<Seq<char>, ORSet<JsonValue>>,
    sequences: Map<Seq<char>, RGA<JsonValue>>,
    key: Seq<char>,
)
    ensures
        state_store::register_views(registers).contains_key(key) <==> registers.contains_key(key),
        registers.contains_key(key) ==> state_store::register_views(registers)[key]
            == registers[key]@,
        state_store::set_views(sets).contains_key(key) <==> sets.contains_key(key),
        sets.contains_key(key) ==> state_store::set_views(sets)[key] == sets[key]@,
        state_store::sequence_views(sequences).contains_key(key) <==> sequences.contains_key(key),
        sequences.contains_key(key) ==> state_store::sequence_views(sequences)[key]
            == sequences[key]@,
{
}

// ── Proxies ──────────────────────────────────────────────────────────────────

/// A change that a proxy recorded was received by its store and put at the end of its
/// queue, unsigned; what was queued before stays.
pub proof fn law_recorded_changes_are_queued(
    proxy: &StateProxy,
    before: &StateProxy,
    env: EnvelopeView,
    i: int,
)
    requires
        proxy.recorded(*before, env),
    ensures
        proxy.current()@ == store_model::received(before.current()@, env),
        proxy.current().owner() == before.current().owner(),
        proxy.pending@.len() == before.pending@.len() + 1,
        0 <= i < before.pending@.len() ==> proxy.pending@[i] == before.pending@[i],
        proxy.pending@.last()@ == env,
        proxy.pending@.last().signature is None,
        proxy.queue().len() == proxy.pending@.len(),
        0 <= i < proxy.pending@.len() ==> proxy.queue()[i] == proxy.pending@[i]@,
{
    assert(proxy.pending@.drop_last() == before.pending@);
    if 0 <= i < before.pending@.len() {
        assert(proxy.pending@.drop_last()[i] == proxy.pending@[i]);
    }
}

/// Values can be inserted where no clock is at its end and the sequence reaches to the
/// index.
pub proof fn law_when_there_is_room(store: WasmStateStore, key: Seq<char>, index: int)
    ensures
        store.has_room(key, index) <==> store@.clock < u64::MAX && store@.sequence(key).clock
            < u64::MAX && index <= store@.items(key).len(),
{
}

/// An insertion by text either reads the text, makes the insertion of its value at the
/// index, and receives it; or refuses the text and changes nothing.
pub proof fn law_insertion_by_text(
    before: WasmStateStore,
    after: WasmStateStore,
    key: Seq<char>,
    index: int,
    text: Seq<char>,
    env: Result<Envelope, JsonError>,
)
    requires
        wasm::inserted(before, after, key, index, text, env),
    ensures
        env is Ok <==> json::json_form(text) is Ok,
        match env {
            Ok(e) => {
                &&& after@ == store_model::received(before@, e@)
                &&& e.signature is None
                &&& e@.op matches StoreOpView::Sequence { key: k, op } && {
                    &&& k == key
                    &&& op matches OpView::Insert { value, .. } && json::json_form(text) == Ok::<
                        Seq<char>,
                        Seq<char>,
                    >(value@)
                    &&& op == rga_model::insertion(
                        before@.sequence(key),
                        before.owner(),
                        index,
                        op->value,
                    )
                }
            },
            Err(error) => after == before && json::json_form(text) == Err::<Seq<char>, Seq<char>>(
                error.message@,
            ),
        },
{
}

} // verus!
