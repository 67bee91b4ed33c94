//! Laws of the store: what a store shows of its own changes, and that stores which
//! received the same envelopes hold the same.

use crate::json::JsonValue;
use crate::lww_laws;
use crate::lww_register::WriteView;
use crate::or_set;
use crate::or_set::SetOpView;
use crate::or_set_laws;
use crate::rga_edit_laws;
use crate::rga_facts;
use crate::rga_laws;
use crate::rga_model;
use crate::rga_model::OpView;
use crate::store_model;
use crate::store_model::EnvelopeView;
use crate::store_model::StoreOpView;
use crate::store_model::StoreView;
use vstd::prelude::*;

verus! {

/// The state after receiving the envelopes `envs` in this order.
pub open spec fn received_all(store: StoreView, envs: Seq<EnvelopeView>) -> StoreView
    decreases envs.len(),
{
    if envs.len() == 0 {
        store
    } else {
        store_model::received(received_all(store, envs.drop_last()), envs.last())
    }
}

/// The state of a new store that received the envelopes `envs` in this order.
pub open spec fn replay(envs: Seq<EnvelopeView>) -> StoreView {
    received_all(store_model::empty_store(), envs)
}

/// The two states hold the same, up to the order of the operations that a sequence
/// holds back, repetitions among them, and which of equal values stands for an element
/// of a set.
pub open spec fn agree(a: StoreView, b: StoreView) -> bool {
    &&& a.clock == b.clock
    &&& a.registers == b.registers
    &&& forall|key: Seq<char>| #[trigger] a.sets.contains_key(key) <==> b.sets.contains_key(key)
    &&& forall|key: Seq<char>|
        #![trigger a.set(key)]
        #![trigger b.set(key)]
        or_set_laws::same_set(a.set(key), b.set(key))
    &&& forall|key: Seq<char>| #[trigger]
        a.sequences.contains_key(key) <==> b.sequences.contains_key(key)
    &&& forall|key: Seq<char>|
        #![trigger a.sequence(key)]
        #![trigger b.sequence(key)]
        rga_laws::same_state(a.sequence(key), b.sequence(key))
}

/// Stores that agree show the same.
pub proof fn law_agreeing_stores_show_the_same(a: StoreView, b: StoreView, key: Seq<char>)
    requires
        agree(a, b),
    ensures
        a.register(key) == b.register(key),
        or_set::members(a.set(key)) == or_set::members(b.set(key)),
        a.items(key) == b.items(key),
{
    assert(or_set_laws::same_set(a.set(key), b.set(key)));
    assert(rga_laws::same_state(a.sequence(key), b.sequence(key)));
}

/// Receiving an envelope a second time has no effect.
pub proof fn law_receive_idempotent(store: StoreView, env: EnvelopeView)
    requires
        store.well_formed(),
    ensures
        agree(
            store_model::received(store_model::received(store, env), env),
            store_model::received(store, env),
        ),
{
    let once = store_model::received(store, env);
    let twice = store_model::received(once, env);
    match env.op {
        StoreOpView::Register { key, op } => {
            lww_laws::law_apply_idempotent(store.register(key), op);
            assert(twice.registers =~= once.registers);
        },
        StoreOpView::OrSet { key, op } => {
            or_set_laws::law_apply_idempotent(store.set(key), op);
            assert(twice.sets =~= once.sets);
        },
        StoreOpView::Sequence { key, op } => {
            lemma_sequence_well_formed(store, key);
            rga_edit_laws::law_receive_idempotent(store.sequence(key), op);
        },
    }
    assert forall|key: Seq<char>| rga_laws::same_state(
        #[trigger] twice.sequence(key),
        #[trigger] once.sequence(key),
    ) by {}
}

proof fn lemma_sequence_well_formed(store: StoreView, key: Seq<char>)
    requires
        store.well_formed(),
    ensures
        store.sequence(key).well_formed(),
{
    if store.sequences.contains_key(key) {
        assert(store.sequences[key].well_formed());
    }
}

/// The two operations are about the same thing.
pub open spec fn same_target(a: StoreOpView, b: StoreOpView) -> bool {
    match (a, b) {
        (StoreOpView::Register { key: k, .. }, StoreOpView::Register { key: l, .. }) => k == l,
        (StoreOpView::OrSet { key: k, .. }, StoreOpView::OrSet { key: l, .. }) => k == l,
        (StoreOpView::Sequence { key: k, .. }, StoreOpView::Sequence { key: l, .. }) => k == l,
        _ => false,
    }
}

/// Envelopes about different things may be received in either order.
pub proof fn law_different_targets_commute(store: StoreView, a: EnvelopeView, b: EnvelopeView)
    requires
        !same_target(a.op, b.op),
    ensures
        store_model::received(store_model::received(store, a), b) == store_model::received(
            store_model::received(store, b),
            a,
        ),
{
    let left = store_model::received(store_model::received(store, a), b);
    let right = store_model::received(store_model::received(store, b), a);
    assert(left.registers =~= right.registers);
    assert(left.sets =~= right.sets);
    assert(left.sequences =~= right.sequences);
}

// ── What a store shows of its own changes ────────────────────────────────────

/// No register holds a write from a time after the clock.
pub open spec fn timely(store: StoreView) -> bool {
    forall|key: Seq<char>| #[trigger]
        store.registers.contains_key(key) && store.registers[key] is Some ==> store.registers[key]->0.timestamp
            <= store.clock
}

/// An envelope with a write carries at least the time of the write.
pub open spec fn honest(env: EnvelopeView) -> bool {
    env.op matches StoreOpView::Register { op, .. } ==> op.timestamp <= env.timestamp
}

/// No register of a store gets ahead of its clock: not in a new store, not by
/// envelopes that carry the time of their write, and not by a merge.
pub proof fn law_clock_keeps_up(store: StoreView, env: EnvelopeView, other: StoreView)
    requires
        timely(store),
        timely(other),
        honest(env),
    ensures
        timely(store_model::empty_store()),
        timely(store_model::received(store, env)),
        timely(store_model::merged(store, other)),
{
    let next = store_model::received(store, env);
    assert forall|key: Seq<char>| #[trigger]
        next.registers.contains_key(key) && next.registers[key] is Some implies next.registers[key]->0.timestamp
        <= next.clock by {
        if store.registers.contains_key(key) && store.registers[key] is Some {
            assert(store.registers[key]->0.timestamp <= store.clock);
        }
    }
    let both = store_model::merged(store, other);
    assert forall|key: Seq<char>| #[trigger]
        both.registers.contains_key(key) && both.registers[key] is Some implies both.registers[key]->0.timestamp
        <= both.clock by {
        if store.registers.contains_key(key) && store.registers[key] is Some {
            assert(store.registers[key]->0.timestamp <= store.clock);
        }
        if other.registers.contains_key(key) && other.registers[key] is Some {
            assert(other.registers[key]->0.timestamp <= other.clock);
        }
    }
}

/// What is written to a register is read from it.
pub proof fn law_write_is_read(
    store: StoreView,
    owner: Seq<char>,
    key: Seq<char>,
    value: JsonValue,
)
    requires
        timely(store),
        store.clock < u64::MAX,
    ensures
        ({
            let env = store_model::register_envelope(store, owner, key, value);
            let next = store_model::received(store, env);
            &&& honest(env)
            &&& next.register(key) matches Some(held) && held.value == value
        }),
{
    if store.registers.contains_key(key) && store.registers[key] is Some {
        assert(store.registers[key]->0.timestamp <= store.clock);
    }
}

/// What is written to a register is read from it at every store that receives the
/// envelope and holds no later write.
pub proof fn law_write_reaches_others(
    store: StoreView,
    owner: Seq<char>,
    key: Seq<char>,
    value: JsonValue,
    peer: StoreView,
)
    requires
        store.clock < u64::MAX,
        peer.register(key) matches Some(held) ==> held.timestamp <= store.clock,
    ensures
        ({
            let env = store_model::register_envelope(store, owner, key, value);
            let next = store_model::received(peer, env);
            next.register(key) matches Some(held) && held.value == value
        }),
{
}

/// What is added to a set is in it, here and at every store that receives the
/// envelope and at which the new token was not removed; the other elements stay.
pub proof fn law_added_is_member(
    store: StoreView,
    owner: Seq<char>,
    key: Seq<char>,
    value: JsonValue,
    suffix: Seq<char>,
    peer: StoreView,
)
    requires
        !peer.set(key).gone.contains(store_model::token(owner, suffix)),
    ensures
        ({
            let env = store_model::addition_envelope(store, owner, key, value, suffix);
            or_set::members(store_model::received(peer, env).set(key)) == or_set::members(
                peer.set(key),
            ).insert(value.deep_view())
        }),
{
    or_set_laws::law_added_is_member(peer.set(key), value, store_model::token(owner, suffix));
}

/// What is removed from a set is no longer in it; the other elements stay.
pub proof fn law_removed_is_gone(
    store: StoreView,
    owner: Seq<char>,
    key: Seq<char>,
    element: Seq<char>,
)
    requires
        or_set_laws::tokens_unique(store.set(key)),
    ensures
        ({
            let env = store_model::removal_envelope(store, owner, key, element);
            or_set::members(store_model::received(store, env).set(key)) == or_set::members(
                store.set(key),
            ).remove(element)
        }),
{
    or_set_laws::law_removed_is_gone(store.set(key), element);
}

/// A value that is inserted into a sequence is shown at its index, and the others keep
/// their order, provided that no insertion held back waits for the new element.
pub proof fn law_insert_shows(
    store: StoreView,
    owner: Seq<char>,
    key: Seq<char>,
    index: int,
    value: JsonValue,
)
    requires
        store.well_formed(),
        forall|i: int|
            0 <= i < store.sequence(key).pending.len() ==> !rga_edit_laws::goes_behind(
                #[trigger] store.sequence(key).pending[i],
                rga_model::insertion(store.sequence(key), owner, index, value).target(),
            ),
        store.sequence(key).clock < u64::MAX,
        0 <= index <= store.items(key).len(),
    ensures
        ({
            let env = store_model::insertion_envelope(store, owner, key, index, value);
            store_model::received(store, env).items(key) == store.items(key).insert(index, value)
        }),
{
    lemma_sequence_well_formed(store, key);
    rga_edit_laws::law_insert_shows(store.sequence(key), owner, index, value);
}

/// An element that is deleted from a sequence is no longer shown; the others keep
/// their order.
pub proof fn law_delete_hides(
    store: StoreView,
    owner: Seq<char>,
    key: Seq<char>,
    index: int,
)
    requires
        store.well_formed(),
        0 <= index < store.items(key).len(),
    ensures
        ({
            let env = store_model::deletion_envelope(store, owner, key, index);
            store_model::received(store, env).items(key) == store.items(key).remove(index)
        }),
{
    lemma_sequence_well_formed(store, key);
    rga_edit_laws::law_delete_hides(store.sequence(key), index);
}

/// A change in one place is not seen in any other.
pub proof fn law_changes_stay_in_place(store: StoreView, env: EnvelopeView, key: Seq<char>)
    ensures
        ({
            let next = store_model::received(store, env);
            &&& !(env.op is Register && env.op.key() == key) ==> next.register(key)
                == store.register(key)
            &&& !(env.op is OrSet && env.op.key() == key) ==> next.set(key) == store.set(key)
            &&& !(env.op is Sequence && env.op.key() == key) ==> next.sequence(key)
                == store.sequence(key)
        }),
{
}

// ── Convergence ──────────────────────────────────────────────────────────────

/// The writes to the register `key` among `envs`.
pub open spec fn register_ops(envs: Seq<EnvelopeView>, key: Seq<char>) -> Seq<
    WriteView<JsonValue>,
>
    decreases envs.len(),
{
    if envs.len() == 0 {
        Seq::empty()
    } else {
        let front = register_ops(envs.drop_last(), key);
        match envs.last().op {
            StoreOpView::Register { key: k, op } => if k == key {
                front.push(op)
            } else {
                front
            },
            _ => front,
        }
    }
}

/// The operations on the set `key` among `envs`.
pub open spec fn set_ops(envs: Seq<EnvelopeView>, key: Seq<char>) -> Seq<SetOpView<JsonValue>>
    decreases envs.len(),
{
    if envs.len() == 0 {
        Seq::empty()
    } else {
        let front = set_ops(envs.drop_last(), key);
        match envs.last().op {
            StoreOpView::OrSet { key: k, op } => if k == key {
                front.push(op)
            } else {
                front
            },
            _ => front,
        }
    }
}

/// The operations on the sequence `key` among `envs`.
pub open spec fn sequence_ops(envs: Seq<EnvelopeView>, key: Seq<char>) -> Seq<OpView<JsonValue>>
    decreases envs.len(),
{
    if envs.len() == 0 {
        Seq::empty()
    } else {
        let front = sequence_ops(envs.drop_last(), key);
        match envs.last().op {
            StoreOpView::Sequence { key: k, op } => if k == key {
                front.push(op)
            } else {
                front
            },
            _ => front,
        }
    }
}

/// The latest time among `envs`.
pub open spec fn latest(envs: Seq<EnvelopeView>) -> u64
    decreases envs.len(),
{
    if envs.len() == 0 {
        0
    } else {
        rga_model::later(latest(envs.drop_last()), envs.last().timestamp)
    }
}

/// Each thing in a store is what its own operations make of it, and the clock is
/// at the latest time received.
pub proof fn law_store_is_its_parts(envs: Seq<EnvelopeView>, key: Seq<char>)
    ensures
        replay(envs).register(key) == lww_laws::replay(register_ops(envs, key)),
        replay(envs).set(key) == or_set_laws::replay(set_ops(envs, key)),
        replay(envs).sequence(key) == rga_laws::replay(sequence_ops(envs, key)),
        replay(envs).clock == latest(envs),
    decreases envs.len(),
{
    if envs.len() > 0 {
        let front = envs.drop_last();
        law_store_is_its_parts(front, key);
        let env = envs.last();
        match env.op {
            StoreOpView::Register { key: k, op } => {
                if k == key {
                    assert(register_ops(envs, key).drop_last() =~= register_ops(front, key));
                }
            },
            StoreOpView::OrSet { key: k, op } => {
                if k == key {
                    assert(set_ops(envs, key).drop_last() =~= set_ops(front, key));
                }
            },
            StoreOpView::Sequence { key: k, op } => {
                if k == key {
                    assert(sequence_ops(envs, key).drop_last() =~= sequence_ops(front, key));
                }
            },
        }
    }
}

/// The envelope at position `i` carries the operation `op`.
pub open spec fn carries(envs: Seq<EnvelopeView>, i: int, op: StoreOpView) -> bool {
    0 <= i < envs.len() && envs[i].op == op
}

/// Some envelope carries the operation `op`.
pub open spec fn carried(envs: Seq<EnvelopeView>, op: StoreOpView) -> bool {
    exists|i: int| carries(envs, i, op)
}

/// An operation is among those on a thing if some envelope carries it.
proof fn lemma_projections(envs: Seq<EnvelopeView>, key: Seq<char>)
    ensures
        forall|op: WriteView<JsonValue>| #[trigger]
            register_ops(envs, key).contains(op) <==> carried(
                envs,
                StoreOpView::Register { key, op },
            ),
        forall|op: SetOpView<JsonValue>| #[trigger]
            set_ops(envs, key).contains(op) <==> carried(
                envs,
                StoreOpView::OrSet { key, op },
            ),
        forall|op: OpView<JsonValue>| #[trigger]
            sequence_ops(envs, key).contains(op) <==> carried(
                envs,
                StoreOpView::Sequence { key, op },
            ),
    decreases envs.len(),
{
    if envs.len() > 0 {
        let front = envs.drop_last();
        let n = envs.len() - 1;
        lemma_projections(front, key);
        assert forall|op: WriteView<JsonValue>| #[trigger]
            register_ops(envs, key).contains(op) <==> carried(
                envs,
                StoreOpView::Register { key, op },
            ) by {
            lemma_carries(envs, StoreOpView::Register { key, op });
            if let StoreOpView::Register { op: last, .. } = envs[n].op {
                lemma_push_contains(register_ops(front, key), last, op);
            }
        }
        assert forall|op: SetOpView<JsonValue>| #[trigger]
            set_ops(envs, key).contains(op) <==> carried(
                envs,
                StoreOpView::OrSet { key, op },
            ) by {
            lemma_carries(envs, StoreOpView::OrSet { key, op });
            if let StoreOpView::OrSet { op: last, .. } = envs[n].op {
                lemma_push_contains(set_ops(front, key), last, op);
            }
        }
        assert forall|op: OpView<JsonValue>| #[trigger]
            sequence_ops(envs, key).contains(op) <==> carried(
                envs,
                StoreOpView::Sequence { key, op },
            ) by {
            lemma_carries(envs, StoreOpView::Sequence { key, op });
            if let StoreOpView::Sequence { op: last, .. } = envs[n].op {
                lemma_push_contains(sequence_ops(front, key), last, op);
            }
        }
    }
}

proof fn lemma_carries(envs: Seq<EnvelopeView>, op: StoreOpView)
    requires
        envs.len() > 0,
    ensures
        carried(envs, op) <==> carried(envs.drop_last(), op) || envs.last().op == op,
{
    let front = envs.drop_last();
    if carried(envs, op) {
        let i = choose|i: int| carries(envs, i, op);
        if i < front.len() {
            assert(carries(front, i, op));
        }
    }
    if carried(front, op) {
        let i = choose|i: int| carries(front, i, op);
        assert(carries(envs, i, op));
    }
    if envs.last().op == op {
        assert(carries(envs, envs.len() - 1, op));
    }
}

proof fn lemma_push_contains<A>(s: Seq<A>, last: A, x: A)
    ensures
        s.push(last).contains(x) <==> s.contains(x) || x == last,
{
    if s.contains(x) {
        let i = choose|i: int| 0 <= i < s.len() && s[i] == x;
        assert(s.push(last)[i] == x);
    }
    assert(s.push(last)[s.len() as int] == last);
}

/// What a store may be sent: writes of a node have different times, and insertions
/// have identifiers of their own and go behind older elements.
pub open spec fn orderly(envs: Seq<EnvelopeView>) -> bool {
    forall|key: Seq<char>|
        #![trigger register_ops(envs, key)]
        #![trigger sequence_ops(envs, key)]
        {
            &&& lww_laws::all_compatible(register_ops(envs, key))
            &&& rga_laws::unique(sequence_ops(envs, key))
            &&& rga_laws::all_ordered(sequence_ops(envs, key))
        }
}

/// Stores that received the same envelopes, in whatever order and however often,
/// agree, provided that different writes and different insertions can be told apart.
pub proof fn law_converges(a: Seq<EnvelopeView>, b: Seq<EnvelopeView>)
    requires
        forall|env: EnvelopeView| #[trigger] a.contains(env) <==> b.contains(env),
        orderly(a),
    ensures
        agree(replay(a), replay(b)),
{
    let (x, y) = (replay(a), replay(b));
    lemma_latest(a, b);
    assert forall|env: EnvelopeView| #[trigger] b.contains(env) implies a.contains(env) by {
        assert(a.contains(env) <==> b.contains(env));
    }
    lemma_latest(b, a);
    law_store_is_its_parts(a, Seq::empty());
    law_store_is_its_parts(b, Seq::empty());
    assert forall|key: Seq<char>| #[trigger] x.register(key) == y.register(key) by {
        lemma_same_operations(a, b, key);
        law_store_is_its_parts(a, key);
        law_store_is_its_parts(b, key);
        lww_laws::law_converges(register_ops(a, key), register_ops(b, key));
    }
    assert forall|key: Seq<char>| or_set_laws::same_set(
        #[trigger] x.set(key),
        #[trigger] y.set(key),
    ) by {
        lemma_same_operations(a, b, key);
        law_store_is_its_parts(a, key);
        law_store_is_its_parts(b, key);
        or_set_laws::law_converges(set_ops(a, key), set_ops(b, key));
    }
    assert forall|key: Seq<char>| rga_laws::same_state(
        #[trigger] x.sequence(key),
        #[trigger] y.sequence(key),
    ) by {
        lemma_same_operations(a, b, key);
        law_store_is_its_parts(a, key);
        law_store_is_its_parts(b, key);
        rga_laws::law_converges_in_any_order(sequence_ops(a, key), sequence_ops(b, key));
    }
    assert forall|key: Seq<char>| #[trigger]
        x.registers.contains_key(key) <==> y.registers.contains_key(key) by {
        lemma_present(a, key);
        lemma_present(b, key);
        lemma_same_operations(a, b, key);
        lemma_nonempty(register_ops(a, key), register_ops(b, key));
    }
    assert forall|key: Seq<char>| #[trigger]
        x.sets.contains_key(key) <==> y.sets.contains_key(key) by {
        lemma_present(a, key);
        lemma_present(b, key);
        lemma_same_operations(a, b, key);
        lemma_nonempty(set_ops(a, key), set_ops(b, key));
    }
    assert forall|key: Seq<char>| #[trigger]
        x.sequences.contains_key(key) <==> y.sequences.contains_key(key) by {
        lemma_present(a, key);
        lemma_present(b, key);
        lemma_same_operations(a, b, key);
        lemma_nonempty(sequence_ops(a, key), sequence_ops(b, key));
    }
    assert(x.registers =~= y.registers) by {
        assert forall|key: Seq<char>| #[trigger] x.registers.contains_key(key) implies
            x.registers[key] == y.registers[key] by {
            assert(x.register(key) == y.register(key));
        }
    }
}

proof fn lemma_nonempty<A>(a: Seq<A>, b: Seq<A>)
    requires
        forall|op: A| #[trigger] a.contains(op) <==> b.contains(op),
    ensures
        a.len() > 0 <==> b.len() > 0,
{
    if a.len() > 0 {
        assert(a.contains(a[0]));
        assert(b.contains(a[0]));
    }
    if b.len() > 0 {
        assert(b.contains(b[0]));
        assert(a.contains(b[0]));
    }
}

/// A thing exists in a store if an operation on it arrived.
proof fn lemma_present(envs: Seq<EnvelopeView>, key: Seq<char>)
    ensures
        replay(envs).registers.contains_key(key) <==> register_ops(envs, key).len() > 0,
        replay(envs).sets.contains_key(key) <==> set_ops(envs, key).len() > 0,
        replay(envs).sequences.contains_key(key) <==> sequence_ops(envs, key).len() > 0,
    decreases envs.len(),
{
    if envs.len() > 0 {
        lemma_present(envs.drop_last(), key);
    }
}

proof fn lemma_same_operations(a: Seq<EnvelopeView>, b: Seq<EnvelopeView>, key: Seq<char>)
    requires
        forall|env: EnvelopeView| #[trigger] a.contains(env) <==> b.contains(env),
    ensures
        forall|op: WriteView<JsonValue>| #[trigger]
            register_ops(a, key).contains(op) <==> register_ops(b, key).contains(op),
        forall|op: SetOpView<JsonValue>| #[trigger]
            set_ops(a, key).contains(op) <==> set_ops(b, key).contains(op),
        forall|op: OpView<JsonValue>| #[trigger]
            sequence_ops(a, key).contains(op) <==> sequence_ops(b, key).contains(op),
{
    lemma_projections(a, key);
    lemma_projections(b, key);
    assert forall|op: StoreOpView| #[trigger] carried(a, op) <==> carried(b, op) by {
        if carried(a, op) {
            let i = choose|i: int| carries(a, i, op);
            assert(a.contains(a[i]));
            assert(b.contains(a[i]));
            let j = choose|j: int| 0 <= j < b.len() && b[j] == a[i];
            assert(carries(b, j, op));
        }
        if carried(b, op) {
            let i = choose|i: int| carries(b, i, op);
            assert(b.contains(b[i]));
            assert(a.contains(b[i]));
            let j = choose|j: int| 0 <= j < a.len() && a[j] == b[i];
            assert(carries(a, j, op));
        }
    }
}

proof fn lemma_latest(a: Seq<EnvelopeView>, b: Seq<EnvelopeView>)
    requires
        forall|env: EnvelopeView| #[trigger] a.contains(env) ==> b.contains(env),
    ensures
        latest(a) <= latest(b),
{
    lemma_latest_is_bound(b);
    if a.len() > 0 {
        let i = lemma_latest_occurs(a);
        assert(a.contains(a[i]));
        assert(b.contains(a[i]));
        let j = choose|j: int| 0 <= j < b.len() && b[j] == a[i];
        assert(b[j].timestamp <= latest(b));
    }
}

proof fn lemma_latest_is_bound(envs: Seq<EnvelopeView>)
    ensures
        forall|i: int| 0 <= i < envs.len() ==> (#[trigger] envs[i]).timestamp <= latest(envs),
    decreases envs.len(),
{
    if envs.len() > 0 {
        let front = envs.drop_last();
        lemma_latest_is_bound(front);
        assert forall|i: int| 0 <= i < envs.len() implies (#[trigger] envs[i]).timestamp
            <= latest(envs) by {
            if i < front.len() {
                assert(front[i].timestamp <= latest(front));
            }
        }
    }
}

proof fn lemma_latest_occurs(envs: Seq<EnvelopeView>) -> (i: int)
    requires
        envs.len() > 0,
    ensures
        0 <= i < envs.len(),
        envs[i].timestamp == latest(envs),
    decreases envs.len(),
{
    let front = envs.drop_last();
    let n = envs.len() - 1;
    assert(front.len() == 0 ==> latest(front) == 0);
    if front.len() > 0 && latest(front) > envs[n].timestamp {
        let i = lemma_latest_occurs(front);
        assert(envs[i] == front[i]);
        i
    } else {
        n
    }
}

/// Receiving an envelope again, at any later time, has no effect.
pub proof fn law_replaying_is_safe(envs: Seq<EnvelopeView>, i: int)
    requires
        orderly(envs),
        0 <= i < envs.len(),
    ensures
        agree(store_model::received(replay(envs), envs[i]), replay(envs)),
{
    let more = envs.push(envs[i]);
    assert(more.drop_last() =~= envs);
    assert forall|env: EnvelopeView| #[trigger] envs.contains(env) <==> more.contains(env) by {
        lemma_push_contains(envs, envs[i], env);
        assert(envs.contains(envs[i]));
    }
    law_converges(envs, more);
    assert(agree(replay(envs), replay(more)));
}

/// Every state that envelopes lead to is well formed.
pub proof fn law_received_stores_are_well_formed(envs: Seq<EnvelopeView>)
    ensures
        replay(envs).well_formed(),
    decreases envs.len(),
{
    if envs.len() > 0 {
        let front = envs.drop_last();
        law_received_stores_are_well_formed(front);
        let before = replay(front);
        let next = replay(envs);
        assert forall|key: Seq<char>| #[trigger] next.sets.contains_key(key) implies
            next.sets[key].well_formed() by {
            if let StoreOpView::OrSet { key: k, op } = envs.last().op {
                if k == key {
                    if before.sets.contains_key(key) {
                        assert(before.sets[key].well_formed());
                    }
                    or_set_laws::law_apply_keeps_well_formed(before.set(key), op);
                }
            }
            if before.sets.contains_key(key) {
                assert(before.sets[key].well_formed());
            }
        }
        assert forall|key: Seq<char>| #[trigger] next.sequences.contains_key(key) implies
            next.sequences[key].well_formed() by {
            if let StoreOpView::Sequence { key: k, op } = envs.last().op {
                if k == key {
                    lemma_sequence_well_formed(before, key);
                    rga_facts::lemma_receive(before.sequence(key), op);
                }
            }
            if before.sequences.contains_key(key) {
                assert(before.sequences[key].well_formed());
            }
        }
    }
}

/// The latest time among envelopes is the greatest: no envelope is later, and one is of
/// that time, unless there are none with a time.
pub proof fn law_latest_is_the_greatest(envs: Seq<EnvelopeView>)
    ensures
        forall|i: int| 0 <= i < envs.len() ==> (#[trigger] envs[i]).timestamp <= latest(envs),
        latest(envs) > 0 ==> exists|i: int|
            0 <= i < envs.len() && (#[trigger] envs[i]).timestamp == latest(envs),
{
    lemma_latest_is_bound(envs);
    if envs.len() > 0 {
        let i = lemma_latest_occurs(envs);
        assert(envs[i].timestamp == latest(envs));
    }
}

} // verus!
