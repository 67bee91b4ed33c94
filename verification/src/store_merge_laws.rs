//! Laws of merging stores.

use crate::json::JsonValue;
use crate::lww_laws;
use crate::lww_register;
use crate::or_set;
use crate::or_set_laws;
use crate::rga_facts;
use crate::rga_laws;
use crate::rga_merge_laws;
use crate::rga_model;
use crate::rga_model::IdView;
use crate::rga_order;
use crate::rga_order::Birth;
use crate::store_laws;
use crate::store_model;
use crate::store_model::StoreView;
use vstd::prelude::*;

verus! {

/// The insertions into each sequence, by the name of the sequence.
pub type Histories = Map<Seq<char>, Map<IdView, Birth<JsonValue>>>;

/// Every set is well formed, and every sequence of the store is in the order of the
/// insertions on record.
pub open spec fn grown(logs: Histories, store: StoreView) -> bool {
    &&& forall|key: Seq<char>|
        #![trigger store.set(key)]
        store.set(key).well_formed()
    &&& forall|key: Seq<char>|
        #![trigger store.sequence(key)]
        rga_order::sound(logs[key]) && rga_laws::grown(logs[key], store.sequence(key))
}

/// No register holds different values under the same stamp in the two stores.
pub open spec fn compatible(a: StoreView, b: StoreView) -> bool {
    forall|key: Seq<char>|
        #![trigger a.register(key)]
        lww_laws::compatible_states(a.register(key), b.register(key))
}

/// What a merge makes of each thing.
proof fn lemma_merged_parts(a: StoreView, b: StoreView, key: Seq<char>)
    requires
        a.set(key).well_formed(),
        a.sequence(key).well_formed(),
    ensures
        store_model::merged(a, b).register(key) == lww_register::joined(
            a.register(key),
            b.register(key),
        ),
        store_model::merged(a, b).set(key) == or_set::merged(a.set(key), b.set(key)),
        store_model::merged(a, b).sequence(key) == rga_model::merged(
            a.sequence(key),
            b.sequence(key),
        ),
{
    or_set_laws::law_merge(a.set(key), or_set::empty_set(), or_set::empty_set());
    rga_merge_laws::law_merge_of_empty(a.sequence(key), 0);
}

/// What is under a name in a well-formed store is well formed.
proof fn lemma_parts(store: StoreView, key: Seq<char>)
    requires
        store.well_formed(),
    ensures
        store.set(key).well_formed(),
        store.sequence(key).well_formed(),
{
    if store.sets.contains_key(key) {
        assert(store.sets[key].well_formed());
    }
    if store.sequences.contains_key(key) {
        assert(store.sequences[key].well_formed());
    }
}

/// A store that merges another stays well formed.
pub proof fn law_merged_stores_are_well_formed(a: StoreView, b: StoreView)
    requires
        a.well_formed(),
        b.well_formed(),
    ensures
        store_model::merged(a, b).well_formed(),
{
    let m = store_model::merged(a, b);
    assert forall|key: Seq<char>| #[trigger] m.sets.contains_key(key) implies
        m.sets[key].well_formed() by {
        lemma_parts(a, key);
        lemma_parts(b, key);
        or_set_laws::law_merge(a.set(key), b.set(key), or_set::empty_set());
    }
    assert forall|key: Seq<char>| #[trigger] m.sequences.contains_key(key) implies
        m.sequences[key].well_formed() by {
        lemma_parts(a, key);
        lemma_parts(b, key);
        rga_facts::lemma_merged(a.sequence(key), b.sequence(key));
    }
}

/// A new store that merges another shows what the other shows, and is at the same time.
pub proof fn law_merge_into_new(store: StoreView)
    requires
        store.well_formed(),
    ensures
        ({
            let m = store_model::merged(store_model::empty_store(), store);
            &&& m.clock == store.clock
            &&& m.registers == store.registers
            &&& m.sets == store.sets
            &&& forall|key: Seq<char>| #[trigger] m.items(key) == store.items(key)
            &&& forall|key: Seq<char>|
                #![trigger m.sequence(key)]
                m.sequence(key).clock == store.sequence(key).clock && m.sequence(key).nodes
                    == store.sequence(key).nodes && m.sequence(key).graves == store.sequence(
                    key,
                ).graves
        }),
{
    let new = store_model::empty_store();
    let m = store_model::merged(new, store);
    assert(m.registers =~= store.registers);
    assert(m.sets =~= store.sets) by {
        assert forall|key: Seq<char>| #[trigger] m.sets.contains_key(key) implies m.sets[key]
            == store.sets[key] by {
            lemma_parts(store, key);
            or_set_laws::law_merge(store.set(key), new.set(key), new.set(key));
        }
    }
    assert forall|key: Seq<char>|
        #![trigger m.sequence(key)]
        m.sequence(key).clock == store.sequence(key).clock && m.sequence(key).nodes
            == store.sequence(key).nodes && m.sequence(key).graves == store.sequence(
            key,
        ).graves by {
        if store.sequences.contains_key(key) {
            assert(store.sequences[key].well_formed());
            rga_merge_laws::law_merge_into_empty(store.sequences[key]);
        }
    }
    assert forall|key: Seq<char>| #[trigger] m.items(key) == store.items(key) by {
        assert(m.sequence(key).nodes == store.sequence(key).nodes);
    }
}

/// A store at which everything is as merging `other` would make it does not change when
/// it merges `other`.
proof fn lemma_merge_nothing(store: StoreView, other: StoreView)
    requires
        other.clock <= store.clock,
        forall|key: Seq<char>| #[trigger]
            other.registers.contains_key(key) ==> store.registers.contains_key(key),
        forall|key: Seq<char>| #[trigger]
            other.sets.contains_key(key) ==> store.sets.contains_key(key),
        forall|key: Seq<char>| #[trigger]
            other.sequences.contains_key(key) ==> store.sequences.contains_key(key),
        forall|key: Seq<char>| #[trigger]
            lww_register::joined(store.register(key), other.register(key)) == store.register(key),
        forall|key: Seq<char>| #[trigger]
            other.sets.contains_key(key) ==> or_set::merged(store.set(key), other.set(key))
                == store.set(key),
        forall|key: Seq<char>| #[trigger]
            other.sequences.contains_key(key) ==> rga_model::merged(
                store.sequence(key),
                other.sequence(key),
            ) == store.sequence(key),
    ensures
        store_model::merged(store, other) == store,
{
    let m = store_model::merged(store, other);
    assert(m.registers =~= store.registers) by {
        assert forall|key: Seq<char>| #[trigger] m.registers.contains_key(key) implies
            m.registers[key] == store.registers[key] by {
            assert(lww_register::joined(store.register(key), other.register(key))
                == store.register(key));
        }
    }
    assert(m.sets =~= store.sets);
    assert(m.sequences =~= store.sequences);
}

/// A store merged with itself does not change.
pub proof fn law_merge_with_itself(store: StoreView)
    requires
        store.well_formed(),
    ensures
        store_model::merged(store, store) == store,
{
    assert forall|key: Seq<char>| #[trigger]
        lww_register::joined(store.register(key), store.register(key)) == store.register(
            key,
        ) by {
        lww_laws::law_merge_idempotent(store.register(key), store.register(key));
    }
    assert forall|key: Seq<char>| #[trigger] store.sets.contains_key(key) implies or_set::merged(
        store.set(key),
        store.set(key),
    ) == store.set(key) by {
        lemma_parts(store, key);
        or_set_laws::law_merge(store.set(key), store.set(key), store.set(key));
    }
    assert forall|key: Seq<char>| #[trigger]
        store.sequences.contains_key(key) implies rga_model::merged(
        store.sequence(key),
        store.sequence(key),
    ) == store.sequence(key) by {
        lemma_parts(store, key);
        rga_merge_laws::law_merge_with_itself(store.sequence(key));
    }
    lemma_merge_nothing(store, store);
}

/// Merging the same store again changes nothing.
pub proof fn law_merge_again(a: StoreView, b: StoreView)
    requires
        a.well_formed(),
        b.well_formed(),
    ensures
        store_model::merged(store_model::merged(a, b), b) == store_model::merged(a, b),
{
    let m = store_model::merged(a, b);
    assert forall|key: Seq<char>| #[trigger]
        lww_register::joined(m.register(key), b.register(key)) == m.register(key) by {
        lemma_parts(a, key);
        lemma_merged_parts(a, b, key);
        lww_laws::law_merge_idempotent(a.register(key), b.register(key));
    }
    assert forall|key: Seq<char>| #[trigger] b.sets.contains_key(key) implies or_set::merged(
        m.set(key),
        b.set(key),
    ) == m.set(key) by {
        or_set_laws::law_merge(a.set(key), b.set(key), b.set(key));
    }
    assert forall|key: Seq<char>| #[trigger] b.sequences.contains_key(key) implies rga_model::merged(
        m.sequence(key),
        b.sequence(key),
    ) == m.sequence(key) by {
        lemma_parts(a, key);
        lemma_parts(b, key);
        rga_merge_laws::law_merge_again(a.sequence(key), b.sequence(key));
    }
    lemma_merge_nothing(m, b);
}

/// Whichever of two stores merges the other, they come out the same.
pub proof fn law_merge_commutative(logs: Histories, a: StoreView, b: StoreView)
    requires
        grown(logs, a),
        grown(logs, b),
        compatible(a, b),
    ensures
        store_laws::agree(store_model::merged(a, b), store_model::merged(b, a)),
{
    let (x, y) = (store_model::merged(a, b), store_model::merged(b, a));
    assert forall|key: Seq<char>| or_set_laws::same_set(
        #[trigger] x.set(key),
        #[trigger] y.set(key),
    ) by {
        lemma_grown_parts(logs, a, key);
        lemma_grown_parts(logs, b, key);
        lemma_merged_parts(a, b, key);
        lemma_merged_parts(b, a, key);
        or_set_laws::law_merge(a.set(key), b.set(key), b.set(key));
    }
    assert(x.registers =~= y.registers) by {
        assert forall|key: Seq<char>| #[trigger] x.registers.contains_key(key) implies
            x.registers[key] == y.registers[key] by {
            assert(lww_laws::compatible_states(a.register(key), b.register(key)));
            lww_laws::law_merge_commutative(a.register(key), b.register(key));
        }
    }
    assert forall|key: Seq<char>| rga_laws::same_state(
        #[trigger] x.sequence(key),
        #[trigger] y.sequence(key),
    ) by {
        lemma_grown_parts(logs, a, key);
        lemma_grown_parts(logs, b, key);
        lemma_merged_parts(a, b, key);
        lemma_merged_parts(b, a, key);
        rga_merge_laws::law_merge_commutative(logs[key], a.sequence(key), b.sequence(key));
    }
}

/// What is under a name in a store whose sequences are in order.
proof fn lemma_grown_parts(logs: Histories, store: StoreView, key: Seq<char>)
    requires
        grown(logs, store),
    ensures
        store.set(key).well_formed(),
        store.sequence(key).well_formed(),
        rga_order::sound(logs[key]),
        rga_laws::grown(logs[key], store.sequence(key)),
{
    assert(store.set(key).well_formed());
    assert(rga_laws::grown(logs[key], store.sequence(key)));
}

/// A merged store is in the order of the insertions on record, so that it may be merged
/// further.
pub proof fn law_merged_stores_grow(logs: Histories, a: StoreView, b: StoreView)
    requires
        grown(logs, a),
        grown(logs, b),
    ensures
        grown(logs, store_model::merged(a, b)),
{
    let m = store_model::merged(a, b);
    assert forall|key: Seq<char>| (#[trigger] m.set(key)).well_formed() by {
        lemma_grown_parts(logs, a, key);
        lemma_grown_parts(logs, b, key);
        lemma_merged_parts(a, b, key);
        or_set_laws::law_merge(a.set(key), b.set(key), b.set(key));
    }
    assert forall|key: Seq<char>|
        #![trigger m.sequence(key)]
        rga_order::sound(logs[key]) && rga_laws::grown(logs[key], m.sequence(key)) by {
        lemma_grown_parts(logs, a, key);
        lemma_grown_parts(logs, b, key);
        lemma_merged_parts(a, b, key);
        rga_merge_laws::law_merged_lists_grow(logs[key], a.sequence(key), b.sequence(key));
    }
    assert forall|key: Seq<char>| rga_order::sound(#[trigger] logs[key]) by {
        lemma_grown_parts(logs, a, key);
    }
}

/// Three stores may be merged from the left or from the right.
pub proof fn law_merge_associative(logs: Histories, a: StoreView, b: StoreView, c: StoreView)
    requires
        grown(logs, a),
        grown(logs, b),
        grown(logs, c),
    ensures
        store_laws::agree(
            store_model::merged(store_model::merged(a, b), c),
            store_model::merged(a, store_model::merged(b, c)),
        ),
{
    let (ab, bc) = (store_model::merged(a, b), store_model::merged(b, c));
    let (x, y) = (store_model::merged(ab, c), store_model::merged(a, bc));
    law_merged_stores_grow(logs, a, b);
    law_merged_stores_grow(logs, b, c);
    assert forall|key: Seq<char>|
        x.register(key) == y.register(key) && x.set(key) == y.set(key) && rga_laws::same_state(
            #[trigger] x.sequence(key),
            #[trigger] y.sequence(key),
        ) by {
        lemma_grown_parts(logs, a, key);
        lemma_grown_parts(logs, b, key);
        lemma_grown_parts(logs, c, key);
        lemma_grown_parts(logs, ab, key);
        lemma_merged_parts(a, b, key);
        lemma_merged_parts(b, c, key);
        lemma_merged_parts(ab, c, key);
        lemma_merged_parts(a, bc, key);
        lww_laws::law_merge_associative(a.register(key), b.register(key), c.register(key));
        or_set_laws::law_merge(a.set(key), b.set(key), c.set(key));
        rga_merge_laws::law_merge_associative(
            logs[key],
            a.sequence(key),
            b.sequence(key),
            c.sequence(key),
        );
    }
    assert(x.registers =~= y.registers) by {
        assert forall|key: Seq<char>| #[trigger] x.registers.contains_key(key) implies
            x.registers[key] == y.registers[key] by {
            assert(rga_laws::same_state(x.sequence(key), y.sequence(key)));
        }
    }
    assert forall|key: Seq<char>| or_set_laws::same_set(
        #[trigger] x.set(key),
        #[trigger] y.set(key),
    ) by {
        assert(rga_laws::same_state(x.sequence(key), y.sequence(key)));
    }
}

/// Pruning changes nothing that a store shows.
pub proof fn law_pruning_is_invisible(store: StoreView, before: u64, key: Seq<char>)
    requires
        store.well_formed(),
    ensures
        store_model::pruned(store, before).register(key) == store.register(key),
        store_model::pruned(store, before).set(key) == store.set(key),
        store_model::pruned(store, before).items(key) == store.items(key),
        store_model::pruned(store, before).well_formed(),
{
    let next = store_model::pruned(store, before);
    assert forall|k: Seq<char>| #[trigger] next.sequences.contains_key(k) implies
        next.sequences[k].well_formed() by {
        assert(store.sequences[k].well_formed());
        rga_facts::lemma_pruned(store.sequences[k], before);
    }
    if store.sequences.contains_key(key) {
        assert(store.sequences[key].well_formed());
        rga_facts::lemma_pruned(store.sequences[key], before);
    }
}

} // verus!
