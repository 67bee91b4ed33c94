//! A proxy that records the changes made to a store.
//!
//! Changes made through a proxy are applied to its store at once; the envelopes
//! for the other stores are queued until they are asked for.

use crate::json::JsonValue;
use crate::or_set;
use crate::state_store::Envelope;
use crate::state_store::StateStore;
use crate::store_laws;
use crate::store_model;
use crate::store_model::EnvelopeView;
use crate::store_model::StoreView;
use crate::unique;
use vstd::prelude::*;

verus! {

/// A proxy over a [`StateStore`].
pub struct StateProxy<'a> {
    /// The store.  Changes made to it directly are not queued.
    pub store: &'a mut StateStore,
    /// The envelopes queued for the other stores.
    pub pending: Vec<Envelope>,
}

/// The envelopes as mathematical values.
pub open spec fn envelope_views(envelopes: Seq<Envelope>) -> Seq<EnvelopeView> {
    envelopes.map_values(|env: Envelope| env@)
}

impl<'a> StateProxy<'a> {
    /// The store in its current state.
    pub open spec fn current(&self) -> StateStore {
        *self.store
    }

    /// The envelopes queued, as mathematical values.
    pub open spec fn queue(&self) -> Seq<EnvelopeView> {
        envelope_views(self.pending@)
    }

    /// From `before`, the store received `env`, and `env` was queued, unsigned, behind
    /// the envelopes that were there.
    pub open spec fn recorded(&self, before: StateProxy<'a>, env: EnvelopeView) -> bool {
        &&& self.store.well_formed()
        &&& self.store.owner() == before.store.owner()
        &&& self.store@ == store_model::received(before.store@, env)
        &&& self.queue() == before.queue().push(env)
        &&& self.pending@.len() > 0
        &&& self.pending@.drop_last() == before.pending@
        &&& self.pending@.last()@ == env
        &&& self.pending@.last().signature is None
    }

    /// A proxy over `store` with nothing queued.
    pub fn new(store: &'a mut StateStore) -> (proxy: Self)
        ensures
            *proxy.store == *old(store),
            *final(proxy.store) == *final(store),
            proxy.queue() == Seq::<EnvelopeView>::empty(),
    {
        let proxy = StateProxy { store, pending: Vec::new() };
        assert(proxy.queue() =~= Seq::<EnvelopeView>::empty());
        proxy
    }

    /// Puts an envelope at the end of the queue.
    fn enqueue(&mut self, env: Envelope)
        ensures
            *final(self).store == *old(self).store,
            *final(final(self).store) == *final(old(self).store),
            final(self).pending@ == old(self).pending@.push(env),
            final(self).pending@.drop_last() == old(self).pending@,
            final(self).queue() == old(self).queue().push(env@),
    {
        self.pending.push(env);
        assert(self.queue() =~= old(self).queue().push(env@));
        assert(self.pending@.drop_last() =~= old(self).pending@);
    }

    /// Writes `value` to the register `field`.
    pub fn set(&mut self, field: &str, value: JsonValue) -> (proxy: &mut Self)
        requires
            old(self).store.well_formed(),
            old(self).store@.clock < u64::MAX,
        ensures
            proxy.recorded(
                *old(self),
                store_model::register_envelope(
                    old(self).store@,
                    old(self).store.owner(),
                    field@,
                    value,
                ),
            ),
            *final(proxy.store) == *final(old(self).store),
            *final(proxy) == *final(self),
    {
        let env = self.store.set_register(field, value);
        self.enqueue(env);
        self
    }

    /// The value of the register `field`; `None` if it was never written.
    pub fn get(&self, field: &str) -> (value: Option<&JsonValue>)
        ensures
            match value {
                Some(v) => self.current()@.register(field@) is Some && *v == self.current()@.register(
                    field@,
                )->0.value,
                None => self.current()@.register(field@) is None,
            },
    {
        self.store.get_register(field)
    }

    /// Adds `value` to the set `field`, under a new token.
    pub fn set_add(&mut self, field: &str, value: JsonValue) -> (proxy: &mut Self)
        requires
            old(self).store.well_formed(),
            old(self).store@.clock < u64::MAX,
        ensures
            exists|suffix: Seq<char>| #[trigger]
                unique::is_random_uuid(suffix) && proxy.recorded(
                    *old(self),
                    store_model::addition_envelope(
                        old(self).store@,
                        old(self).store.owner(),
                        field@,
                        value,
                        suffix,
                    ),
                ),
            *final(proxy.store) == *final(old(self).store),
            *final(proxy) == *final(self),
    {
        let env = self.store.set_add(field, value);
        self.enqueue(env);
        self
    }

    /// Removes `value` from the set `field`.  Says whether it was in the set; if it
    /// was not, nothing is queued.
    pub fn set_remove(&mut self, field: &str, value: JsonValue) -> (removed: bool)
        requires
            old(self).store.well_formed(),
            old(self).store@.clock < u64::MAX,
        ensures
            removed == or_set::members(old(self).store@.set(field@)).contains(value.deep_view()),
            removed ==> final(self).recorded(
                *old(self),
                store_model::removal_envelope(
                    old(self).store@,
                    old(self).store.owner(),
                    field@,
                    value.deep_view(),
                ),
            ),
            !removed ==> {
                &&& final(self).store.well_formed()
                &&& final(self).store.owner() == old(self).store.owner()
                &&& final(self).store@ == store_model::ticked(old(self).store@)
                &&& final(self).pending@ == old(self).pending@
                &&& final(self).queue() == old(self).queue()
            },
            *final(final(self).store) == *final(old(self).store),
    {
        match self.store.set_remove(field, value) {
            Some(env) => {
                self.enqueue(env);
                true
            },
            None => false,
        }
    }

    /// Whether `value` is in the set `field`.
    pub fn set_contains(&self, field: &str, value: &JsonValue) -> (present: bool)
        requires
            self.current().well_formed(),
        ensures
            present == or_set::members(self.current()@.set(field@)).contains(value.deep_view()),
    {
        self.store.set_contains(field, value)
    }

    /// Puts `value` at the end of the sequence `field`.
    pub fn seq_push(&mut self, field: &str, value: JsonValue) -> (proxy: &mut Self)
        requires
            old(self).store.well_formed(),
            old(self).store@.clock < u64::MAX,
            old(self).store@.sequence(field@).clock < u64::MAX,
        ensures
            proxy.recorded(
                *old(self),
                store_model::insertion_envelope(
                    old(self).store@,
                    old(self).store.owner(),
                    field@,
                    old(self).store@.items(field@).len() as int,
                    value,
                ),
            ),
            *final(proxy.store) == *final(old(self).store),
            *final(proxy) == *final(self),
    {
        let end: usize = self.store.seq_len(field);
        let env = self.store.seq_insert(field, end, value);
        self.enqueue(env);
        self
    }

    /// Inserts `value` at `index` into the sequence `field`.
    pub fn seq_insert(&mut self, field: &str, index: usize, value: JsonValue) -> (proxy: &mut Self)
        requires
            old(self).store.well_formed(),
            old(self).store@.clock < u64::MAX,
            old(self).store@.sequence(field@).clock < u64::MAX,
            index <= old(self).store@.items(field@).len(),
        ensures
            proxy.recorded(
                *old(self),
                store_model::insertion_envelope(
                    old(self).store@,
                    old(self).store.owner(),
                    field@,
                    index as int,
                    value,
                ),
            ),
            *final(proxy.store) == *final(old(self).store),
            *final(proxy) == *final(self),
    {
        let env = self.store.seq_insert(field, index, value);
        self.enqueue(env);
        self
    }

    /// Deletes the element at `index` of the sequence `field`.  Says whether there
    /// was one; if there was not, nothing is queued.
    pub fn seq_delete(&mut self, field: &str, index: usize) -> (deleted: bool)
        requires
            old(self).store.well_formed(),
            old(self).store@.clock < u64::MAX,
        ensures
            deleted == (index < old(self).store@.items(field@).len()),
            deleted ==> final(self).recorded(
                *old(self),
                store_model::deletion_envelope(
                    old(self).store@,
                    old(self).store.owner(),
                    field@,
                    index as int,
                ),
            ),
            !deleted ==> {
                &&& final(self).store.well_formed()
                &&& final(self).store.owner() == old(self).store.owner()
                &&& final(self).store@ == store_model::ticked(old(self).store@)
                &&& final(self).pending@ == old(self).pending@
                &&& final(self).queue() == old(self).queue()
            },
            *final(final(self).store) == *final(old(self).store),
    {
        match self.store.seq_delete(field, index) {
            Some(env) => {
                self.enqueue(env);
                true
            },
            None => false,
        }
    }

    /// The values that the sequence `field` shows.
    pub fn seq_items(&self, field: &str) -> (items: Vec<&JsonValue>)
        ensures
            items@.len() == self.current()@.items(field@).len(),
            forall|i: int|
                #![trigger items@[i]]
                0 <= i < items@.len() ==> *items@[i] == self.current()@.items(field@)[i],
    {
        self.store.seq_items(field)
    }

    /// Takes all envelopes out of the queue, in the order in which they were made.
    pub fn drain_pending(&mut self) -> (envelopes: Vec<Envelope>)
        ensures
            envelopes@ == old(self).pending@,
            final(self).pending@ == Seq::<Envelope>::empty(),
            *final(self).store == *old(self).store,
            *final(final(self).store) == *final(old(self).store),
    {
        let mut envelopes: Vec<Envelope> = Vec::new();
        std::mem::swap(&mut envelopes, &mut self.pending);
        envelopes
    }

    /// The number of envelopes queued.
    pub fn pending_count(&self) -> (n: usize)
        ensures
            n == self.queue().len(),
    {
        self.pending.len()
    }

    /// The store.
    pub fn store(&self) -> (store: &StateStore)
        ensures
            *store == self.current(),
    {
        self.store
    }
}

/// A store in the state `start` that receives the envelopes `queue` comes to hold
/// what `store` holds.
pub open spec fn caught_up(start: StoreView, queue: Seq<EnvelopeView>, store: StoreView) -> bool {
    let other = store_laws::received_all(start, queue);
    &&& other.registers == store.registers
    &&& other.sets == store.sets
    &&& other.sequences == store.sequences
    &&& other.clock <= store.clock
}

/// The queue of a proxy holds every change: from the state in which the proxy found
/// its store, the queue leads to what the store holds.  It is so at first, it stays
/// so when a change is recorded, and when there was nothing to remove or delete.
pub proof fn law_queue_holds_every_change(
    start: StoreView,
    queue: Seq<EnvelopeView>,
    store: StoreView,
    env: EnvelopeView,
)
    requires
        caught_up(start, queue, store),
        store.clock < u64::MAX,
    ensures
        caught_up(start, Seq::empty(), start),
        caught_up(start, queue.push(env), store_model::received(store, env)),
        caught_up(start, queue, store_model::ticked(store)),
{
    assert(queue.push(env).drop_last() =~= queue);
}

} // verus!
