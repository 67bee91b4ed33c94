//! A store for callers that hold their values as JSON text, such as scripts in a
//! browser.

use crate::json;
use crate::json::JsonError;
use crate::json::JsonValue;
use crate::or_set;
use crate::state_store::Envelope;
use crate::state_store::StateStore;
use crate::store_model;
use crate::store_model::StoreView;
use crate::unique;
use vstd::prelude::*;

verus! {

/// A [`StateStore`] whose values come and go as JSON text.
#[derive(Debug)]
pub struct WasmStateStore {
    inner: StateStore,
}

impl View for WasmStateStore {
    type V = StoreView;

    closed spec fn view(&self) -> StoreView {
        self.inner@
    }
}

/// The reading of `text` failed with the message of `error`.
pub open spec fn refused(text: Seq<char>, error: JsonError) -> bool {
    json::json_form(text) == Err::<Seq<char>, Seq<char>>(error.message@)
}

/// `text` was read as `value`.
pub open spec fn read_as(text: Seq<char>, value: JsonValue) -> bool {
    json::json_form(text) == Ok::<Seq<char>, Seq<char>>(value@)
}

/// Inserting the value that `text` stands for gave `env` and turned `before` into
/// `after`.
pub open spec fn inserted(
    before: WasmStateStore,
    after: WasmStateStore,
    key: Seq<char>,
    index: int,
    text: Seq<char>,
    env: Result<Envelope, JsonError>,
) -> bool {
    match env {
        Ok(e) => {
            &&& exists|value: JsonValue| #[trigger]
                read_as(text, value) && e@ == store_model::insertion_envelope(
                    before@,
                    before.owner(),
                    key,
                    index,
                    value,
                )
            &&& e.signature is None
            &&& after@ == store_model::received(before@, e@)
        },
        Err(error) => refused(text, error) && after == before,
    }
}

impl WasmStateStore {
    /// The node that this store belongs to.
    pub closed spec fn owner(&self) -> Seq<char> {
        self.inner.owner()
    }

    /// The store is well formed.
    pub closed spec fn well_formed(&self) -> bool {
        self.inner.well_formed()
    }

    /// A value can be inserted at `index` into the sequence `key`.
    pub open spec fn has_room(&self, key: Seq<char>, index: int) -> bool {
        &&& self@.clock < u64::MAX
        &&& self@.sequence(key).clock < u64::MAX
        &&& index <= self@.items(key).len()
    }

    /// An empty store for `node_id`.
    pub fn new(node_id: &str) -> (store: WasmStateStore)
        ensures
            store.well_formed(),
            store.owner() == node_id@,
            store@ == store_model::empty_store(),
    {
        WasmStateStore { inner: StateStore::new(node_id) }
    }

    /// Receives an envelope.
    pub fn apply_envelope(&mut self, env: Envelope)
        requires
            old(self).well_formed(),
        ensures
            final(self).well_formed(),
            final(self).owner() == old(self).owner(),
            final(self)@ == store_model::received(old(self)@, env@),
    {
        self.inner.apply_envelope(env);
    }

    /// Writes the value that `value_json` stands for to the register `key`.
    ///
    /// The envelope is returned for the other stores.
    pub fn set_register(&mut self, key: &str, value_json: &str) -> (env: Result<
        Envelope,
        JsonError,
    >)
        requires
            old(self).well_formed(),
            old(self)@.clock < u64::MAX,
        ensures
            final(self).well_formed(),
            final(self).owner() == old(self).owner(),
            match env {
                Ok(e) => {
                    &&& exists|value: JsonValue| #[trigger]
                        read_as(value_json@, value) && e@ == store_model::register_envelope(
                            old(self)@,
                            old(self).owner(),
                            key@,
                            value,
                        )
                    &&& e.signature is None
                    &&& final(self)@ == store_model::received(old(self)@, e@)
                },
                Err(error) => refused(value_json@, error) && *final(self) == *old(self),
            },
    {
        match JsonValue::parse(value_json) {
            Ok(value) => {
                assert(read_as(value_json@, value));
                Ok(self.inner.set_register(key, value))
            },
            Err(error) => Err(error),
        }
    }

    /// The JSON text of the register `key`; `None` if it was never written.
    pub fn get_register(&self, key: &str) -> (text: Option<String>)
        ensures
            match text {
                Some(t) => self@.register(key@) is Some && t@ == self@.register(key@)->0.value@,
                None => self@.register(key@) is None,
            },
    {
        match self.inner.get_register(key) {
            Some(value) => Some(value.text().to_owned()),
            None => None,
        }
    }

    /// Adds the value that `value_json` stands for to the set `key`, under a new
    /// token.
    ///
    /// The envelope is returned for the other stores.
    pub fn set_add(&mut self, key: &str, value_json: &str) -> (env: Result<Envelope, JsonError>)
        requires
            old(self).well_formed(),
            old(self)@.clock < u64::MAX,
        ensures
            final(self).well_formed(),
            final(self).owner() == old(self).owner(),
            match env {
                Ok(e) => {
                    &&& exists|value: JsonValue, suffix: Seq<char>|
                        #![trigger read_as(value_json@, value), unique::is_random_uuid(suffix)]
                        read_as(value_json@, value) && unique::is_random_uuid(suffix) && e@
                            == store_model::addition_envelope(
                            old(self)@,
                            old(self).owner(),
                            key@,
                            value,
                            suffix,
                        )
                    &&& e.signature is None
                    &&& final(self)@ == store_model::received(old(self)@, e@)
                },
                Err(error) => refused(value_json@, error) && *final(self) == *old(self),
            },
    {
        match JsonValue::parse(value_json) {
            Ok(value) => {
                assert(read_as(value_json@, value));
                Ok(self.inner.set_add(key, value))
            },
            Err(error) => Err(error),
        }
    }

    /// Removes the value that `value_json` stands for from the set `key`; gives no
    /// envelope if it is not in the set.
    pub fn set_remove(&mut self, key: &str, value_json: &str) -> (env: Result<
        Option<Envelope>,
        JsonError,
    >)
        requires
            old(self).well_formed(),
            old(self)@.clock < u64::MAX,
        ensures
            final(self).well_formed(),
            final(self).owner() == old(self).owner(),
            match env {
                Ok(Some(e)) => {
                    &&& exists|value: JsonValue| #[trigger]
                        read_as(value_json@, value) && or_set::members(
                            old(self)@.set(key@),
                        ).contains(value.deep_view()) && e@ == store_model::removal_envelope(
                            old(self)@,
                            old(self).owner(),
                            key@,
                            value.deep_view(),
                        )
                    &&& e.signature is None
                    &&& final(self)@ == store_model::received(old(self)@, e@)
                },
                Ok(None) => {
                    &&& exists|value: JsonValue| #[trigger]
                        read_as(value_json@, value) && !or_set::members(
                            old(self)@.set(key@),
                        ).contains(value.deep_view())
                    &&& final(self)@ == store_model::ticked(old(self)@)
                },
                Err(error) => refused(value_json@, error) && *final(self) == *old(self),
            },
    {
        match JsonValue::parse(value_json) {
            Ok(value) => {
                assert(read_as(value_json@, value));
                Ok(self.inner.set_remove(key, value))
            },
            Err(error) => Err(error),
        }
    }

    /// Whether the value that `value_json` stands for is in the set `key`; never so
    /// for a text that is not JSON.
    pub fn set_contains(&self, key: &str, value_json: &str) -> (present: bool)
        requires
            self.well_formed(),
        ensures
            present == match json::json_form(value_json@) {
                Ok(value) => or_set::members(self@.set(key@)).contains(json::unsigned(value)),
                Err(_) => false,
            },
    {
        match JsonValue::parse(value_json) {
            Ok(value) => self.inner.set_contains(key, &value),
            Err(_) => false,
        }
    }

    /// The JSON text of the array of the elements of the set `key`.
    pub fn set_items(&self, key: &str) -> (text: String)
        requires
            self.well_formed(),
        ensures
            exists|items: Seq<&JsonValue>|
                {
                    &&& or_set::seen(items).no_duplicates()
                    &&& or_set::seen(items).to_set() == or_set::members(self@.set(key@))
                    &&& or_set::stand_in(self@.set(key@), items)
                    &&& text@ == #[trigger] json::array_text(items)
                },
    {
        let items = self.inner.set_items(key);
        json::json_array(&items)
    }

    /// Inserts the value that `value_json` stands for at `index` into the sequence
    /// `key`.
    ///
    /// The envelope is returned for the other stores.
    pub fn seq_insert(&mut self, key: &str, index: usize, value_json: &str) -> (env: Result<
        Envelope,
        JsonError,
    >)
        requires
            old(self).well_formed(),
            old(self)@.clock < u64::MAX,
            old(self)@.sequence(key@).clock < u64::MAX,
            json::json_form(value_json@) is Ok ==> index <= old(self)@.items(key@).len(),
        ensures
            final(self).well_formed(),
            final(self).owner() == old(self).owner(),
            inserted(*old(self), *final(self), key@, index as int, value_json@, env),
    {
        match JsonValue::parse(value_json) {
            Ok(value) => {
                assert(read_as(value_json@, value));
                Ok(self.inner.seq_insert(key, index, value))
            },
            Err(error) => Err(error),
        }
    }

    /// Inserts as [`WasmStateStore::seq_insert`] does, where the sequence reaches to
    /// `index` and no clock is at its end; gives `None` and does nothing where a
    /// value was read for which that is not so.
    pub fn try_seq_insert(&mut self, key: &str, index: usize, value_json: &str) -> (env: Option<
        Result<Envelope, JsonError>,
    >)
        requires
            old(self).well_formed(),
        ensures
            final(self).well_formed(),
            final(self).owner() == old(self).owner(),
            match env {
                Some(outcome) => inserted(
                    *old(self),
                    *final(self),
                    key@,
                    index as int,
                    value_json@,
                    outcome,
                ),
                None => *final(self) == *old(self),
            },
            env is None <==> json::json_form(value_json@) is Ok && !old(self).has_room(
                key@,
                index as int,
            ),
    {
        match JsonValue::parse(value_json) {
            Err(error) => Some(Err(error)),
            Ok(_) => {
                if self.clock() < u64::MAX && self.seq_clock(key) < u64::MAX && index
                    <= self.seq_len(key) {
                    Some(self.seq_insert(key, index, value_json))
                } else {
                    None
                }
            },
        }
    }

    /// Deletes the element at `index` of the sequence `key`; `None` if there is no
    /// such element.
    ///
    /// The envelope is returned for the other stores.
    pub fn seq_delete(&mut self, key: &str, index: usize) -> (env: Option<Envelope>)
        requires
            old(self).well_formed(),
            old(self)@.clock < u64::MAX,
        ensures
            final(self).well_formed(),
            final(self).owner() == old(self).owner(),
            match env {
                Some(e) => {
                    &&& index < old(self)@.items(key@).len()
                    &&& e@ == store_model::deletion_envelope(
                        old(self)@,
                        old(self).owner(),
                        key@,
                        index as int,
                    )
                    &&& e.signature is None
                    &&& final(self)@ == store_model::received(old(self)@, e@)
                },
                None => {
                    &&& index >= old(self)@.items(key@).len()
                    &&& final(self)@ == store_model::ticked(old(self)@)
                },
            },
    {
        self.inner.seq_delete(key, index)
    }

    /// The JSON text of the array of the values that the sequence `key` shows.
    pub fn seq_items(&self, key: &str) -> (text: String)
        ensures
            exists|items: Seq<&JsonValue>|
                {
                    &&& items.map_values(|item: &JsonValue| *item) == self@.items(key@)
                    &&& text@ == #[trigger] json::array_text(items)
                },
    {
        let items = self.inner.seq_items(key);
        assert(items@.map_values(|item: &JsonValue| *item) =~= self@.items(key@));
        json::json_array(&items)
    }

    /// The number of values that the sequence `key` shows.
    pub fn seq_len(&self, key: &str) -> (n: usize)
        ensures
            n == self@.items(key@).len(),
    {
        self.inner.seq_len(key)
    }

    /// The clock of the sequence `key`.
    pub fn seq_clock(&self, key: &str) -> (time: u64)
        ensures
            time == self@.sequence(key@).clock,
    {
        self.inner.seq_clock(key)
    }

    /// Takes over the state of another store.
    pub fn merge_snapshot(&mut self, other: &StateStore)
        requires
            old(self).well_formed(),
            other.well_formed(),
        ensures
            final(self).well_formed(),
            final(self).owner() == old(self).owner(),
            final(self)@ == store_model::merged(old(self)@, other@),
    {
        self.inner.merge(other);
    }

    /// Drops the tombstones, in all sequences, of elements inserted at or before
    /// `before_ts`.
    ///
    /// Deletions of elements that have not arrived, and the tokens that were removed
    /// from sets, stay on record.
    pub fn prune_tombstones(&mut self, before_ts: u64)
        requires
            old(self).well_formed(),
        ensures
            final(self).well_formed(),
            final(self).owner() == old(self).owner(),
            final(self)@ == store_model::pruned(old(self)@, before_ts),
            forall|key: Seq<char>| #[trigger] final(self)@.items(key) == old(self)@.items(key),
    {
        self.inner.prune_tombstones(before_ts);
    }

    /// The current value of the clock.
    pub fn clock(&self) -> (time: u64)
        ensures
            time == self@.clock,
    {
        self.inner.clock()
    }
}

} // verus!
