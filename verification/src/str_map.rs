//! A map with text keys.
//!
//! The entries stand in a vector in the order in which their keys came; no key
//! occurs twice.

use crate::text;
use vstd::prelude::*;

verus! {

/// A map from text to values of type `V`.
#[derive(Debug)]
pub struct StrMap<V> {
    entries: Vec<(String, V)>,
}

/// `key` stands at position `i`, and not before.
pub open spec fn first_at(keys: Seq<Seq<char>>, i: int, key: Seq<char>) -> bool {
    &&& 0 <= i < keys.len()
    &&& keys[i] == key
    &&& forall|j: int| 0 <= j < i ==> keys[j] != key
}

/// The position of `key`.
pub open spec fn place(keys: Seq<Seq<char>>, key: Seq<char>) -> int {
    choose|i: int| first_at(keys, i, key)
}

/// Every key that occurs occurs somewhere first.
proof fn lemma_place(keys: Seq<Seq<char>>, n: int, key: Seq<char>)
    requires
        0 <= n < keys.len(),
        keys[n] == key,
    ensures
        first_at(keys, place(keys, key), key),
        place(keys, key) <= n,
    decreases n,
{
    if exists|j: int| 0 <= j < n && keys[j] == key {
        let j = choose|j: int| 0 <= j < n && keys[j] == key;
        lemma_place(keys, j, key);
    } else {
        assert(first_at(keys, n, key));
        let p = place(keys, key);
        assert(first_at(keys, p, key));
    }
}

impl<V> View for StrMap<V> {
    type V = Map<Seq<char>, V>;

    closed spec fn view(&self) -> Map<Seq<char>, V> {
        Map::new(
            |key: Seq<char>| self.keys().contains(key),
            |key: Seq<char>| self.entries@[place(self.keys(), key)].1,
        )
    }
}

impl<V> StrMap<V> {
    /// The keys in the order in which they came.
    pub closed spec fn keys(&self) -> Seq<Seq<char>> {
        self.entries@.map_values(|entry: (String, V)| entry.0@)
    }

    /// No key occurs twice.
    pub open spec fn well_formed(&self) -> bool {
        self.keys().no_duplicates()
    }

    /// The keys in order are the keys of the map.
    pub proof fn lemma_keys(&self)
        ensures
            forall|key: Seq<char>| #[trigger]
                self@.contains_key(key) <==> self.keys().contains(key),
            self@.dom().finite(),
            self.keys().len() == 0 <==> self@ == Map::<Seq<char>, V>::empty(),
            self.well_formed() ==> self@.len() == self.keys().len(),
    {
        assert(self@.dom() =~= self.keys().to_set());
        self.keys().lemma_cardinality_of_set();
        if self.keys().len() == 0 {
            assert(self@ =~= Map::<Seq<char>, V>::empty());
        } else {
            assert(self.keys().contains(self.keys()[0]));
            assert(self@.contains_key(self.keys()[0]));
        }
        if self.well_formed() {
            self.keys().unique_seq_to_set();
        }
    }

    /// The value of the entry at position `i`.
    proof fn lemma_entry(&self, i: int)
        requires
            0 <= i < self.entries.len(),
        ensures
            self@.contains_key(self.entries@[i].0@),
            self.keys()[i] == self.entries@[i].0@,
            first_at(self.keys(), i, self.entries@[i].0@) ==> self@[self.entries@[i].0@]
                == self.entries@[i].1,
            self.well_formed() ==> self@[self.entries@[i].0@] == self.entries@[i].1,
    {
        let key = self.entries@[i].0@;
        assert(self.keys()[i] == key);
        assert(self.keys().contains(key));
        lemma_place(self.keys(), i, key);
    }

    /// An empty map.
    pub fn new() -> (map: Self)
        ensures
            map.well_formed(),
            map@ == Map::<Seq<char>, V>::empty(),
            map.keys().len() == 0,
    {
        let map = StrMap { entries: Vec::new() };
        assert(map@ =~= Map::<Seq<char>, V>::empty());
        map
    }

    /// The number of entries.
    pub fn len(&self) -> (n: usize)
        ensures
            n == self.keys().len(),
            self.well_formed() ==> n == self@.len(),
    {
        proof {
            self.lemma_keys();
        }
        self.entries.len()
    }

    /// Whether there are no entries.
    pub fn is_empty(&self) -> (empty: bool)
        ensures
            empty == (self@ == Map::<Seq<char>, V>::empty()),
    {
        proof {
            self.lemma_keys();
        }
        self.entries.len() == 0
    }

    /// The key at position `i`.
    pub fn key_at(&self, i: usize) -> (key: &str)
        requires
            i < self.keys().len(),
        ensures
            key@ == self.keys()[i as int],
            self@.contains_key(key@),
    {
        proof {
            self.lemma_entry(i as int);
        }
        self.entries[i].0.as_str()
    }

    /// The value at position `i`.
    pub fn value_at(&self, i: usize) -> (value: &V)
        requires
            self.well_formed(),
            i < self.keys().len(),
        ensures
            self@.contains_key(self.keys()[i as int]),
            *value == self@[self.keys()[i as int]],
    {
        proof {
            self.lemma_entry(i as int);
        }
        &self.entries[i].1
    }

    fn find(&self, key: &str) -> (found: Option<usize>)
        ensures
            match found {
                Some(i) => i < self.entries.len() && first_at(self.keys(), i as int, key@)
                    && self@.contains_key(key@) && self@[key@] == self.entries@[i as int].1,
                None => !self@.contains_key(key@),
            },
    {
        let mut i: usize = 0;
        while i < self.entries.len()
            invariant
                i <= self.entries.len(),
                self.keys().len() == self.entries.len(),
                forall|j: int| 0 <= j < i ==> self.keys()[j] != key@,
            decreases self.entries.len() - i,
        {
            if text::text_eq(self.entries[i].0.as_str(), key) {
                assert(first_at(self.keys(), i as int, key@));
                proof {
                    self.lemma_entry(i as int);
                }
                return Some(i);
            }
            i += 1;
        }
        proof {
            self.lemma_keys();
        }
        None
    }

    /// The value under `key`.
    pub fn get(&self, key: &str) -> (value: Option<&V>)
        ensures
            match value {
                Some(v) => self@.contains_key(key@) && *v == self@[key@],
                None => !self@.contains_key(key@),
            },
    {
        match self.find(key) {
            Some(i) => Some(&self.entries[i].1),
            None => None,
        }
    }

    /// Whether there is a value under `key`.
    pub fn contains_key(&self, key: &str) -> (present: bool)
        ensures
            present == self@.contains_key(key@),
    {
        self.find(key).is_some()
    }

    /// The value under `key`, to be changed.
    pub fn get_mut<'a>(&'a mut self, key: &str) -> (slot: Option<&'a mut V>)
        requires
            old(self).well_formed(),
        ensures
            final(self).well_formed(),
            match slot {
                Some(v) => {
                    &&& old(self)@.contains_key(key@)
                    &&& *v == old(self)@[key@]
                    &&& final(self)@ == old(self)@.insert(key@, *final(v))
                    &&& final(self).keys() == old(self).keys()
                },
                None => !old(self)@.contains_key(key@) && *final(self) == *old(self),
            },
    {
        match self.find(key) {
            Some(i) => Some(self.slot(i)),
            None => None,
        }
    }

    /// The value at position `i`, to be changed.
    fn slot(&mut self, i: usize) -> (slot: &mut V)
        requires
            old(self).well_formed(),
            i < old(self).keys().len(),
        ensures
            *slot == old(self)@[old(self).keys()[i as int]],
            final(self).well_formed(),
            final(self).keys() == old(self).keys(),
            final(self)@ == old(self)@.insert(old(self).keys()[i as int], *final(slot)),
    {
        proof {
            self.lemma_entry(i as int);
            let before = *self;
            assert forall|after: Self|
                (forall|j: int| 0 <= j < before.entries.len() && j != i ==> after.entries@[j]
                    == before.entries@[j]) && after.entries.len() == before.entries.len()
                    && after.entries@[i as int].0 == before.entries@[i as int].0 implies {
                    &&& #[trigger] after.keys() == before.keys()
                    &&& after@ == before@.insert(
                        before.keys()[i as int],
                        after.entries@[i as int].1,
                    )
                } by {
                before.lemma_update(after, i as int);
            }
        }
        &mut self.entries[i].1
    }

    /// What changing the value at position `i` does to the map.
    proof fn lemma_update(&self, after: Self, i: int)
        requires
            self.well_formed(),
            0 <= i < self.entries.len(),
            after.entries.len() == self.entries.len(),
            forall|j: int|
                0 <= j < self.entries.len() && j != i ==> after.entries@[j] == self.entries@[j],
            after.entries@[i].0 == self.entries@[i].0,
        ensures
            after.keys() == self.keys(),
            after@ == self@.insert(self.keys()[i], after.entries@[i].1),
    {
        assert(after.keys() =~= self.keys());
        let key = self.keys()[i];
        assert(self.keys().contains(key));
        let target = self@.insert(key, after.entries@[i].1);
        assert(after@ =~= target) by {
            assert forall|k: Seq<char>| #[trigger] after@.contains_key(k) implies after@[k]
                == target[k] by {
                let n = choose|n: int| 0 <= n < self.keys().len() && self.keys()[n] == k;
                lemma_place(self.keys(), n, k);
                if k == key {
                    lemma_place(self.keys(), i, key);
                }
            }
        }
    }

    /// What a new entry at the end does to the map.
    proof fn lemma_push(&self, after: Self, entry: (String, V))
        requires
            self.well_formed(),
            !self@.contains_key(entry.0@),
            after.entries@ == self.entries@.push(entry),
        ensures
            after.well_formed(),
            after.keys() == self.keys().push(entry.0@),
            after@ == self@.insert(entry.0@, entry.1),
    {
        let n = self.entries.len() as int;
        assert(after.keys() =~= self.keys().push(entry.0@));
        let target = self@.insert(entry.0@, entry.1);
        assert(after@ =~= target) by {
            assert(after.keys()[n] == entry.0@);
            assert forall|k: Seq<char>| #[trigger]
                after@.contains_key(k) <==> target.contains_key(k) by {
                if self@.contains_key(k) {
                    let m = choose|m: int| 0 <= m < self.keys().len() && self.keys()[m] == k;
                    assert(after.keys()[m] == k);
                }
            }
            assert forall|k: Seq<char>| #[trigger] after@.contains_key(k) implies after@[k]
                == target[k] by {
                let m = choose|m: int| 0 <= m < after.keys().len() && after.keys()[m] == k;
                lemma_place(after.keys(), m, k);
                if k == entry.0@ {
                    let p = place(after.keys(), k);
                    if p < n {
                        assert(self.keys()[p] == k);
                        assert(self.keys().contains(k));
                    }
                } else {
                    assert(self.keys()[m] == k);
                    lemma_place(self.keys(), m, k);
                    let p = place(after.keys(), k);
                    assert(self.keys()[p] == k);
                    lemma_place(self.keys(), p, k);
                }
            }
        }
        assert(after.keys().no_duplicates()) by {
            assert forall|i: int, j: int|
                0 <= i < after.keys().len() && 0 <= j < after.keys().len() && i
                    != j implies after.keys()[i] != after.keys()[j] by {
                if i == n {
                    assert(self.keys().contains(self.keys()[j]));
                } else if j == n {
                    assert(self.keys().contains(self.keys()[i]));
                }
            }
        }
    }

    /// The value under `key`, to be changed; `default` if there was none.
    pub fn entry<'a>(&'a mut self, key: &str, default: V) -> (slot: &'a mut V)
        requires
            old(self).well_formed(),
        ensures
            *slot == (if old(self)@.contains_key(key@) {
                old(self)@[key@]
            } else {
                default
            }),
            final(self).well_formed(),
            final(self)@ == old(self)@.insert(key@, *final(slot)),
    {
        match self.find(key) {
            Some(i) => self.slot(i),
            None => {
                let ghost before = *self;
                let name = key.to_owned();
                let ghost entry = (name, default);
                self.entries.push((name, default));
                proof {
                    before.lemma_push(*self, entry);
                }
                let n: usize = self.entries.len() - 1;
                let ghost mid = self@;
                proof {
                    assert forall|v: V| #[trigger]
                        mid.insert(key@, v) == before@.insert(key@, v) by {
                        assert(mid.insert(key@, v) =~= before@.insert(key@, v));
                    }
                }
                self.slot(n)
            },
        }
    }

    /// Puts `value` under `key`, in place of what was there.
    pub fn insert(&mut self, key: &str, value: V)
        requires
            old(self).well_formed(),
        ensures
            final(self).well_formed(),
            final(self)@ == old(self)@.insert(key@, value),
    {
        match self.find(key) {
            Some(i) => {
                let slot = self.slot(i);
                *slot = value;
            },
            None => {
                let ghost before = *self;
                let name = key.to_owned();
                let ghost entry = (name, value);
                self.entries.push((name, value));
                proof {
                    before.lemma_push(*self, entry);
                }
            },
        }
    }

    /// Takes away what is under `key`.
    pub fn remove(&mut self, key: &str) -> (removed: Option<V>)
        requires
            old(self).well_formed(),
        ensures
            final(self).well_formed(),
            final(self)@ == old(self)@.remove(key@),
            match removed {
                Some(v) => old(self)@.contains_key(key@) && v == old(self)@[key@],
                None => !old(self)@.contains_key(key@),
            },
    {
        match self.find(key) {
            Some(i) => {
                let ghost before = *self;
                let (_name, value) = self.entries.remove(i);
                proof {
                    before.lemma_removal(*self, i as int);
                }
                Some(value)
            },
            None => {
                assert(self@ =~= self@.remove(key@));
                None
            },
        }
    }

    /// What taking away the entry at position `i` does to the map.
    proof fn lemma_removal(&self, after: Self, i: int)
        requires
            self.well_formed(),
            0 <= i < self.entries.len(),
            after.entries@ == self.entries@.remove(i),
        ensures
            after.well_formed(),
            after@ == self@.remove(self.keys()[i]),
    {
        let key = self.keys()[i];
        assert(after.keys() =~= self.keys().remove(i));
        assert forall|j: int| 0 <= j < after.keys().len() implies #[trigger] after.keys()[j]
            == self.keys()[if j < i {
            j
        } else {
            j + 1
        }] by {}
        let target = self@.remove(key);
        assert(after@ =~= target) by {
            assert forall|k: Seq<char>| #[trigger]
                after@.contains_key(k) <==> target.contains_key(k) by {
                if after@.contains_key(k) {
                    let m = choose|m: int| 0 <= m < after.keys().len() && after.keys()[m] == k;
                    let n = if m < i {
                        m
                    } else {
                        m + 1
                    };
                    assert(self.keys()[n] == k);
                }
                if target.contains_key(k) {
                    let n = choose|n: int| 0 <= n < self.keys().len() && self.keys()[n] == k;
                    let m = if n < i {
                        n
                    } else {
                        n - 1
                    };
                    assert(after.keys()[m] == k);
                }
            }
            assert forall|k: Seq<char>| #[trigger] after@.contains_key(k) implies after@[k]
                == target[k] by {
                let m = choose|m: int| 0 <= m < after.keys().len() && after.keys()[m] == k;
                lemma_place(after.keys(), m, k);
                let p = place(after.keys(), k);
                let n = if p < i {
                    p
                } else {
                    p + 1
                };
                assert(self.keys()[n] == k);
                lemma_place(self.keys(), n, k);
            }
        }
    }
}

impl<V: Clone> Clone for StrMap<V> {
    fn clone(&self) -> (copy: Self)
        ensures
            copy.keys() == self.keys(),
            copy@.dom() == self@.dom(),
            forall|key: Seq<char>| #[trigger]
                self@.contains_key(key) ==> cloned(self@[key], copy@[key]),
    {
        let mut entries: Vec<(String, V)> = Vec::new();
        let mut i: usize = 0;
        while i < self.entries.len()
            invariant
                i <= self.entries.len(),
                entries.len() == i,
                forall|j: int|
                    0 <= j < i ==> (#[trigger] entries@[j]).0 == self.entries@[j].0 && cloned(
                        self.entries@[j].1,
                        entries@[j].1,
                    ),
            decreases self.entries.len() - i,
        {
            let value = self.entries[i].1.clone();
            entries.push((self.entries[i].0.clone(), value));
            i += 1;
        }
        let copy = StrMap { entries };
        proof {
            assert(copy.keys() =~= self.keys());
            assert(copy@.dom() =~= self@.dom());
            assert forall|key: Seq<char>| #[trigger] self@.contains_key(key) implies cloned(
                self@[key],
                copy@[key],
            ) by {
                let n = choose|n: int| 0 <= n < self.keys().len() && self.keys()[n] == key;
                lemma_place(self.keys(), n, key);
                let p = place(self.keys(), key);
                assert(entries@[p].0 == self.entries@[p].0);
            }
        }
        copy
    }
}

} // verus!
