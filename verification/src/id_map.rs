//! Tables of what belongs to each client.

use vstd::prelude::*;

verus! {

/// A table with an entry for each of some clients, by the number of the client.
#[derive(Debug)]
pub struct IdMap<V> {
    entries: Vec<(u64, V)>,
}

/// The client `id` stands at position `i`.
spec fn stands_at<V>(entries: Seq<(u64, V)>, i: int, id: u64) -> bool {
    0 <= i < entries.len() && entries[i].0 == id
}

/// The client `id` stands somewhere.
spec fn listed<V>(entries: Seq<(u64, V)>, id: u64) -> bool {
    exists|i: int| stands_at(entries, i, id)
}

spec fn table<V>(entries: Seq<(u64, V)>) -> Map<u64, V> {
    Map::new(
        |id: u64| listed(entries, id),
        |id: u64| entries[choose|i: int| stands_at(entries, i, id)].1,
    )
}

/// No client stands twice.
spec fn distinct<V>(entries: Seq<(u64, V)>) -> bool {
    forall|i: int, j: int|
        0 <= i < j < entries.len() ==> (#[trigger] entries[i]).0 != (#[trigger] entries[j]).0
}

/// The entry at position `i` is the entry of its client.
proof fn lemma_entry<V>(entries: Seq<(u64, V)>, i: int)
    requires
        distinct(entries),
        0 <= i < entries.len(),
    ensures
        table(entries).contains_key(entries[i].0),
        table(entries)[entries[i].0] == entries[i].1,
{
    let id = entries[i].0;
    assert(stands_at(entries, i, id));
    let j = choose|j: int| stands_at(entries, j, id);
    if i < j {
        assert(entries[i].0 != entries[j].0);
    } else if j < i {
        assert(entries[j].0 != entries[i].0);
    }
}

/// No entry is counted twice.
proof fn lemma_size<V>(entries: Seq<(u64, V)>)
    requires
        distinct(entries),
    ensures
        table(entries).dom().finite(),
        table(entries).dom().len() == entries.len(),
    decreases entries.len(),
{
    if entries.len() == 0 {
        assert(table(entries).dom() =~= Set::<u64>::empty());
    } else {
        let front = entries.drop_last();
        let last = entries.last().0;
        assert(distinct(front)) by {
            assert forall|i: int, j: int| 0 <= i < j < front.len() implies (
            #[trigger] front[i]).0 != (#[trigger] front[j]).0 by {
                assert(entries[i].0 != entries[j].0);
            }
        }
        lemma_size(front);
        assert(table(entries).dom() =~= table(front).dom().insert(last)) by {
            assert forall|id: u64| #[trigger] table(entries).dom().contains(id) <==> table(
                front,
            ).dom().insert(last).contains(id) by {
                if listed(entries, id) {
                    let i = choose|i: int| stands_at(entries, i, id);
                    if i < front.len() {
                        assert(stands_at(front, i, id));
                    }
                }
                if listed(front, id) {
                    let i = choose|i: int| stands_at(front, i, id);
                    assert(stands_at(entries, i, id));
                }
                assert(stands_at(entries, entries.len() - 1, last));
            }
        }
        if listed(front, last) {
            let i = choose|i: int| stands_at(front, i, last);
            assert(entries[i].0 != entries[entries.len() - 1].0);
        }
    }
}

impl<V> View for IdMap<V> {
    type V = Map<u64, V>;

    closed spec fn view(&self) -> Map<u64, V> {
        table(self.entries@)
    }
}

/// `time` is the least clock.
pub open spec fn least(clocks: Map<u64, u64>, time: u64) -> bool {
    &&& exists|id: u64| #[trigger] clocks.contains_key(id) && clocks[id] == time
    &&& forall|id: u64| #[trigger] clocks.contains_key(id) ==> clocks[id] >= time
}

impl<V> IdMap<V> {
    /// No client stands twice.
    pub closed spec fn well_formed(&self) -> bool {
        distinct(self.entries@)
    }

    /// A table without clients.
    pub fn new() -> (map: Self)
        ensures
            map.well_formed(),
            map@ == Map::<u64, V>::empty(),
    {
        let map = IdMap { entries: Vec::new() };
        assert(map@ =~= Map::<u64, V>::empty());
        map
    }

    /// The number of clients.
    pub fn len(&self) -> (n: usize)
        requires
            self.well_formed(),
        ensures
            self@.dom().finite(),
            n == self@.dom().len(),
    {
        proof {
            lemma_size(self.entries@);
        }
        self.entries.len()
    }

    fn find(&self, id: u64) -> (found: Option<usize>)
        ensures
            match found {
                Some(i) => stands_at(self.entries@, i as int, id),
                None => !listed(self.entries@, id),
            },
    {
        let mut i: usize = 0;
        while i < self.entries.len()
            invariant
                i <= self.entries.len(),
                forall|j: int| 0 <= j < i ==> (#[trigger] self.entries@[j]).0 != id,
            decreases self.entries.len() - i,
        {
            if self.entries[i].0 == id {
                return Some(i);
            }
            i += 1;
        }
        None
    }

    /// The entry of the client `id`.
    pub fn get(&self, id: u64) -> (value: Option<&V>)
        requires
            self.well_formed(),
        ensures
            match value {
                Some(v) => self@.contains_key(id) && self@[id] == *v,
                None => !self@.contains_key(id),
            },
    {
        match self.find(id) {
            Some(i) => {
                proof {
                    lemma_entry(self.entries@, i as int);
                }
                Some(&self.entries[i].1)
            },
            None => None,
        }
    }

    /// Sets the entry of the client `id`.
    pub fn insert(&mut self, id: u64, value: V)
        requires
            old(self).well_formed(),
        ensures
            final(self).well_formed(),
            final(self)@ == old(self)@.insert(id, value),
    {
        let ghost before = self.entries@;
        match self.find(id) {
            Some(i) => {
                self.entries.set(i, (id, value));
                proof {
                    let now = self.entries@;
                    assert(now =~= before.update(i as int, (id, value)));
                    assert(distinct(now)) by {
                        assert forall|a: int, b: int| 0 <= a < b < now.len() implies (
                        #[trigger] now[a]).0 != (#[trigger] now[b]).0 by {
                            assert(before[a].0 != before[b].0);
                        }
                    }
                    assert forall|k: int| 0 <= k < now.len() implies (#[trigger] now[k]).0
                        == before[k].0 by {}
                    assert(stands_at(now, i as int, id));
                    lemma_tables(before, now, id, value);
                }
            },
            None => {
                self.entries.push((id, value));
                proof {
                    let now = self.entries@;
                    assert(distinct(now)) by {
                        assert forall|a: int, b: int| 0 <= a < b < now.len() implies (
                        #[trigger] now[a]).0 != (#[trigger] now[b]).0 by {
                            if b == before.len() {
                                assert(!stands_at(before, a, id));
                            } else {
                                assert(before[a].0 != before[b].0);
                            }
                        }
                    }
                    assert(stands_at(now, before.len() as int, id));
                    lemma_tables(before, now, id, value);
                }
            },
        }
    }

    /// Takes away the entry of the client `id`.
    pub fn remove(&mut self, id: u64)
        requires
            old(self).well_formed(),
        ensures
            final(self).well_formed(),
            final(self)@ == old(self)@.remove(id),
    {
        let ghost before = self.entries@;
        match self.find(id) {
            Some(i) => {
                self.entries.remove(i);
                proof {
                    let now = self.entries@;
                    assert(now =~= before.remove(i as int));
                    assert(distinct(now)) by {
                        assert forall|a: int, b: int| 0 <= a < b < now.len() implies (
                        #[trigger] now[a]).0 != (#[trigger] now[b]).0 by {
                            let aa = if a < i {
                                a
                            } else {
                                a + 1
                            };
                            let bb = if b < i {
                                b
                            } else {
                                b + 1
                            };
                            assert(before[aa].0 != before[bb].0);
                        }
                    }
                    assert(self@ =~= table(before).remove(id)) by {
                        assert forall|x: u64| #[trigger] self@.contains_key(x) <==> table(
                            before,
                        ).remove(id).contains_key(x) by {
                            if listed(now, x) {
                                let k = choose|k: int| stands_at(now, k, x);
                                let kk = if k < i {
                                    k
                                } else {
                                    k + 1
                                };
                                assert(stands_at(before, kk, x));
                                if x == id {
                                    if kk < i {
                                        assert(before[kk].0 != before[i as int].0);
                                    } else {
                                        assert(before[i as int].0 != before[kk].0);
                                    }
                                }
                            }
                            if listed(before, x) && x != id {
                                let k = choose|k: int| stands_at(before, k, x);
                                let kk = if k < i {
                                    k
                                } else {
                                    k - 1
                                };
                                assert(stands_at(now, kk, x));
                            }
                        }
                        assert forall|x: u64| #[trigger] self@.contains_key(x) implies self@[x]
                            == table(before)[x] by {
                            let k = choose|k: int| stands_at(now, k, x);
                            let kk = if k < i {
                                k
                            } else {
                                k + 1
                            };
                            lemma_entry(now, k);
                            lemma_entry(before, kk);
                        }
                    }
                }
            },
            None => {
                assert(self@ =~= table(before).remove(id));
            },
        }
    }

    /// The clients but `id`.
    pub fn others(&self, id: u64) -> (ids: Vec<u64>)
        requires
            self.well_formed(),
        ensures
            ids@.no_duplicates(),
            ids@.to_set() == self@.dom().remove(id),
    {
        let mut ids: Vec<u64> = Vec::new();
        let mut i: usize = 0;
        while i < self.entries.len()
            invariant
                i <= self.entries.len(),
                self.well_formed(),
                ids@.no_duplicates(),
                forall|x: u64| #[trigger]
                    ids@.contains(x) <==> x != id && listed(self.entries@.take(i as int), x),
            decreases self.entries.len() - i,
        {
            let x = self.entries[i].0;
            let ghost before = ids@;
            let ghost less = self.entries@.take(i as int);
            let ghost more = self.entries@.take(i + 1);
            assert(!listed(less, x)) by {
                if listed(less, x) {
                    let j = choose|j: int| stands_at(less, j, x);
                    assert(self.entries@[j].0 != self.entries@[i as int].0);
                }
            }
            assert forall|y: u64| #[trigger] listed(more, y) <==> listed(less, y) || y == x by {
                if listed(more, y) {
                    let j = choose|j: int| stands_at(more, j, y);
                    if j < i {
                        assert(stands_at(less, j, y));
                    }
                }
                if listed(less, y) {
                    let j = choose|j: int| stands_at(less, j, y);
                    assert(stands_at(more, j, y));
                }
                assert(stands_at(more, i as int, x));
            }
            if x != id {
                ids.push(x);
                proof {
                    assert forall|y: u64| #[trigger] ids@.contains(y) <==> before.contains(y) || y
                        == x by {
                        if before.contains(y) {
                            let j = choose|j: int| 0 <= j < before.len() && before[j] == y;
                            assert(ids@[j] == y);
                        }
                        assert(ids@[before.len() as int] == x);
                    }
                    assert forall|a: int, b: int|
                        0 <= a < ids@.len() && 0 <= b < ids@.len() && a != b implies ids@[a]
                        != ids@[b] by {
                        if a == before.len() {
                            assert(before.contains(before[b]));
                        } else if b == before.len() {
                            assert(before.contains(before[a]));
                        }
                    }
                }
            }
            i += 1;
        }
        proof {
            assert(self.entries@.take(i as int) =~= self.entries@);
            assert(ids@.to_set() =~= self@.dom().remove(id));
        }
        ids
    }
}

impl IdMap<u64> {
    /// The least clock; `None` if there are no clients.
    pub fn min(&self) -> (time: Option<u64>)
        requires
            self.well_formed(),
        ensures
            match time {
                Some(t) => least(self@, t),
                None => self@ == Map::<u64, u64>::empty(),
            },
    {
        if self.entries.len() == 0 {
            assert(self@ =~= Map::<u64, u64>::empty());
            return None;
        }
        let mut time: u64 = self.entries[0].1;
        let mut i: usize = 1;
        proof {
            lemma_entry(self.entries@, 0);
            assert(self@.contains_key(self.entries@[0].0));
        }
        while i < self.entries.len()
            invariant
                1 <= i <= self.entries.len(),
                self.well_formed(),
                exists|id: u64| #[trigger] self@.contains_key(id) && self@[id] == time,
                forall|j: int| 0 <= j < i ==> (#[trigger] self.entries@[j]).1 >= time,
            decreases self.entries.len() - i,
        {
            proof {
                lemma_entry(self.entries@, i as int);
            }
            if self.entries[i].1 < time {
                time = self.entries[i].1;
                assert(self@.contains_key(self.entries@[i as int].0));
            }
            i += 1;
        }
        proof {
            assert forall|id: u64| #[trigger] self@.contains_key(id) implies self@[id]
                >= time by {
                let j = choose|j: int| stands_at(self.entries@, j, id);
                lemma_entry(self.entries@, j);
            }
        }
        Some(time)
    }
}

/// What setting the entry of `id` does to the table.
proof fn lemma_tables<V>(before: Seq<(u64, V)>, now: Seq<(u64, V)>, id: u64, value: V)
    requires
        distinct(before),
        distinct(now),
        listed(now, id),
        now.len() >= before.len(),
        forall|k: int| 0 <= k < before.len() ==> (#[trigger] now[k]).0 == before[k].0,
        forall|k: int|
            0 <= k < before.len() && (#[trigger] now[k]).0 != id ==> now[k].1 == before[k].1,
        forall|k: int| 0 <= k < now.len() && (#[trigger] now[k]).0 == id ==> now[k].1 == value,
        forall|k: int| before.len() <= k < now.len() ==> (#[trigger] now[k]).0 == id,
    ensures
        table(now) == table(before).insert(id, value),
{
    let goal = table(before).insert(id, value);
    assert(table(now) =~= goal) by {
        assert forall|x: u64| #[trigger] table(now).contains_key(x) <==> goal.contains_key(x) by {
            if listed(now, x) && x != id {
                let k = choose|k: int| stands_at(now, k, x);
                assert(now[k].0 == x);
                assert(stands_at(before, k, x));
            }
            if listed(before, x) {
                let k = choose|k: int| stands_at(before, k, x);
                assert(now[k].0 == before[k].0);
                assert(stands_at(now, k, x));
            }
        }
        assert forall|x: u64| #[trigger] table(now).contains_key(x) implies table(now)[x]
            == goal[x] by {
            let k = choose|k: int| stands_at(now, k, x);
            lemma_entry(now, k);
            if x != id {
                assert(now[k].0 == x);
                lemma_entry(before, k);
            }
        }
    }
}

} // verus!
