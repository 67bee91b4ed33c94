//! A set in which an addition wins over a concurrent removal.
//!
//! Every addition of an element carries a token of its own.  A removal names the
//! tokens that the removing node had seen.  An element is in the set as long as
//! one of its tokens is.  Tokens that were removed are remembered, so that operations
//! may arrive in any order and any number of times.
//!
//! Where values can be equal without being the same, a set keeps the one that came
//! first.

use crate::copies;
use crate::text;
use crate::unique;
use vstd::prelude::*;

verus! {

/// A token that identifies one addition of an element.
pub type Token = String;

/// An operation on a set.
#[derive(Debug, PartialEq, Eq)]
pub enum ORSetOp<T> {
    /// Add `value` under `token`.
    Add { value: T, token: Token },
    /// Take away the tokens listed.
    Remove { tokens: Vec<Token> },
}

/// An operation on a set as a mathematical object.
#[verifier::ext_equal]
pub enum SetOpView<T> {
    Add { value: T, token: Seq<char> },
    Remove { tokens: Set<Seq<char>> },
}

/// The texts of `tokens`.
pub open spec fn token_texts(tokens: Seq<Token>) -> Seq<Seq<char>> {
    tokens.map_values(|token: Token| token@)
}

impl<T> View for ORSetOp<T> {
    type V = SetOpView<T>;

    open spec fn view(&self) -> SetOpView<T> {
        match self {
            ORSetOp::Add { value, token } => SetOpView::Add { value: *value, token: token@ },
            ORSetOp::Remove { tokens } => SetOpView::Remove {
                tokens: token_texts(tokens@).to_set(),
            },
        }
    }
}

/// `copy` is the operation `op` with its value cloned.
pub open spec fn cloned_op<T: Clone>(op: SetOpView<T>, copy: SetOpView<T>) -> bool {
    match op {
        SetOpView::Add { value, token } => copy matches SetOpView::Add {
            value: value2,
            token: token2,
        } && token2 == token && cloned(value, value2),
        SetOpView::Remove { .. } => copy == op,
    }
}

/// Cloning a value of type `T` gives one that is equal to it.
pub open spec fn exact_clone<T: Clone + DeepView>() -> bool {
    forall|x: T, copy: T| #[trigger] cloned(x, copy) ==> copy.deep_view() == x.deep_view()
}

/// Comparing values of type `T` by `==` tells whether they are equal.
pub open spec fn exact_eq<T: PartialEq + DeepView>() -> bool {
    &&& forall|x: T, y: T| #[trigger] call_requires(<T as PartialEq>::eq, (&x, &y))
    &&& forall|x: T, y: T, same: bool|
        #[trigger] call_ensures(<T as PartialEq>::eq, (&x, &y), same) ==> (same <==> x.deep_view()
            == y.deep_view())
}

fn clone_tokens(tokens: &Vec<Token>) -> (copy: Vec<Token>)
    ensures
        copy@ == tokens@,
{
    let mut copy: Vec<Token> = Vec::new();
    let mut i: usize = 0;
    while i < tokens.len()
        invariant
            i <= tokens.len(),
            copy@ == tokens@.take(i as int),
        decreases tokens.len() - i,
    {
        copy.push(tokens[i].clone());
        i += 1;
        assert(tokens@.take(i as int) =~= tokens@.take(i - 1).push(tokens@[i - 1]));
    }
    assert(tokens@.take(i as int) =~= tokens@);
    copy
}

/// Whether `token` is one of `tokens`.
fn listed(tokens: &Vec<Token>, token: &str) -> (found: bool)
    ensures
        found == token_texts(tokens@).contains(token@),
{
    let mut i: usize = 0;
    while i < tokens.len()
        invariant
            i <= tokens.len(),
            forall|j: int| 0 <= j < i ==> token_texts(tokens@)[j] != token@,
        decreases tokens.len() - i,
    {
        if text::text_eq(tokens[i].as_str(), token) {
            assert(token_texts(tokens@)[i as int] == token@);
            return true;
        }
        i += 1;
    }
    false
}

impl<T: Clone> Clone for ORSetOp<T> {
    fn clone(&self) -> (copy: Self)
        ensures
            cloned_op(self@, copy@),
            copies::exact_values::<T>() ==> copy@ == self@,
    {
        match self {
            ORSetOp::Add { value, token } => {
                let value_copy = value.clone();
                assert(cloned(*value, value_copy));
                ORSetOp::Add { value: value_copy, token: token.clone() }
            },
            ORSetOp::Remove { tokens } => ORSetOp::Remove { tokens: clone_tokens(tokens) },
        }
    }
}

/// The state of a set: the elements with their tokens, the tokens that were removed,
/// and for each element the value that stands for it, the first that came.
#[verifier::ext_equal]
#[verifier::reject_recursive_types(T)]
pub struct SetView<T: DeepView> {
    pub pairs: Set<(T::V, Seq<char>)>,
    pub gone: Set<Seq<char>>,
    pub first: Map<T::V, T>,
}

impl<T: DeepView> SetView<T> {
    /// No element has a token that was removed, and every element has a value that
    /// stands for it.
    pub open spec fn well_formed(self) -> bool {
        &&& forall|pair: (T::V, Seq<char>)| #[trigger]
            self.pairs.contains(pair) ==> !self.gone.contains(pair.1)
        &&& forall|pair: (T::V, Seq<char>)| #[trigger]
            self.pairs.contains(pair) ==> self.first.contains_key(pair.0)
        &&& forall|element: T::V| #[trigger]
            self.first.contains_key(element) ==> self.first[element].deep_view() == element
    }
}

/// The state of a new set.
pub open spec fn empty_set<T: DeepView>() -> SetView<T> {
    SetView { pairs: Set::empty(), gone: Set::empty(), first: Map::empty() }
}

/// The elements of a set: those with a token.
pub open spec fn members<T: DeepView>(set: SetView<T>) -> Set<T::V> {
    set.pairs.map(|pair: (T::V, Seq<char>)| pair.0)
}

/// The tokens of `element`.
pub open spec fn tokens_of<T: DeepView>(set: SetView<T>, element: T::V) -> Set<Seq<char>> {
    Set::new(|token: Seq<char>| set.pairs.contains((element, token)))
}

/// The pairs whose token is not among `gone`.
pub open spec fn spared<V>(
    pairs: Set<(V, Seq<char>)>,
    gone: Set<Seq<char>>,
) -> Set<(V, Seq<char>)> {
    pairs.filter(|pair: (V, Seq<char>)| !gone.contains(pair.1))
}

/// The values that stand for elements after `value` came.
pub open spec fn noted<T: DeepView>(first: Map<T::V, T>, value: T) -> Map<T::V, T> {
    if first.contains_key(value.deep_view()) {
        first
    } else {
        first.insert(value.deep_view(), value)
    }
}

/// What an operation makes of a set.  An addition under a token that was removed has
/// no effect.
pub open spec fn after<T: DeepView>(set: SetView<T>, op: SetOpView<T>) -> SetView<T> {
    match op {
        SetOpView::Add { value, token } => if set.gone.contains(token) {
            set
        } else {
            SetView {
                pairs: set.pairs.insert((value.deep_view(), token)),
                first: noted(set.first, value),
                ..set
            }
        },
        SetOpView::Remove { tokens } => SetView {
            pairs: spared(set.pairs, tokens),
            gone: set.gone.union(tokens),
            ..set
        },
    }
}

/// What merging the set `other` makes of a set.
pub open spec fn merged<T: DeepView>(set: SetView<T>, other: SetView<T>) -> SetView<T> {
    let gone = set.gone.union(other.gone);
    SetView {
        pairs: spared(set.pairs.union(other.pairs), gone),
        gone,
        first: other.first.union_prefer_right(set.first),
    }
}

/// An element and its tokens.
#[derive(Debug)]
struct Entry<T> {
    value: T,
    tokens: Vec<Token>,
}

/// A set in which an addition wins over a concurrent removal.
#[derive(Debug)]
pub struct ORSet<T> where T: Eq + Clone + DeepView {
    node_id: String,
    entries: Vec<Entry<T>>,
    /// The tokens that were removed.
    gone: Vec<Token>,
}

/// The pair stands in the entry at position `i`.
spec fn holds<T: DeepView>(entries: Seq<Entry<T>>, i: int, pair: (T::V, Seq<char>)) -> bool {
    &&& 0 <= i < entries.len()
    &&& entries[i].value.deep_view() == pair.0
    &&& token_texts(entries[i].tokens@).contains(pair.1)
}

/// The pair stands in some entry.
spec fn stored<T: DeepView>(entries: Seq<Entry<T>>, pair: (T::V, Seq<char>)) -> bool {
    exists|i: int| holds(entries, i, pair)
}

spec fn pairs_of<T: DeepView>(entries: Seq<Entry<T>>) -> Set<(T::V, Seq<char>)> {
    Set::new(|pair: (T::V, Seq<char>)| stored(entries, pair))
}

/// The values of the entries.
spec fn values_of<T>(entries: Seq<Entry<T>>) -> Seq<T> {
    entries.map_values(|entry: Entry<T>| entry.value)
}

/// `element` stands at position `i`.
spec fn stands_at<T: DeepView>(values: Seq<T>, i: int, element: T::V) -> bool {
    0 <= i < values.len() && values[i].deep_view() == element
}

/// For each element the value with which it stands among `values`.
spec fn standing<T: DeepView>(values: Seq<T>) -> Map<T::V, T> {
    Map::new(
        |element: T::V| exists|i: int| stands_at(values, i, element),
        |element: T::V| values[choose|i: int| stands_at(values, i, element)],
    )
}

/// The values that stand for elements.
spec fn first_of<T: DeepView>(entries: Seq<Entry<T>>) -> Map<T::V, T> {
    standing(values_of(entries))
}

/// The value at position `i` stands for its element.
proof fn lemma_first<T: DeepView>(entries: Seq<Entry<T>>, i: int)
    requires
        tidy(entries),
        0 <= i < entries.len(),
    ensures
        first_of(entries).contains_key(entries[i].value.deep_view()),
        first_of(entries)[entries[i].value.deep_view()] == entries[i].value,
{
    let element = entries[i].value.deep_view();
    assert(stands_at(values_of(entries), i, element));
    let j = choose|j: int| stands_at(values_of(entries), j, element);
    if i < j {
        assert(entries[i].value.deep_view() != entries[j].value.deep_view());
    } else if j < i {
        assert(entries[j].value.deep_view() != entries[i].value.deep_view());
    }
}

/// Entries with the same values stand for the same elements.
proof fn lemma_same_first<T: DeepView>(before: Seq<Entry<T>>, now: Seq<Entry<T>>)
    requires
        now.len() == before.len(),
        forall|k: int| 0 <= k < now.len() ==> (#[trigger] now[k]).value == before[k].value,
    ensures
        first_of(now) == first_of(before),
{
    assert(values_of(now) =~= values_of(before));
}

/// Every element has a value that stands for it, and that is equal to it.
proof fn lemma_pairs_have_values<T: DeepView>(entries: Seq<Entry<T>>)
    requires
        tidy(entries),
    ensures
        forall|pair: (T::V, Seq<char>)| #[trigger]
            pairs_of(entries).contains(pair) ==> first_of(entries).contains_key(pair.0),
        forall|element: T::V| #[trigger]
            first_of(entries).contains_key(element) ==> first_of(entries)[element].deep_view()
                == element,
{
    assert forall|pair: (T::V, Seq<char>)| #[trigger]
        pairs_of(entries).contains(pair) implies first_of(entries).contains_key(pair.0) by {
        let i = choose|i: int| holds(entries, i, pair);
        lemma_first(entries, i);
    }
}

/// No element stands twice, and no token twice at one element.
spec fn tidy<T: DeepView>(entries: Seq<Entry<T>>) -> bool {
    &&& forall|i: int, j: int|
        0 <= i < j < entries.len() ==> (#[trigger] entries[i]).value.deep_view() != (
        #[trigger] entries[j]).value.deep_view()
    &&& forall|i: int|
        0 <= i < entries.len() ==> token_texts((#[trigger] entries[i]).tokens@).no_duplicates()
}

/// One of the first `n` entries, the one at position `j`, has the value `value`
/// and a token.
spec fn shows<T: DeepView>(entries: Seq<Entry<T>>, n: int, j: int, value: T::V) -> bool {
    &&& 0 <= j < n
    &&& entries[j].tokens.len() > 0
    &&& entries[j].value.deep_view() == value
}

impl<T> View for ORSet<T> where T: Eq + Clone + DeepView {
    type V = SetView<T>;

    closed spec fn view(&self) -> SetView<T> {
        SetView {
            pairs: pairs_of(self.entries@),
            gone: token_texts(self.gone@).to_set(),
            first: first_of(self.entries@),
        }
    }
}

/// Each of `items` is the value that stands for its element.
pub open spec fn stand_in<T: DeepView>(set: SetView<T>, items: Seq<&T>) -> bool {
    forall|i: int|
        #![trigger items[i]]
        0 <= i < items.len() ==> set.first.contains_key(items[i].deep_view())
            && set.first[items[i].deep_view()] == *items[i]
}

/// The elements that `items` refers to.
pub open spec fn seen<T: DeepView>(items: Seq<&T>) -> Seq<T::V> {
    items.map_values(|item: &T| item.deep_view())
}

impl<T> ORSet<T> where T: Eq + Clone + DeepView {
    /// The node that owns this replica.
    pub closed spec fn owner(&self) -> Seq<char> {
        self.node_id@
    }

    /// No element is stored twice, no token twice at one element, and no token that
    /// was removed.
    pub closed spec fn well_formed(&self) -> bool {
        tidy(self.entries@) && self@.well_formed()
    }

    /// The state of a well-formed set is well formed.
    pub proof fn law_state_is_well_formed(&self)
        requires
            self.well_formed(),
        ensures
            self@.well_formed(),
    {
    }

    /// An empty set owned by `node_id`.
    pub fn new(node_id: &str) -> (set: Self)
        ensures
            set.well_formed(),
            set.owner() == node_id@,
            set@ == empty_set::<T>(),
    {
        let set = ORSet { node_id: node_id.to_owned(), entries: Vec::new(), gone: Vec::new() };
        assert(set@.pairs =~= Set::<(T::V, Seq<char>)>::empty());
        assert(set@.gone =~= Set::<Seq<char>>::empty());
        assert(set@.first =~= Map::<T::V, T>::empty());
        set
    }

    fn find(&self, value: &T) -> (found: Option<usize>)
        requires
            exact_eq::<T>(),
            self.well_formed(),
        ensures
            match found {
                Some(i) => i < self.entries.len() && self.entries@[i as int].value.deep_view()
                    == value.deep_view(),
                None => forall|i: int|
                    0 <= i < self.entries.len() ==> (
                    #[trigger] self.entries@[i]).value.deep_view() != value.deep_view(),
            },
    {
        let mut i: usize = 0;
        while i < self.entries.len()
            invariant
                i <= self.entries.len(),
                exact_eq::<T>(),
                forall|j: int|
                    0 <= j < i ==> (#[trigger] self.entries@[j]).value.deep_view()
                        != value.deep_view(),
            decreases self.entries.len() - i,
        {
            if self.entries[i].value.eq(value) {
                return Some(i);
            }
            i += 1;
        }
        None
    }

    /// The tokens of the element at position `i` are the tokens of its value.
    proof fn lemma_tokens(&self, i: int)
        requires
            self.well_formed(),
            0 <= i < self.entries.len(),
        ensures
            tokens_of(self@, self.entries@[i].value.deep_view()) == token_texts(
                self.entries@[i].tokens@,
            ).to_set(),
            members(self@).contains(self.entries@[i].value.deep_view())
                <==> self.entries@[i].tokens.len() > 0,
    {
        let value = self.entries@[i].value.deep_view();
        let texts = token_texts(self.entries@[i].tokens@);
        assert(tokens_of(self@, value) =~= texts.to_set()) by {
            assert forall|token: Seq<char>| #[trigger] tokens_of(self@, value).contains(token)
                <==> texts.to_set().contains(token) by {
                if tokens_of(self@, value).contains(token) {
                    let j = choose|j: int| holds(self.entries@, j, (value, token));
                    assert(self.entries@[j].value.deep_view() == value);
                }
                if texts.contains(token) {
                    assert(holds(self.entries@, i, (value, token)));
                }
            }
        }
        if self.entries@[i].tokens.len() > 0 {
            let token = texts[0];
            assert(texts.contains(token));
            assert(holds(self.entries@, i, (value, token)));
            assert(self@.pairs.contains((value, token)));
        }
        if members(self@).contains(value) {
            let pair = choose|pair: (T::V, Seq<char>)| self@.pairs.contains(pair) && pair.0 == value;
            assert(tokens_of(self@, value).contains(pair.1));
        }
    }

    /// A value that is not stored has no token.
    proof fn lemma_absent(&self, value: T::V)
        requires
            forall|i: int|
                0 <= i < self.entries.len() ==> (#[trigger] self.entries@[i]).value.deep_view()
                    != value,
        ensures
            !members(self@).contains(value),
            tokens_of(self@, value) == Set::<Seq<char>>::empty(),
    {
        if members(self@).contains(value) {
            let pair = choose|pair: (T::V, Seq<char>)| self@.pairs.contains(pair) && pair.0 == value;
            let i = choose|i: int| holds(self.entries@, i, pair);
            assert(self.entries@[i].value.deep_view() != value);
        }
        assert(tokens_of(self@, value) =~= Set::<Seq<char>>::empty()) by {
            assert forall|token: Seq<char>| !tokens_of(self@, value).contains(token) by {
                if tokens_of(self@, value).contains(token) {
                    let i = choose|i: int| holds(self.entries@, i, (value, token));
                    assert(self.entries@[i].value.deep_view() != value);
                }
            }
        }
    }

    /// Whether `value` is in the set.
    pub fn contains(&self, value: &T) -> (present: bool)
        requires
            exact_eq::<T>(),
            self.well_formed(),
        ensures
            present == members(self@).contains(value.deep_view()),
    {
        match self.find(value) {
            Some(i) => {
                proof {
                    self.lemma_tokens(i as int);
                }
                self.entries[i].tokens.len() > 0
            },
            None => {
                proof {
                    self.lemma_absent(value.deep_view());
                }
                false
            },
        }
    }

    /// The values that stand for elements, also for elements that are no longer in the
    /// set.
    pub fn values(&self) -> (values: Vec<&T>)
        requires
            self.well_formed(),
        ensures
            seen(values@).no_duplicates(),
            seen(values@).to_set() == self@.first.dom(),
            stand_in(self@, values@),
    {
        let mut values: Vec<&T> = Vec::new();
        let mut i: usize = 0;
        while i < self.entries.len()
            invariant
                i <= self.entries.len(),
                values.len() == i,
                forall|k: int| 0 <= k < i ==> *(#[trigger] values@[k]) == self.entries@[k].value,
            decreases self.entries.len() - i,
        {
            values.push(&self.entries[i].value);
            i += 1;
        }
        proof {
            let elements = seen(values@);
            assert forall|k: int| 0 <= k < values.len() implies {
                &&& self@.first.contains_key((#[trigger] values@[k]).deep_view())
                &&& self@.first[values@[k].deep_view()] == *values@[k]
            } by {
                lemma_first(self.entries@, k);
            }
            assert forall|a: int, b: int|
                0 <= a < elements.len() && 0 <= b < elements.len() && a != b implies elements[a]
                != elements[b] by {
                if a < b {
                    assert(self.entries@[a].value.deep_view()
                        != self.entries@[b].value.deep_view());
                } else {
                    assert(self.entries@[b].value.deep_view()
                        != self.entries@[a].value.deep_view());
                }
            }
            assert forall|element: T::V| #[trigger] elements.to_set().contains(element)
                <==> self@.first.dom().contains(element) by {
                if elements.contains(element) {
                    let k = choose|k: int| 0 <= k < elements.len() && elements[k] == element;
                    assert(self@.first.contains_key(values@[k].deep_view()));
                }
                if self@.first.contains_key(element) {
                    let k = choose|k: int| stands_at(values_of(self.entries@), k, element);
                    assert(elements[k] == element);
                }
            }
            assert(elements.to_set() =~= self@.first.dom());
        }
        values
    }

    /// The elements of the set, each once, by the values that stand for them.
    pub fn iter(&self) -> (items: Vec<&T>)
        requires
            self.well_formed(),
        ensures
            seen(items@).no_duplicates(),
            seen(items@).to_set() == members(self@),
            stand_in(self@, items@),
    {
        let mut items: Vec<&T> = Vec::new();
        let mut i: usize = 0;
        while i < self.entries.len()
            invariant
                i <= self.entries.len(),
                self.well_formed(),
                forall|v: T::V| #[trigger]
                    seen(items@).contains(v) <==> exists|j: int|
                        shows(self.entries@, i as int, j, v),
                seen(items@).no_duplicates(),
                stand_in(self@, items@),
            decreases self.entries.len() - i,
        {
            proof {
                lemma_first(self.entries@, i as int);
            }
            let ghost before = seen(items@);
            let ghost value = self.entries@[i as int].value.deep_view();
            if self.entries[i].tokens.len() > 0 {
                items.push(&self.entries[i].value);
                proof {
                    assert(seen(items@) =~= before.push(value));
                    if before.contains(value) {
                        let j = choose|j: int| shows(self.entries@, i as int, j, value);
                        assert(self.entries@[j].value.deep_view()
                            != self.entries@[i as int].value.deep_view());
                    }
                    assert forall|a: int, b: int|
                        0 <= a < before.push(value).len() && 0 <= b < before.push(value).len() && a
                            != b implies before.push(value)[a] != before.push(value)[b] by {
                        if a == before.len() {
                            assert(before.contains(before[b]));
                        } else if b == before.len() {
                            assert(before.contains(before[a]));
                        }
                    }
                }
            }
            i += 1;
            proof {
                let n = i - 1;
                assert forall|v: T::V| #[trigger] seen(items@).contains(v) <==> exists|j: int|
                    shows(self.entries@, i as int, j, v) by {
                    if seen(items@).contains(v) {
                        if before.contains(v) {
                            let j = choose|j: int| shows(self.entries@, n, j, v);
                            assert(shows(self.entries@, i as int, j, v));
                        } else {
                            let k = choose|k: int|
                                0 <= k < seen(items@).len() && seen(items@)[k] == v;
                            if k < before.len() {
                                assert(before[k] == v);
                            }
                            assert(shows(self.entries@, i as int, n, v));
                        }
                    }
                    if exists|j: int| shows(self.entries@, i as int, j, v) {
                        let j = choose|j: int| shows(self.entries@, i as int, j, v);
                        if j < n {
                            assert(shows(self.entries@, n, j, v));
                            assert(before.contains(v));
                            let k = choose|k: int| 0 <= k < before.len() && before[k] == v;
                            assert(seen(items@)[k] == v);
                        } else {
                            assert(seen(items@)[before.len() as int] == v);
                        }
                    }
                }
            }
        }
        proof {
            assert forall|v: T::V| #[trigger] seen(items@).to_set().contains(v) <==> members(
                self@,
            ).contains(v) by {
                if seen(items@).contains(v) {
                    let j = choose|j: int| shows(self.entries@, i as int, j, v);
                    self.lemma_tokens(j);
                }
                if members(self@).contains(v) {
                    let pair = choose|pair: (T::V, Seq<char>)| self@.pairs.contains(pair) && pair.0 == v;
                    let j = choose|j: int| holds(self.entries@, j, pair);
                    assert(shows(self.entries@, i as int, j, v));
                }
            }
            assert(seen(items@).to_set() =~= members(self@));
        }
        items
    }

    /// The number of elements.
    pub fn len(&self) -> (n: usize)
        requires
            self.well_formed(),
        ensures
            n == members(self@).len(),
    {
        let items = self.iter();
        proof {
            seen(items@).unique_seq_to_set();
        }
        items.len()
    }

    /// Whether the set has no element.
    pub fn is_empty(&self) -> (empty: bool)
        requires
            self.well_formed(),
        ensures
            empty == (members(self@) == Set::<T::V>::empty()),
    {
        let items = self.iter();
        proof {
            if items.len() == 0 {
                assert(seen(items@).to_set() =~= Set::<T::V>::empty());
            } else {
                assert(seen(items@).to_set().contains(seen(items@)[0]));
            }
        }
        items.len() == 0
    }

    /// An addition of `value` under a token made of the node's name and `suffix`.
    /// The set itself is not changed.
    pub fn add_with(&self, value: T, suffix: &str) -> (op: ORSetOp<T>)
        ensures
            op@ == (SetOpView::Add { value, token: self.owner() + seq!['-'] + suffix@ }),
    {
        let mut token = self.node_id.clone();
        token.append("-");
        token.append(suffix);
        proof {
            reveal_strlit("-");
            assert("-"@ =~= seq!['-']);
        }
        ORSetOp::Add { value, token }
    }

    /// An addition of `value` under a new token.  The set itself is not changed.
    pub fn add(&self, value: T) -> (op: ORSetOp<T>)
        ensures
            exists|suffix: Seq<char>| #[trigger]
                unique::is_random_uuid(suffix) && op@ == (SetOpView::Add {
                    value,
                    token: self.owner() + seq!['-'] + suffix,
                }),
    {
        let suffix = unique::fresh_uuid();
        self.add_with(value, suffix.as_str())
    }

    /// A removal of `value`: of all the tokens that it has here.  `None` if it is
    /// not in the set.  The set itself is not changed.
    pub fn remove(&self, value: &T) -> (op: Option<ORSetOp<T>>)
        requires
            exact_eq::<T>(),
            self.well_formed(),
        ensures
            match op {
                Some(removal) => {
                    &&& members(self@).contains(value.deep_view())
                    &&& removal@ == (SetOpView::<T>::Remove {
                        tokens: tokens_of(self@, value.deep_view()),
                    })
                    &&& removal matches ORSetOp::Remove { tokens } && token_texts(
                        tokens@,
                    ).no_duplicates()
                },
                None => !members(self@).contains(value.deep_view()),
            },
    {
        match self.find(value) {
            Some(i) => {
                proof {
                    self.lemma_tokens(i as int);
                }
                if self.entries[i].tokens.len() == 0 {
                    None
                } else {
                    Some(ORSetOp::Remove { tokens: clone_tokens(&self.entries[i].tokens) })
                }
            },
            None => {
                proof {
                    self.lemma_absent(value.deep_view());
                }
                None
            },
        }
    }

    /// Lets `value` stand for its element, unless another value does already.  No
    /// element comes into the set by that.
    pub fn remember(&mut self, value: T)
        requires
            exact_eq::<T>(),
            old(self).well_formed(),
        ensures
            final(self).well_formed(),
            final(self).owner() == old(self).owner(),
            final(self)@ == (SetView { first: noted(old(self)@.first, value), ..old(self)@ }),
    {
        self.note(value);
    }

    /// The position of the element of `value`; if it has none yet, it gets one, and
    /// `value` stands for it from then on.
    fn note(&mut self, value: T) -> (at: usize)
        requires
            exact_eq::<T>(),
            old(self).well_formed(),
        ensures
            final(self).well_formed(),
            final(self).owner() == old(self).owner(),
            final(self)@ == (SetView { first: noted(old(self)@.first, value), ..old(self)@ }),
            at < final(self).entries.len(),
            final(self).entries@[at as int].value.deep_view() == value.deep_view(),
    {
        let ghost before = self.entries@;
        let ghost element = value.deep_view();
        match self.find(&value) {
            Some(i) => {
                proof {
                    lemma_first(before, i as int);
                    lemma_pairs_have_values(before);
                }
                i
            },
            None => {
                let n: usize = self.entries.len();
                self.entries.push(Entry { value, tokens: Vec::new() });
                proof {
                    let now = self.entries@;
                    assert(token_texts(now[n as int].tokens@) =~= Seq::empty());
                    lemma_entry_added(before, now, value);
                    lemma_pairs_have_values(now);
                    assert(self@.pairs == old(self)@.pairs);
                    assert forall|pair: (T::V, Seq<char>)| #[trigger] self@.pairs.contains(
                        pair,
                    ) implies !self@.gone.contains(pair.1) by {
                        assert(old(self)@.pairs.contains(pair));
                    }
                }
                n
            },
        }
    }

    /// Puts `token` to `value`, unless the token was removed.
    fn put(&mut self, value: T, token: Token)
        requires
            exact_eq::<T>(),
            old(self).well_formed(),
        ensures
            final(self).well_formed(),
            final(self).owner() == old(self).owner(),
            final(self)@ == after(old(self)@, SetOpView::Add { value, token: token@ }),
    {
        let ghost v = value.deep_view();
        let ghost t = token@;
        if listed(&self.gone, token.as_str()) {
            return;
        }
        let i = self.note(value);
        let ghost before = self.entries@;
        if !listed(&self.entries[i].tokens, token.as_str()) {
            let ghost texts = token_texts(before[i as int].tokens@);
            self.entries[i].tokens.push(token);
            proof {
                let now = self.entries@;
                assert(token_texts(now[i as int].tokens@) =~= texts.push(t));
                assert forall|k: int| 0 <= k < now.len() && k != i implies now[k]
                    == before[k] by {}
                lemma_token_added(before, now, i as int, t);
                lemma_same_first(before, now);
            }
        } else {
            proof {
                assert(holds(before, i as int, (v, t)));
                assert(self@.pairs =~= pairs_of(before).insert((v, t)));
            }
        }
        proof {
            lemma_pairs_have_values(self.entries@);
            assert forall|pair: (T::V, Seq<char>)| #[trigger] self@.pairs.contains(
                pair,
            ) implies !self@.gone.contains(pair.1) by {
                assert(pair == (v, t) || old(self)@.pairs.contains(pair));
            }
        }
    }

    /// Receives an operation.
    pub fn apply(&mut self, op: ORSetOp<T>)
        requires
            exact_eq::<T>(),
            old(self).well_formed(),
        ensures
            final(self).well_formed(),
            final(self).owner() == old(self).owner(),
            final(self)@ == after(old(self)@, op@),
    {
        match op {
            ORSetOp::Add { value, token } => {
                self.put(value, token);
            },
            ORSetOp::Remove { tokens } => {
                self.drop_tokens(&tokens);
            },
        }
    }

    /// Takes away the tokens listed, from whatever element has them, and remembers
    /// them.
    fn drop_tokens(&mut self, tokens: &Vec<Token>)
        requires
            old(self).well_formed(),
        ensures
            final(self).well_formed(),
            final(self).owner() == old(self).owner(),
            final(self)@ == after(
                old(self)@,
                SetOpView::<T>::Remove { tokens: token_texts(tokens@).to_set() },
            ),
    {
        let ghost before = self.entries@;
        let mut i: usize = 0;
        while i < self.entries.len()
            invariant
                i <= self.entries.len(),
                self.entries.len() == before.len(),
                self.node_id == old(self).node_id,
                self.gone == old(self).gone,
                tidy(before),
                forall|k: int|
                    0 <= k < before.len() ==> (#[trigger] self.entries@[k]).value
                        == before[k].value,
                forall|k: int|
                    i <= k < before.len() ==> (#[trigger] self.entries@[k]) == before[k],
                forall|k: int|
                    0 <= k < i ==> token_texts(
                        (#[trigger] self.entries@[k]).tokens@,
                    ).no_duplicates(),
                forall|k: int, token: Seq<char>|
                    0 <= k < i ==> (#[trigger] token_texts(
                        (#[trigger] self.entries@[k]).tokens@,
                    ).contains(token) <==> token_texts(before[k].tokens@).contains(token)
                        && !token_texts(tokens@).contains(token)),
            decreases self.entries.len() - i,
        {
            let kept = without(&self.entries[i].tokens, tokens);
            let slot = &mut self.entries[i];
            slot.tokens = kept;
            i += 1;
        }
        proof {
            lemma_tokens_dropped(before, self.entries@, token_texts(tokens@));
            lemma_same_first(before, self.entries@);
        }
        let ghost entries = self.entries@;
        let ghost texts = token_texts(tokens@);
        let ghost start = token_texts(self.gone@).to_set();
        proof {
            assert(texts.take(0).to_set() =~= Set::empty());
            assert(start.union(Set::empty()) =~= start);
        }
        let mut k: usize = 0;
        while k < tokens.len()
            invariant
                k <= tokens.len(),
                self.node_id == old(self).node_id,
                self.entries@ == entries,
                texts == token_texts(tokens@),
                token_texts(self.gone@).to_set() == start.union(texts.take(k as int).to_set()),
            decreases tokens.len() - k,
        {
            let ghost gone = token_texts(self.gone@);
            let ghost text = tokens@[k as int]@;
            let ghost less = texts.take(k as int);
            if !listed(&self.gone, tokens[k].as_str()) {
                self.gone.push(tokens[k].clone());
                proof {
                    assert(token_texts(self.gone@) =~= gone.push(text));
                    lemma_push_contains(gone, text);
                }
            }
            k += 1;
            proof {
                assert(texts.take(k as int) =~= less.push(text));
                lemma_push_contains(less, text);
                let now = token_texts(self.gone@);
                assert forall|token: Seq<char>| #[trigger] now.to_set().contains(token)
                    <==> start.union(less.push(text).to_set()).contains(token) by {
                    assert(gone.to_set().contains(token) <==> start.union(
                        less.to_set(),
                    ).contains(token));
                    assert(less.push(text).contains(token) <==> less.contains(token) || token
                        == text);
                    assert(gone.to_set().contains(token) <==> gone.contains(token));
                }
                assert(now.to_set() =~= start.union(less.push(text).to_set()));
            }
        }
        proof {
            assert(texts.take(k as int) =~= texts);
            lemma_pairs_have_values(self.entries@);
            assert forall|pair: (T::V, Seq<char>)| #[trigger] self@.pairs.contains(
                pair,
            ) implies !self@.gone.contains(pair.1) by {
                assert(old(self)@.pairs.contains(pair));
            }
        }
    }

    /// The tokens that were removed.
    pub fn removed(&self) -> (tokens: &Vec<Token>)
        ensures
            token_texts(tokens@).to_set() == self@.gone,
    {
        &self.gone
    }

    /// Takes over the state of `other`: its elements with their tokens, and the tokens
    /// that were removed there.
    ///
    /// A value that stands for an element here stays; for the others a clone of the
    /// value in `other` does.
    pub fn merge(&mut self, other: &ORSet<T>)
        requires
            exact_eq::<T>(),
            exact_clone::<T>(),
            old(self).well_formed(),
            other.well_formed(),
        ensures
            final(self).well_formed(),
            final(self).owner() == old(self).owner(),
            final(self)@.pairs == merged(old(self)@, other@).pairs,
            final(self)@.gone == merged(old(self)@, other@).gone,
            noted_clones(old(self)@.first, other@.first, final(self)@.first),
            copies::exact_values::<T>() ==> final(self)@ == merged(old(self)@, other@),
    {
        self.drop_tokens(&other.gone);
        let ghost start = self@;
        let ghost gone = start.gone;
        assert(first_of(other.entries@.take(0)) =~= Map::empty());
        assert(start.pairs.union(spared(pairs_of(other.entries@.take(0)), gone)) =~= start.pairs);
        assert(noted_clones(start.first, Map::empty(), start.first)) by {
            assert(start.first.dom() =~= start.first.dom().union(Map::<T::V, T>::empty().dom()));
        }
        let mut i: usize = 0;
        while i < other.entries.len()
            invariant
                i <= other.entries.len(),
                exact_eq::<T>(),
                exact_clone::<T>(),
                self.well_formed(),
                self.owner() == old(self).owner(),
                self@.gone == gone,
                self@.pairs == start.pairs.union(
                    spared(pairs_of(other.entries@.take(i as int)), gone),
                ),
                other.well_formed(),
                tidy(other.entries@),
                noted_clones(
                    start.first,
                    first_of(other.entries@.take(i as int)),
                    self@.first,
                ),
            decreases other.entries.len() - i,
        {
            let entry = &other.entries[i];
            let ghost value = entry.value.deep_view();
            let ghost begun = self@.pairs;
            let ghost known = self@.first;
            let first_copy = entry.value.clone();
            assert(cloned(entry.value, first_copy));
            self.note(first_copy);
            let ghost noted = self@.first;
            proof {
                lemma_one_more(start.first, other.entries@, i as int, known, first_copy);
            }
            let ghost texts = token_texts(entry.tokens@);
            let mut j: usize = 0;
            while j < entry.tokens.len()
                invariant
                    j <= entry.tokens.len(),
                    exact_eq::<T>(),
                    exact_clone::<T>(),
                    value == entry.value.deep_view(),
                    texts == token_texts(entry.tokens@),
                    self.well_formed(),
                    self.owner() == old(self).owner(),
                    self@.gone == gone,
                    self@.first == noted,
                    noted.contains_key(value),
                    forall|pair: (T::V, Seq<char>)| #[trigger]
                        self@.pairs.contains(pair) <==> begun.contains(pair) || (pair.0 == value
                            && texts.take(j as int).contains(pair.1) && !gone.contains(pair.1)),
                decreases entry.tokens.len() - j,
            {
                let copy = entry.value.clone();
                assert(cloned(entry.value, copy));
                let ghost token = entry.tokens@[j as int]@;
                let ghost less = texts.take(j as int);
                self.put(copy, entry.tokens[j].clone());
                j += 1;
                proof {
                    assert(texts.take(j as int) =~= less.push(token));
                    lemma_push_contains(less, token);
                }
            }
            i += 1;
            proof {
                assert(texts.take(texts.len() as int) =~= texts);
                let less = other.entries@.take(i - 1);
                let more = other.entries@.take(i as int);
                let goal = start.pairs.union(spared(pairs_of(more), gone));
                assert(self@.pairs =~= goal) by {
                    assert forall|pair: (T::V, Seq<char>)| #[trigger]
                        self@.pairs.contains(pair) <==> goal.contains(pair) by {
                        if pairs_of(less).contains(pair) {
                            let k = choose|k: int| holds(less, k, pair);
                            assert(holds(more, k, pair));
                        }
                        if pair.0 == value && texts.contains(pair.1) {
                            assert(holds(more, i - 1, pair));
                        }
                        if pairs_of(more).contains(pair) {
                            let k = choose|k: int| holds(more, k, pair);
                            if k < i - 1 {
                                assert(holds(less, k, pair));
                            }
                        }
                    }
                }
            }
        }
        proof {
            assert(other.entries@.take(i as int) =~= other.entries@);
            let goal = merged(old(self)@, other@);
            assert(self@.gone =~= goal.gone);
            if copies::exact_values::<T>() {
                lemma_exact_notes(old(self)@.first, other@.first, self@.first);
            }
            assert forall|pair: (T::V, Seq<char>)| #[trigger] self@.pairs.contains(pair)
                <==> goal.pairs.contains(pair) by {
                if old(self)@.pairs.contains(pair) {
                    assert(!old(self)@.gone.contains(pair.1));
                }
            }
            assert(self@.pairs =~= goal.pairs);
        }
    }
}

/// The tokens of `tokens` that are not among `gone`, in order.
fn without(tokens: &Vec<Token>, gone: &Vec<Token>) -> (kept: Vec<Token>)
    ensures
        forall|token: Seq<char>| #[trigger]
            token_texts(kept@).contains(token) <==> token_texts(tokens@).contains(token)
                && !token_texts(gone@).contains(token),
        token_texts(tokens@).no_duplicates() ==> token_texts(kept@).no_duplicates(),
{
    let ghost texts = token_texts(tokens@);
    let mut kept: Vec<Token> = Vec::new();
    let mut i: usize = 0;
    while i < tokens.len()
        invariant
            i <= tokens.len(),
            texts == token_texts(tokens@),
            forall|token: Seq<char>| #[trigger]
                token_texts(kept@).contains(token) <==> texts.take(i as int).contains(token)
                    && !token_texts(gone@).contains(token),
            texts.no_duplicates() ==> token_texts(kept@).no_duplicates(),
        decreases tokens.len() - i,
    {
        let ghost before = token_texts(kept@);
        let ghost less = texts.take(i as int);
        let ghost text = texts[i as int];
        assert(text == tokens@[i as int]@);
        if !listed(gone, tokens[i].as_str()) {
            kept.push(tokens[i].clone());
            proof {
                assert(token_texts(kept@) =~= before.push(text));
                lemma_push_contains(before, text);
                if texts.no_duplicates() {
                    assert(!before.contains(text)) by {
                        if before.contains(text) {
                            assert(less.contains(text));
                            let k = choose|k: int| 0 <= k < less.len() && less[k] == text;
                            assert(texts[k] == texts[i as int]);
                        }
                    }
                    assert forall|a: int, b: int|
                        0 <= a < before.push(text).len() && 0 <= b < before.push(text).len() && a
                            != b implies before.push(text)[a] != before.push(text)[b] by {
                        if a == before.len() {
                            assert(before.contains(before[b]));
                        } else if b == before.len() {
                            assert(before.contains(before[a]));
                        }
                    }
                }
            }
        }
        i += 1;
        proof {
            assert(texts.take(i as int) =~= less.push(text));
            lemma_push_contains(less, text);
        }
    }
    assert(texts.take(i as int) =~= texts);
    kept
}

proof fn lemma_push_contains(texts: Seq<Seq<char>>, text: Seq<char>)
    ensures
        forall|t: Seq<char>| #[trigger]
            texts.push(text).contains(t) <==> texts.contains(t) || t == text,
{
    assert forall|t: Seq<char>| #[trigger] texts.push(text).contains(t) <==> texts.contains(t) || t
        == text by {
        if texts.contains(t) {
            let k = choose|k: int| 0 <= k < texts.len() && texts[k] == t;
            assert(texts.push(text)[k] == t);
        }
        assert(texts.push(text)[texts.len() as int] == text);
    }
}

proof fn lemma_token_added<T: DeepView>(
    before: Seq<Entry<T>>,
    now: Seq<Entry<T>>,
    i: int,
    token: Seq<char>,
)
    requires
        tidy(before),
        0 <= i < before.len(),
        now.len() == before.len(),
        now[i].value == before[i].value,
        token_texts(now[i].tokens@) == token_texts(before[i].tokens@).push(token),
        !token_texts(before[i].tokens@).contains(token),
        forall|k: int| 0 <= k < now.len() && k != i ==> now[k] == before[k],
    ensures
        tidy(now),
        pairs_of(now) == pairs_of(before).insert((before[i].value.deep_view(), token)),
{
    let texts = token_texts(before[i].tokens@);
    let value = before[i].value.deep_view();
    lemma_push_contains(texts, token);
    assert forall|a: int, b: int| 0 <= a < b < now.len() implies (
    #[trigger] now[a]).value.deep_view() != (#[trigger] now[b]).value.deep_view() by {
        assert(before[a].value.deep_view() != before[b].value.deep_view());
    }
    assert forall|k: int| 0 <= k < now.len() implies token_texts(
        (#[trigger] now[k]).tokens@,
    ).no_duplicates() by {
        assert(token_texts(before[k].tokens@).no_duplicates());
        if k == i {
            assert forall|a: int, b: int|
                0 <= a < texts.push(token).len() && 0 <= b < texts.push(token).len() && a
                    != b implies texts.push(token)[a] != texts.push(token)[b] by {
                if a == texts.len() {
                    assert(texts.contains(texts[b]));
                } else if b == texts.len() {
                    assert(texts.contains(texts[a]));
                }
            }
        }
    }
    assert(pairs_of(now) =~= pairs_of(before).insert((value, token))) by {
        assert forall|pair: (T::V, Seq<char>)| #[trigger]
            pairs_of(now).contains(pair) <==> pairs_of(before).insert((value, token)).contains(
                pair,
            ) by {
            if pairs_of(now).contains(pair) {
                let k = choose|k: int| holds(now, k, pair);
                if k != i || pair.1 != token {
                    assert(holds(before, k, pair));
                }
            }
            if pairs_of(before).contains(pair) {
                let k = choose|k: int| holds(before, k, pair);
                assert(holds(now, k, pair));
            }
            assert(holds(now, i, (value, token)));
        }
    }
}

proof fn lemma_entry_added<T: DeepView>(before: Seq<Entry<T>>, now: Seq<Entry<T>>, value: T)
    requires
        tidy(before),
        now.len() == before.len() + 1,
        forall|k: int| 0 <= k < before.len() ==> now[k] == before[k],
        now.last().value == value,
        token_texts(now.last().tokens@) == Seq::<Seq<char>>::empty(),
        forall|k: int|
            0 <= k < before.len() ==> (#[trigger] before[k]).value.deep_view()
                != value.deep_view(),
    ensures
        tidy(now),
        pairs_of(now) == pairs_of(before),
        first_of(now) == first_of(before).insert(value.deep_view(), value),
        !first_of(before).contains_key(value.deep_view()),
{
    let n = before.len() as int;
    let element = value.deep_view();
    assert forall|a: int, b: int| 0 <= a < b < now.len() implies (
    #[trigger] now[a]).value.deep_view() != (#[trigger] now[b]).value.deep_view() by {
        assert(before[a].value.deep_view() != element);
        if b < n {
            assert(before[a].value.deep_view() != before[b].value.deep_view());
        }
    }
    assert forall|k: int| 0 <= k < now.len() implies token_texts(
        (#[trigger] now[k]).tokens@,
    ).no_duplicates() by {
        if k < n {
            assert(token_texts(before[k].tokens@).no_duplicates());
        }
    }
    assert forall|pair: (T::V, Seq<char>)| #[trigger] pairs_of(now).contains(pair) <==> pairs_of(
        before,
    ).contains(pair) by {
        if pairs_of(now).contains(pair) {
            let k = choose|k: int| holds(now, k, pair);
            if k == n {
                assert(now.last() == now[n]);
            }
            assert(holds(before, k, pair));
        }
        if pairs_of(before).contains(pair) {
            let k = choose|k: int| holds(before, k, pair);
            assert(holds(now, k, pair));
        }
    }
    assert(pairs_of(now) =~= pairs_of(before));
    if first_of(before).contains_key(element) {
        let k = choose|k: int| stands_at(values_of(before), k, element);
        assert(before[k].value.deep_view() != element);
    }
    lemma_first(now, n);
    let goal = first_of(before).insert(element, value);
    assert forall|e: T::V| #[trigger] first_of(now).contains_key(e) <==> goal.contains_key(e) by {
        if first_of(now).contains_key(e) {
            let k = choose|k: int| stands_at(values_of(now), k, e);
            if k < n {
                assert(stands_at(values_of(before), k, e));
            }
        }
        if first_of(before).contains_key(e) {
            let k = choose|k: int| stands_at(values_of(before), k, e);
            assert(stands_at(values_of(now), k, e));
        }
    }
    assert forall|e: T::V| #[trigger] first_of(now).contains_key(e) implies first_of(now)[e]
        == goal[e] by {
        let k = choose|k: int| stands_at(values_of(now), k, e);
        lemma_first(now, k);
        if k < n {
            lemma_first(before, k);
        }
    }
    assert(first_of(now) =~= goal);
}

/// `next` holds the values `own`, and clones of the values `other` for the elements for
/// which there is none in `own`.
pub open spec fn noted_clones<T: Clone + DeepView>(
    own: Map<T::V, T>,
    other: Map<T::V, T>,
    next: Map<T::V, T>,
) -> bool {
    &&& next.dom() == own.dom().union(other.dom())
    &&& forall|element: T::V|
        #![trigger next[element]]
        own.contains_key(element) ==> next[element] == own[element]
    &&& forall|element: T::V|
        #![trigger next[element]]
        other.contains_key(element) && !own.contains_key(element) ==> cloned(
            other[element],
            next[element],
        )
}

proof fn lemma_exact_notes<T: Clone + DeepView>(
    own: Map<T::V, T>,
    other: Map<T::V, T>,
    next: Map<T::V, T>,
)
    requires
        copies::exact_values::<T>(),
        noted_clones(own, other, next),
    ensures
        next == other.union_prefer_right(own),
{
    let goal = other.union_prefer_right(own);
    assert forall|element: T::V| #[trigger] next.contains_key(element) <==> goal.contains_key(
        element,
    ) by {
        assert(next.dom().contains(element) <==> own.dom().union(other.dom()).contains(element));
    }
    assert forall|element: T::V| #[trigger] next.contains_key(element) implies next[element]
        == goal[element] by {
        assert(next.dom().contains(element) <==> own.dom().union(other.dom()).contains(element));
        if !own.contains_key(element) {
            assert(cloned(other[element], next[element]));
        }
    }
    assert(next =~= goal);
}

/// One more entry of the other replica.
proof fn lemma_one_more<T: Clone + DeepView>(
    own: Map<T::V, T>,
    entries: Seq<Entry<T>>,
    i: int,
    known: Map<T::V, T>,
    copy: T,
)
    requires
        tidy(entries),
        0 <= i < entries.len(),
        exact_clone::<T>(),
        cloned(entries[i].value, copy),
        noted_clones(own, first_of(entries.take(i)), known),
    ensures
        noted_clones(own, first_of(entries.take(i + 1)), noted(known, copy)),
        noted(known, copy).contains_key(entries[i].value.deep_view()),
{
    let (less, more) = (entries.take(i), entries.take(i + 1));
    let (a, b) = (first_of(less), first_of(more));
    let element = entries[i].value.deep_view();
    let next = noted(known, copy);
    assert(copy.deep_view() == element);
    assert(tidy(less)) by {
        assert forall|x: int, y: int| 0 <= x < y < less.len() implies (
        #[trigger] less[x]).value.deep_view() != (#[trigger] less[y]).value.deep_view() by {
            assert(entries[x].value.deep_view() != entries[y].value.deep_view());
        }
        assert forall|x: int| 0 <= x < less.len() implies token_texts(
            (#[trigger] less[x]).tokens@,
        ).no_duplicates() by {
            assert(token_texts(entries[x].tokens@).no_duplicates());
        }
    }
    assert(tidy(more)) by {
        assert forall|x: int, y: int| 0 <= x < y < more.len() implies (
        #[trigger] more[x]).value.deep_view() != (#[trigger] more[y]).value.deep_view() by {
            assert(entries[x].value.deep_view() != entries[y].value.deep_view());
        }
        assert forall|x: int| 0 <= x < more.len() implies token_texts(
            (#[trigger] more[x]).tokens@,
        ).no_duplicates() by {
            assert(token_texts(entries[x].tokens@).no_duplicates());
        }
    }
    if a.contains_key(element) {
        let k = choose|k: int| stands_at(values_of(less), k, element);
        assert(entries[k].value.deep_view() != entries[i].value.deep_view());
    }
    lemma_first(more, i);
    assert forall|e: T::V| #[trigger] b.contains_key(e) <==> a.contains_key(e) || e == element by {
        if b.contains_key(e) {
            let k = choose|k: int| stands_at(values_of(more), k, e);
            if k < i {
                assert(stands_at(values_of(less), k, e));
            }
        }
        if a.contains_key(e) {
            let k = choose|k: int| stands_at(values_of(less), k, e);
            assert(stands_at(values_of(more), k, e));
        }
    }
    assert forall|e: T::V| #[trigger] a.contains_key(e) implies b[e] == a[e] by {
        let k = choose|k: int| stands_at(values_of(less), k, e);
        lemma_first(less, k);
        lemma_first(more, k);
    }
    assert forall|e: T::V| #[trigger] next.dom().contains(e) <==> own.dom().union(
        b.dom(),
    ).contains(e) by {
        assert(known.dom().contains(e) <==> own.dom().union(a.dom()).contains(e));
        assert(b.contains_key(e) <==> a.contains_key(e) || e == element);
    }
    assert(next.dom() =~= own.dom().union(b.dom()));
    assert forall|e: T::V|
        #![trigger next[e]]
        own.contains_key(e) implies next[e] == own[e] by {
        assert(known.dom().contains(e) <==> own.dom().union(a.dom()).contains(e));
        assert(known[e] == own[e]);
    }
    assert forall|e: T::V|
        #![trigger next[e]]
        b.contains_key(e) && !own.contains_key(e) implies cloned(b[e], next[e]) by {
        assert(known.dom().contains(e) <==> own.dom().union(a.dom()).contains(e));
        if e != element {
            assert(a.contains_key(e));
            assert(cloned(a[e], known[e]));
        }
    }
}

proof fn lemma_tokens_dropped<T: DeepView>(
    before: Seq<Entry<T>>,
    now: Seq<Entry<T>>,
    gone: Seq<Seq<char>>,
)
    requires
        tidy(before),
        now.len() == before.len(),
        forall|k: int| 0 <= k < before.len() ==> (#[trigger] now[k]).value == before[k].value,
        forall|k: int| 0 <= k < now.len() ==> token_texts(
            (#[trigger] now[k]).tokens@,
        ).no_duplicates(),
        forall|k: int, token: Seq<char>|
            0 <= k < now.len() ==> (#[trigger] token_texts(
                (#[trigger] now[k]).tokens@,
            ).contains(token) <==> token_texts(before[k].tokens@).contains(token)
                && !gone.contains(token)),
    ensures
        tidy(now),
        pairs_of(now) == spared(pairs_of(before), gone.to_set()),
{
    assert forall|a: int, b: int| 0 <= a < b < now.len() implies (
    #[trigger] now[a]).value.deep_view() != (#[trigger] now[b]).value.deep_view() by {
        assert(before[a].value.deep_view() != before[b].value.deep_view());
    }
    let left = spared(pairs_of(before), gone.to_set());
    assert(pairs_of(now) =~= left) by {
        assert forall|pair: (T::V, Seq<char>)| #[trigger] pairs_of(now).contains(pair)
            <==> left.contains(pair) by {
            if pairs_of(now).contains(pair) {
                let k = choose|k: int| holds(now, k, pair);
                assert(now[k].value == before[k].value);
                assert(holds(before, k, pair));
            }
            if left.contains(pair) {
                let k = choose|k: int| holds(before, k, pair);
                assert(now[k].value == before[k].value);
                assert(token_texts(now[k].tokens@).contains(pair.1));
                assert(holds(now, k, pair));
            }
        }
    }
}

impl<T> Clone for ORSet<T> where T: Eq + Clone + DeepView {
    fn clone(&self) -> (copy: Self)
        ensures
            copies::exact_values::<T>() ==> copy@ == self@,
            exact_clone::<T>() && self.well_formed() ==> copy.well_formed() && copy@.pairs
                == self@.pairs && copy@.gone == self@.gone,
            copy.owner() == self.owner(),
    {
        let mut entries: Vec<Entry<T>> = Vec::new();
        let mut i: usize = 0;
        while i < self.entries.len()
            invariant
                i <= self.entries.len(),
                entries.len() == i,
                forall|k: int|
                    0 <= k < i ==> (#[trigger] entries@[k]).tokens@ == self.entries@[k].tokens@
                        && (exact_clone::<T>() ==> entries@[k].value.deep_view()
                        == self.entries@[k].value.deep_view()) && (copies::exact_values::<T>()
                        ==> entries@[k].value == self.entries@[k].value),
            decreases self.entries.len() - i,
        {
            let value = self.entries[i].value.clone();
            assert(cloned(self.entries@[i as int].value, value));
            let tokens = clone_tokens(&self.entries[i].tokens);
            entries.push(Entry { value, tokens });
            i += 1;
        }
        let copy = ORSet {
            node_id: self.node_id.clone(),
            entries,
            gone: clone_tokens(&self.gone),
        };
        proof {
            if exact_clone::<T>() {
                assert(copy@.pairs =~= self@.pairs) by {
                    assert forall|pair: (T::V, Seq<char>)| #[trigger] copy@.pairs.contains(pair)
                        <==> self@.pairs.contains(pair) by {
                        if copy@.pairs.contains(pair) {
                            let k = choose|k: int| holds(entries@, k, pair);
                            assert(holds(self.entries@, k, pair));
                        }
                        if self@.pairs.contains(pair) {
                            let k = choose|k: int| holds(self.entries@, k, pair);
                            assert(entries@[k].tokens@ == self.entries@[k].tokens@);
                            assert(holds(entries@, k, pair));
                        }
                    }
                }
                if self.well_formed() {
                    assert forall|a: int, b: int| 0 <= a < b < entries@.len() implies (
                    #[trigger] entries@[a]).value.deep_view() != (
                    #[trigger] entries@[b]).value.deep_view() by {
                        assert(self.entries@[a].value.deep_view()
                            != self.entries@[b].value.deep_view());
                    }
                    assert(tidy(entries@)) by {
                        assert forall|a: int| 0 <= a < entries@.len() implies token_texts(
                            (#[trigger] entries@[a]).tokens@,
                        ).no_duplicates() by {
                            assert(token_texts(self.entries@[a].tokens@).no_duplicates());
                        }
                    }
                    lemma_pairs_have_values(entries@);
                }
                if copies::exact_values::<T>() {
                    lemma_same_first(self.entries@, entries@);
                }
            }
        }
        copy
    }
}

} // verus!
