//! Laws of the observed-remove set.

use crate::or_set;
use crate::or_set::ORSetOp;
use crate::or_set::SetOpView;
use crate::or_set::SetView;
use vstd::prelude::*;

verus! {

/// Two sets hold the same elements under the same tokens, and the same tokens were
/// removed.  Which of several equal values stands for an element may differ.
pub open spec fn same_set<T: DeepView>(a: SetView<T>, b: SetView<T>) -> bool {
    &&& a.pairs == b.pairs
    &&& a.gone == b.gone
}

/// Applying an operation a second time changes nothing.
pub proof fn law_apply_idempotent<T: DeepView>(set: SetView<T>, op: SetOpView<T>)
    ensures
        or_set::after(or_set::after(set, op), op) == or_set::after(set, op),
{
    assert(or_set::after(or_set::after(set, op), op) =~= or_set::after(set, op));
}

/// Two operations have the same effect in either order.
pub proof fn law_apply_commutative<T: DeepView>(set: SetView<T>, a: SetOpView<T>, b: SetOpView<T>)
    ensures
        same_set(
            or_set::after(or_set::after(set, a), b),
            or_set::after(or_set::after(set, b), a),
        ),
{
    let (x, y) = (
        or_set::after(or_set::after(set, a), b),
        or_set::after(or_set::after(set, b), a),
    );
    assert(x.pairs =~= y.pairs);
    assert(x.gone =~= y.gone);
}

/// The value that stands for an element stays: no operation and no merge puts another
/// in its place.
pub proof fn law_first_value_stays<T: DeepView>(
    set: SetView<T>,
    op: SetOpView<T>,
    other: SetView<T>,
    element: T::V,
)
    requires
        set.first.contains_key(element),
    ensures
        or_set::after(set, op).first.contains_key(element),
        or_set::after(set, op).first[element] == set.first[element],
        or_set::merged(set, other).first.contains_key(element),
        or_set::merged(set, other).first[element] == set.first[element],
{
}

/// Operations keep a state well formed.
pub proof fn law_apply_keeps_well_formed<T: DeepView>(set: SetView<T>, op: SetOpView<T>)
    requires
        set.well_formed(),
    ensures
        or_set::after(set, op).well_formed(),
{
}

/// `op` takes away `token`.
pub open spec fn removes<T: DeepView>(op: SetOpView<T>, token: Seq<char>) -> bool {
    op matches SetOpView::Remove { tokens } && tokens.contains(token)
}

/// An addition under a token that was not removed wins over a removal that has not seen
/// it, whichever comes first.
pub proof fn law_addition_wins<T: DeepView>(
    set: SetView<T>,
    value: T,
    token: Seq<char>,
    removal: SetOpView<T>,
)
    requires
        !set.gone.contains(token),
        !removes(removal, token),
    ensures
        ({
            let addition = SetOpView::Add { value, token };
            &&& or_set::members(or_set::after(or_set::after(set, addition), removal)).contains(
                value.deep_view(),
            )
            &&& or_set::members(or_set::after(or_set::after(set, removal), addition)).contains(
                value.deep_view(),
            )
        }),
{
    let addition = SetOpView::Add { value, token };
    let pair = (value.deep_view(), token);
    assert(or_set::after(or_set::after(set, addition), removal).pairs.contains(pair));
    assert(or_set::after(or_set::after(set, removal), addition).pairs.contains(pair));
}

/// An element that is added under a token that was not removed is in the set.
pub proof fn law_added_is_member<T: DeepView>(set: SetView<T>, value: T, token: Seq<char>)
    requires
        !set.gone.contains(token),
    ensures
        or_set::members(or_set::after(set, SetOpView::Add { value, token })) == or_set::members(
            set,
        ).insert(value.deep_view()),
{
    let next = or_set::after(set, SetOpView::Add { value, token });
    assert forall|v: T::V| #[trigger] or_set::members(next).contains(v) <==> or_set::members(
        set,
    ).insert(value.deep_view()).contains(v) by {
        if or_set::members(next).contains(v) {
            let pair = choose|pair: (T::V, Seq<char>)| next.pairs.contains(pair) && pair.0 == v;
            if v != value.deep_view() {
                assert(set.pairs.contains(pair));
            }
        }
        if or_set::members(set).contains(v) {
            let pair = choose|pair: (T::V, Seq<char>)| set.pairs.contains(pair) && pair.0 == v;
            assert(next.pairs.contains(pair));
        }
        assert(next.pairs.contains((value.deep_view(), token)));
    }
    assert(or_set::members(next) =~= or_set::members(set).insert(value.deep_view()));
}

/// No token stands for two elements.
pub open spec fn tokens_unique<T: DeepView>(set: SetView<T>) -> bool {
    forall|a: (T::V, Seq<char>), b: (T::V, Seq<char>)| #[trigger]
        set.pairs.contains(a) && #[trigger] set.pairs.contains(b) && a.1 == b.1 ==> a.0 == b.0
}

/// An element that is removed is no longer in the set, and all others still are.
pub proof fn law_removed_is_gone<T: DeepView>(set: SetView<T>, element: T::V)
    requires
        tokens_unique(set),
    ensures
        or_set::members(
            or_set::after(set, SetOpView::Remove { tokens: or_set::tokens_of(set, element) }),
        ) == or_set::members(set).remove(element),
{
    let gone = or_set::tokens_of(set, element);
    let next = or_set::after(set, SetOpView::Remove { tokens: gone });
    assert forall|v: T::V| #[trigger] or_set::members(next).contains(v) <==> or_set::members(
        set,
    ).remove(element).contains(v) by {
        if or_set::members(next).contains(v) {
            let pair = choose|pair: (T::V, Seq<char>)| next.pairs.contains(pair) && pair.0 == v;
            assert(set.pairs.contains(pair));
            assert(!gone.contains(pair.1));
            assert(pair == (pair.0, pair.1));
        }
        if or_set::members(set).remove(element).contains(v) {
            let pair = choose|pair: (T::V, Seq<char>)| set.pairs.contains(pair) && pair.0 == v;
            if gone.contains(pair.1) {
                assert(set.pairs.contains((element, pair.1)));
            }
            assert(next.pairs.contains(pair));
        }
    }
    assert(or_set::members(next) =~= or_set::members(set).remove(element));
}

/// The set after the operations `ops`.
pub open spec fn replay<T: DeepView>(ops: Seq<SetOpView<T>>) -> SetView<T>
    decreases ops.len(),
{
    if ops.len() == 0 {
        or_set::empty_set()
    } else {
        or_set::after(replay(ops.drop_last()), ops.last())
    }
}

/// The operation at position `i` takes away `token`.
pub open spec fn removes_at<T: DeepView>(ops: Seq<SetOpView<T>>, i: int, token: Seq<char>) -> bool {
    0 <= i < ops.len() && removes(ops[i], token)
}

/// Some operation takes away `token`.
pub open spec fn some_removes<T: DeepView>(ops: Seq<SetOpView<T>>, token: Seq<char>) -> bool {
    exists|i: int| removes_at(ops, i, token)
}

/// `op` puts the element of `pair` into the set under its token.
pub open spec fn adds<T: DeepView>(op: SetOpView<T>, pair: (T::V, Seq<char>)) -> bool {
    op matches SetOpView::Add { value, token } && (value.deep_view(), token) == pair
}

/// The operation at position `i` puts in `pair`.
pub open spec fn adds_at<T: DeepView>(
    ops: Seq<SetOpView<T>>,
    i: int,
    pair: (T::V, Seq<char>),
) -> bool {
    0 <= i < ops.len() && adds(ops[i], pair)
}

/// Some operation puts in `pair`.
pub open spec fn some_adds<T: DeepView>(
    ops: Seq<SetOpView<T>>,
    pair: (T::V, Seq<char>),
) -> bool {
    exists|i: int| adds_at(ops, i, pair)
}

/// What is in the set: every pair that was added under a token that was not taken away,
/// be it before or after.
pub proof fn law_unremoved_additions_remain<T: DeepView>(ops: Seq<SetOpView<T>>)
    ensures
        forall|pair: (T::V, Seq<char>)| #[trigger]
            replay(ops).pairs.contains(pair) <==> some_adds(ops, pair) && !some_removes(
                ops,
                pair.1,
            ),
        forall|token: Seq<char>| #[trigger]
            replay(ops).gone.contains(token) <==> some_removes(ops, token),
        replay(ops).well_formed(),
    decreases ops.len(),
{
    if ops.len() == 0 {
        assert forall|token: Seq<char>| !some_removes(ops, token) by {}
        assert forall|pair: (T::V, Seq<char>)| !some_adds(ops, pair) by {}
    } else {
        let front = ops.drop_last();
        let n = ops.len() - 1;
        let op = ops.last();
        law_unremoved_additions_remain(front);
        assert forall|token: Seq<char>| #[trigger] some_removes(ops, token) <==> some_removes(
            front,
            token,
        ) || removes(op, token) by {
            if some_removes(ops, token) {
                let i = choose|i: int| removes_at(ops, i, token);
                if i < n {
                    assert(removes_at(front, i, token));
                }
            }
            if some_removes(front, token) {
                let i = choose|i: int| removes_at(front, i, token);
                assert(removes_at(ops, i, token));
            }
            if removes(op, token) {
                assert(removes_at(ops, n, token));
            }
        }
        assert forall|pair: (T::V, Seq<char>)| #[trigger] some_adds(ops, pair) <==> some_adds(
            front,
            pair,
        ) || adds(op, pair) by {
            if some_adds(ops, pair) {
                let i = choose|i: int| adds_at(ops, i, pair);
                if i < n {
                    assert(adds_at(front, i, pair));
                }
            }
            if some_adds(front, pair) {
                let i = choose|i: int| adds_at(front, i, pair);
                assert(adds_at(ops, i, pair));
            }
            if adds(op, pair) {
                assert(adds_at(ops, n, pair));
            }
        }
        assert forall|token: Seq<char>| #[trigger] replay(ops).gone.contains(token)
            <==> some_removes(ops, token) by {
            assert(replay(front).gone.contains(token) <==> some_removes(front, token));
        }
        assert forall|pair: (T::V, Seq<char>)| #[trigger] replay(ops).pairs.contains(pair)
            <==> some_adds(ops, pair) && !some_removes(ops, pair.1) by {
            assert(replay(front).pairs.contains(pair) <==> some_adds(front, pair)
                && !some_removes(front, pair.1));
            assert(replay(front).gone.contains(pair.1) <==> some_removes(front, pair.1));
            assert(pair == (pair.0, pair.1));
        }
    }
}

proof fn lemma_some_removes<T: DeepView>(a: Seq<SetOpView<T>>, b: Seq<SetOpView<T>>, token: Seq<char>)
    requires
        forall|op: SetOpView<T>| #[trigger] a.contains(op) ==> b.contains(op),
        some_removes(a, token),
    ensures
        some_removes(b, token),
{
    let i = choose|i: int| removes_at(a, i, token);
    assert(a.contains(a[i]));
    let j = choose|j: int| 0 <= j < b.len() && b[j] == a[i];
    assert(removes_at(b, j, token));
}

proof fn lemma_some_adds<T: DeepView>(
    a: Seq<SetOpView<T>>,
    b: Seq<SetOpView<T>>,
    pair: (T::V, Seq<char>),
)
    requires
        forall|op: SetOpView<T>| #[trigger] a.contains(op) ==> b.contains(op),
        some_adds(a, pair),
    ensures
        some_adds(b, pair),
{
    let i = choose|i: int| adds_at(a, i, pair);
    assert(a.contains(a[i]));
    let j = choose|j: int| 0 <= j < b.len() && b[j] == a[i];
    assert(adds_at(b, j, pair));
}

/// Replicas that received the same operations, in whatever order and however often,
/// hold the same set.
pub proof fn law_converges<T: DeepView>(a: Seq<SetOpView<T>>, b: Seq<SetOpView<T>>)
    requires
        forall|op: SetOpView<T>| #[trigger] a.contains(op) <==> b.contains(op),
    ensures
        same_set(replay(a), replay(b)),
        or_set::members(replay(a)) == or_set::members(replay(b)),
{
    law_unremoved_additions_remain(a);
    law_unremoved_additions_remain(b);
    assert forall|op: SetOpView<T>| #[trigger] b.contains(op) implies a.contains(op) by {
        assert(a.contains(op) <==> b.contains(op));
    }
    assert forall|token: Seq<char>| #[trigger] some_removes(a, token) <==> some_removes(
        b,
        token,
    ) by {
        if some_removes(a, token) {
            lemma_some_removes(a, b, token);
        }
        if some_removes(b, token) {
            lemma_some_removes(b, a, token);
        }
    }
    assert forall|pair: (T::V, Seq<char>)| #[trigger] replay(a).pairs.contains(pair) <==> replay(
        b,
    ).pairs.contains(pair) by {
        if some_adds(a, pair) {
            lemma_some_adds(a, b, pair);
        }
        if some_adds(b, pair) {
            lemma_some_adds(b, a, pair);
        }
        assert(some_removes(a, pair.1) <==> some_removes(b, pair.1));
    }
    assert forall|token: Seq<char>| #[trigger] replay(a).gone.contains(token) <==> replay(
        b,
    ).gone.contains(token) by {
        assert(some_removes(a, token) <==> some_removes(b, token));
    }
    assert(replay(a).pairs =~= replay(b).pairs);
    assert(replay(a).gone =~= replay(b).gone);
}

/// Receiving an operation again, at any later time, has no effect.
pub proof fn law_replaying_is_safe<T: DeepView>(ops: Seq<SetOpView<T>>, i: int)
    requires
        0 <= i < ops.len(),
    ensures
        or_set::after(replay(ops), ops[i]) == replay(ops),
{
    law_unremoved_additions_remain(ops);
    let set = replay(ops);
    match ops[i] {
        SetOpView::Add { value, token } => {
            let pair = (value.deep_view(), token);
            assert(adds_at(ops, i, pair));
            assert(set.gone.contains(token) <==> some_removes(ops, token));
            assert(set.pairs.contains(pair) <==> some_adds(ops, pair) && !some_removes(
                ops,
                pair.1,
            ));
            assert(or_set::after(set, ops[i]) =~= set);
        },
        SetOpView::Remove { tokens } => {
            assert forall|token: Seq<char>| #[trigger] tokens.contains(
                token,
            ) implies set.gone.contains(token) by {
                assert(removes_at(ops, i, token));
                assert(set.gone.contains(token) <==> some_removes(ops, token));
            }
            assert(or_set::after(set, ops[i]) =~= set);
        },
    }
}

/// `value` comes with one of the operations.
pub open spec fn carried<T>(ops: Seq<SetOpView<T>>, value: T) -> bool {
    exists|token: Seq<char>| ops.contains(SetOpView::Add { value, token })
}

/// The values that stand for elements came with the operations.
pub proof fn law_values_come_from_operations<T: DeepView>(
    ops: Seq<SetOpView<T>>,
    element: T::V,
)
    requires
        replay(ops).first.contains_key(element),
    ensures
        carried(ops, replay(ops).first[element]),
        replay(ops).first[element].deep_view() == element,
    decreases ops.len(),
{
    law_unremoved_additions_remain(ops);
    let value = replay(ops).first[element];
    let front = ops.drop_last();
    if replay(front).first.contains_key(element) {
        law_values_come_from_operations(front, element);
        let token = choose|token: Seq<char>| front.contains(SetOpView::Add { value, token });
        let j = choose|j: int|
            0 <= j < front.len() && front[j] == (SetOpView::Add { value, token });
        assert(ops[j] == front[j]);
        assert(ops.contains(SetOpView::Add { value, token }));
    } else {
        let token = ops.last()->token;
        assert(ops.last() == (SetOpView::Add { value, token }));
        assert(ops.contains(SetOpView::Add { value, token }));
    }
}

/// Where equal values are the same value, replicas that received the same operations
/// show the same values.
pub proof fn law_values_converge<T: DeepView>(
    a: Seq<SetOpView<T>>,
    b: Seq<SetOpView<T>>,
    element: T::V,
)
    requires
        forall|op: SetOpView<T>| #[trigger] a.contains(op) <==> b.contains(op),
        forall|x: T, y: T| #[trigger]
            carried(a, x) && #[trigger] carried(a, y) && x.deep_view() == y.deep_view() ==> x
                == y,
        or_set::members(replay(a)).contains(element),
    ensures
        or_set::members(replay(b)).contains(element),
        replay(a).first.contains_key(element),
        replay(b).first.contains_key(element),
        replay(a).first[element] == replay(b).first[element],
{
    law_converges(a, b);
    law_unremoved_additions_remain(a);
    law_unremoved_additions_remain(b);
    let pair = choose|pair: (T::V, Seq<char>)|
        replay(a).pairs.contains(pair) && pair.0 == element;
    assert(replay(b).pairs.contains(pair));
    law_values_come_from_operations(a, element);
    law_values_come_from_operations(b, element);
    let value = replay(b).first[element];
    let token = choose|token: Seq<char>| b.contains(SetOpView::Add { value, token });
    assert(a.contains(SetOpView::Add { value, token }));
    assert(carried(a, value));
}

/// Merging is commutative, associative and idempotent, and keeps a state well formed.
pub proof fn law_merge<T: DeepView>(a: SetView<T>, b: SetView<T>, c: SetView<T>)
    ensures
        same_set(or_set::merged(a, b), or_set::merged(b, a)),
        or_set::merged(or_set::merged(a, b), c) == or_set::merged(a, or_set::merged(b, c)),
        a.well_formed() ==> or_set::merged(a, a) == a,
        or_set::merged(or_set::merged(a, b), b) == or_set::merged(a, b),
        a.well_formed() && b.well_formed() ==> or_set::merged(a, b).well_formed(),
        a.well_formed() ==> or_set::merged(or_set::empty_set(), a) == a,
        a.well_formed() ==> or_set::merged(a, or_set::empty_set()) == a,
{
    assert(or_set::merged(a, b).pairs =~= or_set::merged(b, a).pairs);
    assert(or_set::merged(a, b).gone =~= or_set::merged(b, a).gone);
    assert(or_set::merged(or_set::merged(a, b), c) =~= or_set::merged(a, or_set::merged(b, c)));
    assert(or_set::merged(or_set::merged(a, b), b) =~= or_set::merged(a, b));
    if a.well_formed() {
        assert(or_set::merged(a, a) =~= a);
        assert(or_set::merged(or_set::empty_set(), a) =~= a);
        assert(or_set::merged(a, or_set::empty_set()) =~= a);
    }
}

/// Merging is as good as receiving: a replica that received some operations and merges
/// one that received others holds what one holds that received them all.
pub proof fn law_merge_is_replay<T: DeepView>(a: Seq<SetOpView<T>>, b: Seq<SetOpView<T>>)
    ensures
        same_set(or_set::merged(replay(a), replay(b)), replay(a + b)),
    decreases b.len(),
{
    if b.len() == 0 {
        assert(a + b =~= a);
        law_unremoved_additions_remain(a);
        law_merge(replay(a), or_set::empty_set(), or_set::empty_set());
    } else {
        let front = b.drop_last();
        law_merge_is_replay(a, front);
        assert((a + b).drop_last() =~= a + front);
        law_unremoved_additions_remain(a);
        law_unremoved_additions_remain(front);
        let x = or_set::merged(replay(a), or_set::after(replay(front), b.last()));
        let y = or_set::after(or_set::merged(replay(a), replay(front)), b.last());
        assert(x.pairs =~= y.pairs);
        assert(x.gone =~= y.gone);
    }
}

// ── What each operation does ─────────────────────────────────────────────────

/// What is in a set: the elements with a token, and only they; a new set has none.
pub proof fn law_members_have_a_token<T: DeepView>(
    set: SetView<T>,
    element: T::V,
    token: Seq<char>,
)
    ensures
        or_set::members(set).contains(element) <==> exists|t: Seq<char>| #[trigger]
            set.pairs.contains((element, t)),
        or_set::tokens_of(set, element).contains(token) <==> set.pairs.contains((element, token)),
        !or_set::empty_set::<T>().pairs.contains((element, token)),
        !or_set::empty_set::<T>().gone.contains(token),
        !or_set::empty_set::<T>().first.contains_key(element),
{
    if or_set::members(set).contains(element) {
        let pair = choose|pair: (T::V, Seq<char>)| set.pairs.contains(pair) && pair.0 == element;
        assert(set.pairs.contains((element, pair.1)));
    }
    if exists|t: Seq<char>| #[trigger] set.pairs.contains((element, t)) {
        let t = choose|t: Seq<char>| #[trigger] set.pairs.contains((element, t));
        assert(set.pairs.contains((element, t)));
    }
}

/// An addition puts in its element under its token and nothing else, and takes nothing
/// away; under a token that was removed it does nothing.
pub proof fn law_addition_puts_in_one_pair<T: DeepView>(
    set: SetView<T>,
    value: T,
    token: Seq<char>,
    element: T::V,
    other: Seq<char>,
)
    ensures
        ({
            let next = or_set::after(set, SetOpView::Add { value, token });
            &&& set.gone.contains(token) ==> next == set
            &&& !set.gone.contains(token) ==> {
                &&& next.pairs.contains((element, other)) <==> set.pairs.contains(
                    (element, other),
                ) || (element == value.deep_view() && other == token)
                &&& next.first.contains_key(element) <==> set.first.contains_key(element)
                    || element == value.deep_view()
                &&& set.first.contains_key(element) ==> next.first[element] == set.first[element]
                &&& !set.first.contains_key(value.deep_view()) ==> next.first[value.deep_view()]
                    == value
            }
            &&& next.gone == set.gone
        }),
{
}

/// A removal takes away the pairs with its tokens and nothing else, puts nothing in, and
/// its tokens are remembered.
pub proof fn law_removal_takes_away_its_tokens<T: DeepView>(
    set: SetView<T>,
    tokens: Set<Seq<char>>,
    element: T::V,
    token: Seq<char>,
)
    ensures
        ({
            let next = or_set::after(set, SetOpView::Remove { tokens });
            &&& next.pairs.contains((element, token)) <==> set.pairs.contains((element, token))
                && !tokens.contains(token)
            &&& next.gone.contains(token) <==> set.gone.contains(token) || tokens.contains(token)
            &&& next.first == set.first
        }),
{
}

/// A merged set holds what either holds, unless its token was removed at one of them, and
/// remembers what was removed at either.  Its own values stay.
pub proof fn law_merge_unites<T: DeepView>(
    a: SetView<T>,
    b: SetView<T>,
    element: T::V,
    token: Seq<char>,
)
    ensures
        ({
            let m = or_set::merged(a, b);
            &&& m.pairs.contains((element, token)) <==> (a.pairs.contains((element, token))
                || b.pairs.contains((element, token))) && !a.gone.contains(token)
                && !b.gone.contains(token)
            &&& m.gone.contains(token) <==> a.gone.contains(token) || b.gone.contains(token)
            &&& m.first.contains_key(element) <==> a.first.contains_key(element)
                || b.first.contains_key(element)
            &&& a.first.contains_key(element) ==> m.first[element] == a.first[element]
            &&& !a.first.contains_key(element) && b.first.contains_key(element)
                ==> m.first[element] == b.first[element]
        }),
{
}

/// Letting a value stand for its element puts none in the place of another.
pub proof fn law_noted_values_replace_none<T: DeepView>(
    first: Map<T::V, T>,
    value: T,
    element: T::V,
)
    ensures
        ({
            let next = or_set::noted(first, value);
            &&& next.contains_key(element) <==> first.contains_key(element) || element
                == value.deep_view()
            &&& first.contains_key(element) ==> next[element] == first[element]
            &&& !first.contains_key(value.deep_view()) ==> next[value.deep_view()] == value
        }),
{
}

/// Items are seen as the elements that they stand for, one for one.
pub proof fn law_items_one_for_one<T: DeepView>(set: SetView<T>, items: Seq<&T>, i: int)
    ensures
        or_set::seen(items).len() == items.len(),
        0 <= i < items.len() ==> or_set::seen(items)[i] == items[i].deep_view(),
        or_set::stand_in(set, items) && 0 <= i < items.len() ==> set.first.contains_key(
            items[i].deep_view(),
        ) && set.first[items[i].deep_view()] == *items[i],
{
}

/// Clones that fill up the values of a set keep its own, and stand for all the elements of
/// either and no others.
pub proof fn law_noted_clones<T: Clone + DeepView>(
    own: Map<T::V, T>,
    other: Map<T::V, T>,
    next: Map<T::V, T>,
    element: T::V,
)
    requires
        or_set::noted_clones(own, other, next),
    ensures
        next.contains_key(element) <==> own.contains_key(element) || other.contains_key(element),
        own.contains_key(element) ==> next[element] == own[element],
        !own.contains_key(element) && other.contains_key(element) ==> cloned(
            other[element],
            next[element],
        ),
{
    assert(next.dom().contains(element) <==> own.dom().union(other.dom()).contains(element));
}

/// Operations are seen as they are: an addition as its value and its token, a removal as
/// its tokens.
pub proof fn law_operations_are_seen_as_they_are<T>(op: ORSetOp<T>, text: Seq<char>)
    ensures
        match op {
            ORSetOp::Add { value, token } => op@ == (SetOpView::Add { value, token: token@ }),
            ORSetOp::Remove { tokens } => op@ is Remove && (op@->tokens.contains(text)
                <==> exists|i: int| 0 <= i < tokens@.len() && (#[trigger] tokens@[i])@ == text),
        },
{
    if let ORSetOp::Remove { tokens } = op {
        let texts = or_set::token_texts(tokens@);
        if texts.contains(text) {
            let i = choose|i: int| 0 <= i < texts.len() && texts[i] == text;
            assert(tokens@[i]@ == text);
        }
        if exists|i: int| 0 <= i < tokens@.len() && (#[trigger] tokens@[i])@ == text {
            let i = choose|i: int| 0 <= i < tokens@.len() && (#[trigger] tokens@[i])@ == text;
            assert(texts[i] == text);
        }
    }
}

} // verus!
