//! Lexicographic order on sequences.
//!
//! Two orders of this crate compare sequences element by element: the order of
//! node identifiers (sequences of characters) and the order of list elements
//! (sequences of identifiers on the way from the front of the list).  Both are
//! instances of [`lex_lt`], and the facts about it are proved once, here.

use vstd::prelude::*;

verus! {

/// `a` and `b` agree on their first `k` elements, and there either `a` ends
/// (and `b` goes on) or the element of `a` is the smaller one.
pub open spec fn lex_split<A>(lt: spec_fn(A, A) -> bool, a: Seq<A>, b: Seq<A>, k: int) -> bool {
    &&& 0 <= k <= a.len()
    &&& k < b.len()
    &&& forall|i: int| 0 <= i < k ==> a[i] == b[i]
    &&& k == a.len() || lt(a[k], b[k])
}

/// `a` comes before `b` in the lexicographic order over `lt`.
pub open spec fn lex_lt<A>(lt: spec_fn(A, A) -> bool, a: Seq<A>, b: Seq<A>) -> bool {
    exists|k: int| lex_split(lt, a, b, k)
}

/// `lt` is a strict order in which any two different elements are comparable.
pub open spec fn strict_total<A>(lt: spec_fn(A, A) -> bool) -> bool {
    &&& forall|x: A| !#[trigger] lt(x, x)
    &&& forall|x: A, y: A, z: A| #[trigger] lt(x, y) && #[trigger] lt(y, z) ==> lt(x, z)
    &&& forall|x: A, y: A| x == y || #[trigger] lt(x, y) || lt(y, x)
}

/// Nothing comes before itself.
pub proof fn lemma_lex_irreflexive<A>(lt: spec_fn(A, A) -> bool, a: Seq<A>)
    requires
        strict_total(lt),
    ensures
        !lex_lt(lt, a, a),
{
}

/// The order is transitive.
pub proof fn lemma_lex_transitive<A>(
    lt: spec_fn(A, A) -> bool,
    a: Seq<A>,
    b: Seq<A>,
    c: Seq<A>,
)
    requires
        strict_total(lt),
        lex_lt(lt, a, b),
        lex_lt(lt, b, c),
    ensures
        lex_lt(lt, a, c),
{
    let j = choose|k: int| lex_split(lt, a, b, k);
    let k = choose|k: int| lex_split(lt, b, c, k);
    let m = if j < k {
        j
    } else {
        k
    };
    assert(lex_split(lt, a, c, m));
}

/// No two sequences come before each other.
pub proof fn lemma_lex_asymmetric<A>(lt: spec_fn(A, A) -> bool, a: Seq<A>, b: Seq<A>)
    requires
        strict_total(lt),
        lex_lt(lt, a, b),
    ensures
        !lex_lt(lt, b, a),
{
    if lex_lt(lt, b, a) {
        lemma_lex_transitive(lt, a, b, a);
        lemma_lex_irreflexive(lt, a);
    }
}

/// Of two different sequences one comes before the other.
pub proof fn lemma_lex_total<A>(lt: spec_fn(A, A) -> bool, a: Seq<A>, b: Seq<A>)
    requires
        strict_total(lt),
        a != b,
    ensures
        lex_lt(lt, a, b) || lex_lt(lt, b, a),
{
    lemma_first_difference(lt, a, b, 0);
}

proof fn lemma_first_difference<A>(lt: spec_fn(A, A) -> bool, a: Seq<A>, b: Seq<A>, k: int)
    requires
        strict_total(lt),
        a != b,
        0 <= k <= a.len(),
        k <= b.len(),
        forall|i: int| 0 <= i < k ==> a[i] == b[i],
    ensures
        lex_lt(lt, a, b) || lex_lt(lt, b, a),
    decreases a.len() - k,
{
    if k == a.len() {
        if k == b.len() {
            assert(a =~= b);
        } else {
            assert(lex_split(lt, a, b, k));
        }
    } else if k == b.len() {
        assert(lex_split(lt, b, a, k));
    } else if a[k] == b[k] {
        lemma_first_difference(lt, a, b, k + 1);
    } else if lt(a[k], b[k]) {
        assert(lex_split(lt, a, b, k));
    } else {
        assert(lex_split(lt, b, a, k));
    }
}

} // verus!
