//! Laws of the last-writer-wins register.

use crate::lex;
use crate::lww_register;
use crate::lww_register::WriteView;
use crate::text;
use crate::text_laws;
use vstd::prelude::*;

verus! {

/// Two writes with the same time by the same node are the same write.
pub open spec fn compatible<T>(a: WriteView<T>, b: WriteView<T>) -> bool {
    a.timestamp == b.timestamp && a.node == b.node ==> a == b
}

/// As [`compatible`], for what two registers hold.
pub open spec fn compatible_states<T>(
    a: Option<WriteView<T>>,
    b: Option<WriteView<T>>,
) -> bool {
    a is Some && b is Some ==> compatible(a->0, b->0)
}

/// Losing is a strict order of writes, in which any two with different stamps are
/// comparable.
pub proof fn lemma_loses<T>(a: WriteView<T>, b: WriteView<T>, c: WriteView<T>)
    ensures
        !lww_register::loses(a, a),
        lww_register::loses(a, b) ==> !lww_register::loses(b, a),
        lww_register::loses(a, b) && lww_register::loses(b, c) ==> lww_register::loses(a, c),
        lww_register::loses(a, b) || lww_register::loses(b, a) || (a.timestamp == b.timestamp
            && a.node == b.node),
{
    text::lemma_text_order(a.node, b.node);
    text::lemma_text_order(b.node, a.node);
    text::lemma_char_order_total();
    if text::text_lt(a.node, b.node) && text::text_lt(b.node, c.node) {
        lex::lemma_lex_transitive(text::char_order(), a.node, b.node, c.node);
    }
}

/// Applying a write a second time changes nothing.
pub proof fn law_apply_idempotent<T>(state: Option<WriteView<T>>, op: WriteView<T>)
    ensures
        lww_register::written(lww_register::written(state, op), op) == lww_register::written(
            state,
            op,
        ),
{
    lemma_loses(op, op, op);
}

/// Two writes have the same effect in either order, unless they carry the same
/// stamp and different values.
pub proof fn law_apply_commutative<T>(
    state: Option<WriteView<T>>,
    a: WriteView<T>,
    b: WriteView<T>,
)
    requires
        compatible(a, b),
    ensures
        lww_register::written(lww_register::written(state, a), b) == lww_register::written(
            lww_register::written(state, b),
            a,
        ),
{
    lemma_loses(a, b, a);
    if let Some(held) = state {
        lemma_loses(held, a, b);
        lemma_loses(held, b, a);
        lemma_loses(a, held, b);
        lemma_loses(b, held, a);
        lemma_loses(a, b, held);
        lemma_loses(b, a, held);
    }
}

/// What a register holds after the writes `ops`.
pub open spec fn replay<T>(ops: Seq<WriteView<T>>) -> Option<WriteView<T>>
    decreases ops.len(),
{
    if ops.len() == 0 {
        None
    } else {
        lww_register::written(replay(ops.drop_last()), ops.last())
    }
}

/// Any two writes of a node at the same time are the same write.
pub open spec fn all_compatible<T>(ops: Seq<WriteView<T>>) -> bool {
    forall|i: int, j: int|
        0 <= i < ops.len() && 0 <= j < ops.len() ==> compatible(
            #[trigger] ops[i],
            #[trigger] ops[j],
        )
}

/// A register that was written holds one of its writes, and no write beats it.
pub proof fn law_last_writer_wins<T>(ops: Seq<WriteView<T>>)
    ensures
        replay(ops) is None <==> ops.len() == 0,
        replay(ops) matches Some(held) ==> ops.contains(held) && forall|i: int|
            0 <= i < ops.len() ==> !lww_register::loses(held, #[trigger] ops[i]),
    decreases ops.len(),
{
    if ops.len() > 0 {
        let front = ops.drop_last();
        let op = ops.last();
        law_last_writer_wins(front);
        assert(ops[ops.len() - 1] == op);
        let held = replay(ops)->0;
        if let Some(before) = replay(front) {
            let k = choose|k: int| 0 <= k < front.len() && front[k] == before;
            assert(ops[k] == before);
            lemma_loses(before, op, op);
            lemma_loses(op, op, op);
            assert forall|i: int| 0 <= i < ops.len() implies !lww_register::loses(
                held,
                #[trigger] ops[i],
            ) by {
                if i < front.len() {
                    assert(front[i] == ops[i]);
                    assert(!lww_register::loses(before, front[i]));
                    lemma_loses(before, op, ops[i]);
                    lemma_loses(op, ops[i], op);
                    lemma_loses(before, ops[i], op);
                }
            }
        } else {
            lemma_loses(op, op, op);
        }
    }
}

/// Registers that received the same writes, in whatever order and however often,
/// hold the same write.
pub proof fn law_converges<T>(a: Seq<WriteView<T>>, b: Seq<WriteView<T>>)
    requires
        all_compatible(a),
        forall|op: WriteView<T>| #[trigger] a.contains(op) <==> b.contains(op),
    ensures
        replay(a) == replay(b),
{
    law_last_writer_wins(a);
    law_last_writer_wins(b);
    if a.len() > 0 {
        assert(a.contains(a[0]));
        assert(b.contains(a[0]));
    }
    if b.len() > 0 {
        assert(b.contains(b[0]));
        assert(a.contains(b[0]));
    }
    if a.len() > 0 {
        let x = replay(a)->0;
        let y = replay(b)->0;
        assert(a.contains(x) <==> b.contains(x));
        assert(a.contains(y) <==> b.contains(y));
        let i = choose|i: int| 0 <= i < b.len() && b[i] == x;
        let j = choose|j: int| 0 <= j < a.len() && a[j] == y;
        let k = choose|k: int| 0 <= k < a.len() && a[k] == x;
        assert(!lww_register::loses(y, b[i]));
        assert(!lww_register::loses(x, a[j]));
        lemma_loses(x, y, x);
        assert(compatible(a[k], a[j]));
    }
}

/// Merging is commutative, for registers that do not hold different values under
/// the same stamp.
pub proof fn law_merge_commutative<T>(a: Option<WriteView<T>>, b: Option<WriteView<T>>)
    requires
        compatible_states(a, b),
    ensures
        lww_register::joined(a, b) == lww_register::joined(b, a),
{
    if a is Some && b is Some {
        lemma_loses(a->0, b->0, a->0);
    }
}

/// Merging is associative.
pub proof fn law_merge_associative<T>(
    a: Option<WriteView<T>>,
    b: Option<WriteView<T>>,
    c: Option<WriteView<T>>,
)
    ensures
        lww_register::joined(lww_register::joined(a, b), c) == lww_register::joined(
            a,
            lww_register::joined(b, c),
        ),
{
    if a is Some && b is Some && c is Some {
        let (x, y, z) = (a->0, b->0, c->0);
        lemma_loses(x, y, z);
        lemma_loses(y, z, x);
        lemma_loses(x, z, y);
        lemma_loses(z, x, y);
        lemma_loses(y, x, z);
        lemma_loses(z, y, x);
        text::lemma_text_order(x.node, y.node);
        text::lemma_text_order(y.node, z.node);
        text::lemma_text_order(x.node, z.node);
    }
}

/// Merging is idempotent.
pub proof fn law_merge_idempotent<T>(a: Option<WriteView<T>>, b: Option<WriteView<T>>)
    ensures
        lww_register::joined(a, a) == a,
        lww_register::joined(lww_register::joined(a, b), b) == lww_register::joined(a, b),
{
    if a is Some {
        lemma_loses(a->0, a->0, a->0);
    }
    if b is Some {
        lemma_loses(b->0, b->0, b->0);
    }
}

/// Merging a register is receiving all of its writes.
pub proof fn law_merge_is_replay<T>(a: Seq<WriteView<T>>, b: Seq<WriteView<T>>)
    ensures
        lww_register::joined(replay(a), replay(b)) == replay(a + b),
    decreases b.len(),
{
    if b.len() == 0 {
        assert(a + b =~= a);
    } else {
        let front = b.drop_last();
        let op = b.last();
        assert((a + b).drop_last() =~= a + front);
        law_merge_is_replay(a, front);
        law_merge_associative(replay(a), replay(front), Some(op));
        assert(lww_register::joined(replay(front), Some(op)) == replay(b));
    }
}

/// Of two writes the one with the later time wins, whichever comes first.
pub proof fn law_later_write_wins<T>(a: WriteView<T>, b: WriteView<T>)
    requires
        a.timestamp < b.timestamp,
    ensures
        lww_register::written(Some(a), b) == Some(b),
        lww_register::written(Some(b), a) == Some(b),
        lww_register::accepts(Some(a), b),
        !lww_register::accepts(Some(b), a),
{
}

/// Of two writes at the same time the one wins whose node comes later in dictionary
/// order: by the first character in which the names differ, and a longer name over its
/// beginning.
pub proof fn law_later_name_wins_a_tie<T>(
    a: WriteView<T>,
    b: WriteView<T>,
    front: Seq<char>,
    x: char,
    y: char,
    s: Seq<char>,
    t: Seq<char>,
)
    requires
        a.timestamp == b.timestamp,
        a.node == front || a.node == front + seq![x] + s && (x as u32) < (y as u32),
        b.node == front + seq![y] + t,
    ensures
        lww_register::written(Some(a), b) == Some(b),
        lww_register::written(Some(b), a) == Some(b),
        lww_register::accepts(Some(a), b),
        !lww_register::accepts(Some(b), a),
{
    text_laws::law_dictionary_order(front, x, y, s, t);
}

/// A register that was never written takes any write, and a write under the stamp of the
/// one it holds leaves it as it is.
pub proof fn law_first_write_is_taken<T>(a: WriteView<T>, b: WriteView<T>)
    ensures
        lww_register::written(None, a) == Some(a),
        lww_register::accepts(None, a),
        a.timestamp == b.timestamp && a.node == b.node ==> lww_register::written(Some(a), b)
            == Some(a) && !lww_register::accepts(Some(a), b),
{
    text::lemma_text_order(a.node, b.node);
}

/// Merging is receiving the write that the other register holds, if it holds one.
pub proof fn law_merge_receives_what_is_held<T>(
    state: Option<WriteView<T>>,
    op: WriteView<T>,
)
    ensures
        lww_register::joined(state, None) == state,
        lww_register::joined(state, Some(op)) == lww_register::written(state, op),
        lww_register::joined(None, Some(op)) == Some(op),
{
}

/// A clone of a write has its time and its node, and a clone of its value.
pub proof fn law_clones_keep_the_stamp<T: Clone>(
    a: WriteView<T>,
    b: WriteView<T>,
    x: Option<WriteView<T>>,
    y: Option<WriteView<T>>,
)
    ensures
        lww_register::cloned_write(a, b) <==> b.timestamp == a.timestamp && b.node == a.node
            && cloned(a.value, b.value),
        lww_register::cloned_state(x, y) ==> (x is Some <==> y is Some),
        lww_register::cloned_state(x, y) && x is Some ==> y->0.timestamp == x->0.timestamp
            && y->0.node == x->0.node && cloned(x->0.value, y->0.value),
{
}

} // verus!
