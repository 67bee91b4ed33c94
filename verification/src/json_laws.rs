//! Laws of JSON values: when two are equal, and how arrays are written.

use crate::json;
use crate::json::JsonError;
use crate::json::JsonValue;
use crate::json::Place;
use crate::wasm;
use vstd::prelude::*;

verus! {

// ── Equality ─────────────────────────────────────────────────────────────────

/// Two values are equal if their texts are the same once the signs of zeros are dropped.
pub proof fn law_values_are_compared_by_text(a: JsonValue, b: JsonValue)
    ensures
        a.deep_view() == json::unsigned(a@),
        vstd::std_specs::cmp::PartialEqSpec::eq_spec(&a, &b) <==> json::unsigned(a@)
            == json::unsigned(b@),
{
}

/// Texts in which the characters `-0.0` do not occur are equal only if they are the same.
pub proof fn law_texts_without_negative_zeros_are_kept(a: Seq<char>, b: Seq<char>)
    requires
        forall|i: int|
            0 <= i <= a.len() - 4 && #[trigger] a[i] == '-' ==> !(a[i + 1] == '0' && a[i + 2]
                == '.' && a[i + 3] == '0'),
        forall|i: int|
            0 <= i <= b.len() - 4 && #[trigger] b[i] == '-' ==> !(b[i + 1] == '0' && b[i + 2]
                == '.' && b[i + 3] == '0'),
    ensures
        json::unsigned(a) == a,
        json::unsigned(a) == json::unsigned(b) <==> a == b,
{
    lemma_kept_to(a, a.len() as int);
    lemma_kept_to(b, b.len() as int);
    assert(a.take(a.len() as int) =~= a);
    assert(b.take(b.len() as int) =~= b);
}

proof fn lemma_kept_to(text: Seq<char>, n: int)
    requires
        forall|i: int|
            0 <= i <= text.len() - 4 && #[trigger] text[i] == '-' ==> !(text[i + 1] == '0'
                && text[i + 2] == '.' && text[i + 3] == '0'),
        0 <= n <= text.len(),
    ensures
        json::unsigned_to(text, n) == text.take(n),
    decreases n,
{
    if n > 0 {
        lemma_kept_to(text, n - 1);
        assert(text.take(n) =~= text.take(n - 1).push(text[n - 1]));
    } else {
        assert(text.take(0) =~= Seq::empty());
    }
}

/// What follows a piece of text outside strings is read as if it stood alone.
proof fn lemma_place_shift(front: Seq<char>, rest: Seq<char>, k: int)
    requires
        json::place(front, front.len() as int) == Place::Plain,
        0 <= k <= rest.len(),
    ensures
        json::place(front + rest, front.len() + k) == json::place(rest, k),
    decreases k,
{
    if k == 0 {
        lemma_place_prefix(front, rest, front.len() as int);
    } else {
        lemma_place_shift(front, rest, k - 1);
        assert((front + rest)[front.len() + k - 1] == rest[k - 1]);
    }
}

proof fn lemma_place_prefix(front: Seq<char>, rest: Seq<char>, k: int)
    requires
        0 <= k <= front.len(),
    ensures
        json::place(front + rest, k) == json::place(front, k),
    decreases k,
{
    if k > 0 {
        lemma_place_prefix(front, rest, k - 1);
        assert((front + rest)[k - 1] == front[k - 1]);
    }
}

proof fn lemma_zero_shift(front: Seq<char>, rest: Seq<char>, k: int)
    requires
        json::place(front, front.len() as int) == Place::Plain,
        0 <= k < rest.len(),
    ensures
        json::negative_zero(front + rest, front.len() + k) == json::negative_zero(rest, k),
{
    lemma_place_shift(front, rest, k);
    let all = front + rest;
    let n = front.len() as int;
    assert forall|j: int| 0 <= j < rest.len() implies all[n + j] == rest[j] by {}
    if k <= rest.len() - 4 {
        assert(all[n + k] == rest[k]);
        assert(all[n + k + 1] == rest[k + 1]);
        assert(all[n + k + 2] == rest[k + 2]);
        assert(all[n + k + 3] == rest[k + 3]);
        if k + 4 < rest.len() {
            assert(all[n + k + 4] == rest[k + 4]);
        }
    }
}

/// The text behind a piece that ends outside strings is treated as if it stood alone.
proof fn lemma_unsigned_shift(front: Seq<char>, rest: Seq<char>, kept: Seq<char>, k: int)
    requires
        json::place(front, front.len() as int) == Place::Plain,
        json::unsigned_to(front + rest, front.len() as int) == kept,
        0 <= k <= rest.len(),
    ensures
        json::unsigned_to(front + rest, front.len() + k) == kept + json::unsigned_to(rest, k),
    decreases k,
{
    if k > 0 {
        lemma_unsigned_shift(front, rest, kept, k - 1);
        lemma_zero_shift(front, rest, k - 1);
        assert((front + rest)[front.len() + k - 1] == rest[k - 1]);
        assert(kept + json::unsigned_to(rest, k - 1).push(rest[k - 1]) =~= (kept
            + json::unsigned_to(rest, k - 1)).push(rest[k - 1]));
    } else {
        assert(kept + json::unsigned_to(rest, 0) =~= kept);
    }
}

/// A character outside strings that is neither a quote nor a minus sign is kept, and what
/// follows it is treated as if it stood alone.
pub proof fn law_plain_characters_are_kept(c: char, rest: Seq<char>)
    requires
        c != '"',
        c != '-',
    ensures
        json::unsigned(seq![c] + rest) == seq![c] + json::unsigned(rest),
        json::unsigned(Seq::empty()) == Seq::<char>::empty(),
{
    lemma_one_character(c, rest);
}

/// A minus sign that does not begin the number `-0.0` is kept.
pub proof fn law_other_minus_signs_are_kept(rest: Seq<char>)
    requires
        rest.len() < 3 || !(rest[0] == '0' && rest[1] == '.' && rest[2] == '0') || (rest.len() > 3
            && ('0' <= rest[3] <= '9' || rest[3] == 'e' || rest[3] == 'E')),
    ensures
        json::unsigned(seq!['-'] + rest) == seq!['-'] + json::unsigned(rest),
{
    let all = seq!['-'] + rest;
    if rest.len() >= 3 {
        assert(all[1] == rest[0]);
        assert(all[2] == rest[1]);
        assert(all[3] == rest[2]);
        if rest.len() > 3 {
            assert(all[4] == rest[3]);
        }
    }
    lemma_one_character('-', rest);
}

proof fn lemma_one_character(c: char, rest: Seq<char>)
    requires
        c != '"',
        !json::negative_zero(seq![c] + rest, 0),
    ensures
        json::unsigned(seq![c] + rest) == seq![c] + json::unsigned(rest),
{
    let front = seq![c];
    let all = front + rest;
    assert(json::place(front, 0) == Place::Plain);
    assert(front[0] == c);
    assert(json::place(front, 1) == json::behind(json::place(front, 0), front[0]));
    assert(all[0] == c);
    assert(json::unsigned_to(all, 0) == Seq::<char>::empty());
    assert(json::unsigned_to(all, 1) =~= seq![c]);
    lemma_unsigned_shift(front, rest, seq![c], rest.len() as int);
}

/// Of the number `-0.0` the sign is dropped, and nothing else.
pub proof fn law_sign_of_zero_is_dropped(rest: Seq<char>)
    requires
        rest.len() > 0 ==> !('0' <= rest[0] <= '9') && rest[0] != 'e' && rest[0] != 'E',
    ensures
        json::unsigned(seq!['-', '0', '.', '0'] + rest) == seq!['0', '.', '0'] + json::unsigned(
            rest,
        ),
        json::unsigned(seq!['-', '0', '.', '0'] + rest) == json::unsigned(
            seq!['0', '.', '0'] + rest,
        ),
{
    let front = seq!['-', '0', '.', '0'];
    let all = front + rest;
    assert(all[0] == '-');
    assert(all[1] == '0');
    assert(all[2] == '.');
    assert(all[3] == '0');
    if rest.len() > 0 {
        assert(all[4] == rest[0]);
    }
    assert(json::place(front, 0) == Place::Plain);
    assert(json::place(front, 1) == Place::Plain);
    assert(json::place(front, 2) == Place::Plain);
    assert(json::place(front, 3) == Place::Plain);
    assert(json::place(front, 4) == Place::Plain);
    assert(json::place(all, 0) == Place::Plain);
    assert(json::negative_zero(all, 0));
    assert(json::unsigned_to(all, 0) == Seq::<char>::empty());
    assert(json::unsigned_to(all, 1) == Seq::<char>::empty());
    assert(json::unsigned_to(all, 2) =~= seq!['0']);
    assert(json::unsigned_to(all, 3) =~= seq!['0', '.']);
    assert(json::unsigned_to(all, 4) =~= seq!['0', '.', '0']);
    lemma_unsigned_shift(front, rest, seq!['0', '.', '0'], rest.len() as int);
    law_plain_characters_are_kept('0', rest);
    law_plain_characters_are_kept('.', seq!['0'] + rest);
    law_plain_characters_are_kept('0', seq!['.'] + (seq!['0'] + rest));
    assert(seq!['0', '.', '0'] + rest =~= seq!['0'] + (seq!['.'] + (seq!['0'] + rest)));
    assert(seq!['0'] + (seq!['.'] + (seq!['0'] + json::unsigned(rest))) =~= seq!['0', '.', '0']
        + json::unsigned(rest));
}

/// A string is kept as it is, whatever stands in it, and what follows it is treated as if
/// it stood alone.
///
/// `escaped` are the positions that stand behind a backslash which is not escaped itself.
pub proof fn law_strings_are_kept(string: Seq<char>, escaped: Set<int>, rest: Seq<char>)
    requires
        string.len() >= 2,
        string[0] == '"',
        !escaped.contains(1),
        forall|i: int|
            #![trigger string[i]]
            0 < i < string.len() - 1 ==> (escaped.contains(i + 1) <==> string[i] == '\\'
                && !escaped.contains(i)),
        forall|i: int|
            0 < i < string.len() - 1 && #[trigger] string[i] == '"' ==> escaped.contains(i),
        string.last() == '"',
        !escaped.contains(string.len() - 1),
    ensures
        json::unsigned(string + rest) == string + json::unsigned(rest),
{
    let all = string + rest;
    let n = string.len() as int;
    assert(all[0] == '"');
    assert(json::place(all, 0) == Place::Plain);
    assert(json::place(all, 1) == json::behind(json::place(all, 0), all[0]));
    assert(json::unsigned_to(all, 0) == Seq::<char>::empty());
    assert(!json::negative_zero(all, 0));
    assert(json::unsigned_to(all, 1) =~= all.take(1));
    lemma_inside_string(string, escaped, rest, n - 1);
    assert(json::place(all, n) == json::behind(json::place(all, n - 1), all[n - 1]));
    assert(json::unsigned_to(all, n) == json::unsigned_to(all, n - 1).push(all[n - 1]));
    assert(all.take(n) =~= all.take(n - 1).push(all[n - 1]));
    assert(all.take(n) =~= string);
    lemma_place_prefix(string, rest, n);
    lemma_unsigned_shift(string, rest, string, rest.len() as int);
}

proof fn lemma_inside_string(
    string: Seq<char>,
    escaped: Set<int>,
    rest: Seq<char>,
    k: int,
)
    requires
        string.len() >= 2,
        string[0] == '"',
        !escaped.contains(1),
        forall|i: int|
            #![trigger string[i]]
            0 < i < string.len() - 1 ==> (escaped.contains(i + 1) <==> string[i] == '\\'
                && !escaped.contains(i)),
        forall|i: int|
            0 < i < string.len() - 1 && #[trigger] string[i] == '"' ==> escaped.contains(i),
        1 <= k < string.len(),
    ensures
        json::place(string + rest, k) == (if escaped.contains(k) {
            Place::Escaped
        } else {
            Place::Quoted
        }),
        json::unsigned_to(string + rest, k) == (string + rest).take(k),
    decreases k,
{
    let all = string + rest;
    assert(all[0] == '"');
    assert(json::place(all, 0) == Place::Plain);
    if k == 1 {
        assert(json::place(all, 1) == json::behind(json::place(all, 0), all[0]));
        assert(json::unsigned_to(all, 0) == Seq::<char>::empty());
        assert(json::unsigned_to(all, 1) =~= all.take(1));
    } else {
        lemma_inside_string(string, escaped, rest, k - 1);
        assert(all[k - 1] == string[k - 1]);
        assert(all.take(k) =~= all.take(k - 1).push(all[k - 1]));
    }
}

/// Reading goes by the name for it: a text is read as a value whose text is the form that
/// reading and writing gives, or refused with its message.
pub proof fn law_reading_is_exact(text: Seq<char>, value: JsonValue, error: JsonError)
    ensures
        wasm::read_as(text, value) <==> json::json_form(text) == Ok::<Seq<char>, Seq<char>>(
            value@,
        ),
        wasm::refused(text, error) <==> json::json_form(text) == Err::<Seq<char>, Seq<char>>(
            error.message@,
        ),
{
}

// ── Arrays ───────────────────────────────────────────────────────────────────

/// One more value at the end of an array changes its text in one place: before the closing
/// bracket come a comma, unless the array was empty, and the text of the value.
pub proof fn law_arrays_grow_at_the_end(values: Seq<&JsonValue>, value: &JsonValue)
    ensures
        json::array_text(Seq::empty()) == seq!['[', ']'],
        values.len() == 0 ==> json::array_text(values.push(value)) == seq!['['] + value@ + seq![
            ']',
        ],
        values.len() > 0 ==> json::array_text(values.push(value)) == json::array_text(
            values,
        ).drop_last() + seq![','] + value@ + seq![']'],
{
    let before = values.map_values(|v: &JsonValue| v@);
    let now = values.push(value).map_values(|v: &JsonValue| v@);
    assert(Seq::<&JsonValue>::empty().map_values(|v: &JsonValue| v@) =~= Seq::empty());
    assert(json::array_text(Seq::empty()) =~= seq!['[', ']']);
    assert(now.drop_last() =~= before);
    assert(now.last() == value@);
    if values.len() == 0 {
        assert(now[0] == value@);
    } else {
        assert(json::array_text(values).drop_last() =~= seq!['['] + json::comma_separated(
            before,
        ));
        assert(json::array_text(values.push(value)) =~= json::array_text(values).drop_last()
            + seq![','] + value@ + seq![']']);
    }
}

/// Every value stands in the text of an array at its place: behind the opening bracket,
/// the texts of the values before it and a comma for each of them.  The text is as long as
/// all the texts, the brackets and the commas.
pub proof fn law_arrays_hold_each_value_at_its_place(values: Seq<&JsonValue>, k: int)
    requires
        0 <= k < values.len(),
    ensures
        ({
            let width = |n: int, value: &JsonValue| n + value@.len();
            let text = json::array_text(values);
            let at = 1 + k + values.take(k).fold_left(0int, width);
            &&& text.len() == values.fold_left(0int, width) + values.len() + 1
            &&& 0 < at
            &&& at + values[k]@.len() < text.len()
            &&& text.subrange(at, at + values[k]@.len()) == values[k]@
            &&& text[0] == '['
            &&& text.last() == ']'
            &&& k > 0 ==> text[at - 1] == ','
        }),
    decreases values.len(),
{
    let width = |n: int, value: &JsonValue| n + value@.len();
    let front = values.drop_last();
    let last = values.last();
    let text = json::array_text(values);
    assert(front.push(last) =~= values);
    law_arrays_grow_at_the_end(front, last);
    reveal(Seq::fold_left);
    assert(values.fold_left(0int, width) == front.fold_left(0int, width) + last@.len());
    if front.len() == 0 {
        assert(front.fold_left(0int, width) == 0);
        assert(values.take(0).fold_left(0int, width) == 0);
        assert(text.subrange(1, 1 + last@.len() as int) =~= last@);
    } else {
        let before = json::array_text(front);
        law_arrays_hold_each_value_at_its_place(front, 0);
        if k == values.len() - 1 {
            assert(values.take(k) =~= front);
            let at = 1 + k + front.fold_left(0int, width);
            assert(before.len() == at);
            assert(text.subrange(at, at + last@.len() as int) =~= last@);
            assert(text[at - 1] == ',');
        } else {
            law_arrays_hold_each_value_at_its_place(front, k);
            assert(front.take(k) =~= values.take(k));
            let at = 1 + k + front.take(k).fold_left(0int, width);
            let end = at + front[k]@.len();
            assert(front[k] == values[k]);
            assert(text.subrange(at, end) =~= before.subrange(at, end));
            if k > 0 {
                assert(text[at - 1] == before[at - 1]);
            }
        }
        assert(text[0] == before[0]);
    }
}

} // verus!
