//! Laws of comparing and cutting text.

use crate::lex;
use crate::text;
use vstd::prelude::*;

verus! {

/// Dictionary order goes by the first difference: texts with the same beginning are in
/// the order of the characters behind it, and a text comes before every longer one that
/// begins with it.
pub proof fn law_dictionary_order(
    front: Seq<char>,
    x: char,
    y: char,
    s: Seq<char>,
    t: Seq<char>,
)
    ensures
        (x as u32) < (y as u32) ==> text::text_lt(front + seq![x] + s, front + seq![y] + t)
            && !text::text_lt(front + seq![y] + t, front + seq![x] + s),
        text::text_lt(front, front + seq![y] + t),
        !text::text_lt(front + seq![y] + t, front),
        !text::text_lt(front, front),
{
    let n = front.len() as int;
    let a = front + seq![x] + s;
    let b = front + seq![y] + t;
    assert forall|i: int| 0 <= i < n implies a[i] == b[i] && front[i] == b[i] by {}
    assert(a[n] == x);
    assert(b[n] == y);
    assert(lex::lex_split(text::char_order(), front, b, n));
    text::lemma_text_order(front, b);
    if (x as u32) < (y as u32) {
        assert(lex::lex_split(text::char_order(), a, b, n));
        text::lemma_text_order(a, b);
    }
}

/// Of two different texts one comes before the other, and only one; what comes before what
/// comes before a text comes before it.
pub proof fn law_dictionary_order_is_total(a: Seq<char>, b: Seq<char>, c: Seq<char>)
    ensures
        a != b ==> (text::text_lt(a, b) <==> !text::text_lt(b, a)),
        text::text_lt(a, b) && text::text_lt(b, c) ==> text::text_lt(a, c),
{
    text::lemma_text_order(a, b);
    text::lemma_char_order_total();
    if text::text_lt(a, b) && text::text_lt(b, c) {
        lex::lemma_lex_transitive(text::char_order(), a, b, c);
    }
}

/// The white space characters of Unicode.
pub proof fn law_white_space(c: char)
    ensures
        text::is_white_space(c) <==> seq![
            '\t',
            '\n',
            '\u{b}',
            '\u{c}',
            '\r',
            ' ',
            '\u{85}',
            '\u{a0}',
            '\u{1680}',
            '\u{2000}',
            '\u{2001}',
            '\u{2002}',
            '\u{2003}',
            '\u{2004}',
            '\u{2005}',
            '\u{2006}',
            '\u{2007}',
            '\u{2008}',
            '\u{2009}',
            '\u{200a}',
            '\u{2028}',
            '\u{2029}',
            '\u{202f}',
            '\u{205f}',
            '\u{3000}',
        ].contains(c),
{
    let all = seq![
        '\t',
        '\n',
        '\u{b}',
        '\u{c}',
        '\r',
        ' ',
        '\u{85}',
        '\u{a0}',
        '\u{1680}',
        '\u{2000}',
        '\u{2001}',
        '\u{2002}',
        '\u{2003}',
        '\u{2004}',
        '\u{2005}',
        '\u{2006}',
        '\u{2007}',
        '\u{2008}',
        '\u{2009}',
        '\u{200a}',
        '\u{2028}',
        '\u{2029}',
        '\u{202f}',
        '\u{205f}',
        '\u{3000}',
    ];
    if text::is_white_space(c) {
        let i: int = if c as int <= 0xd {
            c as int - 9
        } else if c == ' ' {
            5
        } else if c == '\u{85}' {
            6
        } else if c == '\u{a0}' {
            7
        } else if c == '\u{1680}' {
            8
        } else if c as int <= 0x200a {
            9 + (c as int - 0x2000)
        } else if c == '\u{2028}' {
            20
        } else if c == '\u{2029}' {
            21
        } else if c == '\u{202f}' {
            22
        } else if c == '\u{205f}' {
            23
        } else {
            24
        };
        assert(all[i] == c);
    }
    if all.contains(c) {
        let i = choose|i: int| 0 <= i < all.len() && all[i] == c;
        assert(text::is_white_space(c));
    }
}

/// Trimming takes away white space in front and at the end, all of it, and nothing else.
pub proof fn law_trimming_takes_white_space_only(
    front: Seq<char>,
    kept: Seq<char>,
    back: Seq<char>,
)
    requires
        forall|i: int| 0 <= i < front.len() ==> text::is_white_space(#[trigger] front[i]),
        forall|i: int| 0 <= i < back.len() ==> text::is_white_space(#[trigger] back[i]),
        kept.len() > 0 ==> !text::is_white_space(kept[0]) && !text::is_white_space(kept.last()),
    ensures
        text::trimmed(front + kept + back) == kept,
{
    if kept.len() > 0 {
        assert((kept + back)[0] == kept[0]);
        lemma_front(front, kept + back);
        assert(front + kept + back =~= front + (kept + back));
        lemma_back(kept, back);
    } else {
        assert(front + kept + back =~= front + back);
        let all = front + back;
        assert forall|i: int| 0 <= i < all.len() implies text::is_white_space(
            #[trigger] all[i],
        ) by {
            if i >= front.len() {
                assert(all[i] == back[i - front.len()]);
            }
        }
        lemma_front(all, Seq::empty());
        assert(all + Seq::<char>::empty() =~= all);
        assert(kept =~= Seq::empty());
    }
}

proof fn lemma_front(front: Seq<char>, rest: Seq<char>)
    requires
        forall|i: int| 0 <= i < front.len() ==> text::is_white_space(#[trigger] front[i]),
        rest.len() > 0 ==> !text::is_white_space(rest[0]),
    ensures
        text::trimmed_front(front + rest) == rest,
    decreases front.len(),
{
    let all = front + rest;
    if front.len() > 0 {
        assert(all[0] == front[0]);
        assert(all.drop_first() =~= front.drop_first() + rest);
        lemma_front(front.drop_first(), rest);
    } else {
        assert(all =~= rest);
    }
}

proof fn lemma_back(rest: Seq<char>, back: Seq<char>)
    requires
        forall|i: int| 0 <= i < back.len() ==> text::is_white_space(#[trigger] back[i]),
        rest.len() > 0 ==> !text::is_white_space(rest.last()),
    ensures
        text::trimmed_end(rest + back) == rest,
    decreases back.len(),
{
    let all = rest + back;
    if back.len() > 0 {
        assert(all.last() == back.last());
        assert(all.drop_last() =~= rest + back.drop_last());
        lemma_back(rest, back.drop_last());
    } else {
        assert(all =~= rest);
    }
}

/// A text without commas is one piece, and behind a comma a new piece begins.
pub proof fn law_commas_part_pieces(front: Seq<char>, piece: Seq<char>)
    requires
        !piece.contains(','),
    ensures
        text::comma_pieces(piece) == seq![piece],
        text::comma_pieces(front + seq![','] + piece) == text::comma_pieces(front).push(piece),
    decreases piece.len(),
{
    let all = front + seq![','] + piece;
    if piece.len() == 0 {
        assert(piece =~= Seq::empty());
        assert(all.drop_last() =~= front);
        assert(all.last() == ',');
        assert(text::comma_pieces(piece) =~= seq![piece]);
    } else {
        let less = piece.drop_last();
        assert forall|i: int| 0 <= i < less.len() implies less[i] != ',' by {
            assert(piece.contains(piece[i]));
        }
        assert(piece.contains(piece.last()));
        law_commas_part_pieces(front, less);
        assert(all.drop_last() =~= front + seq![','] + less);
        assert(all.last() == piece.last());
        assert(less.push(piece.last()) =~= piece);
        assert(text::comma_pieces(all) =~= text::comma_pieces(front).push(piece));
        assert(text::comma_pieces(piece) =~= seq![piece]);
    }
}

/// Every text has pieces, one more than commas.
pub proof fn law_one_piece_more_than_commas(s: Seq<char>)
    ensures
        text::comma_pieces(s).len() == s.filter(|c: char| c == ',').len() + 1,
    decreases s.len(),
{
    reveal(Seq::filter);
    if s.len() > 0 {
        law_one_piece_more_than_commas(s.drop_last());
    }
}

/// The digits stand for their numbers, a digit more for ten times as much and the digit.
pub proof fn law_decimal_numbers(s: Seq<char>, v: int)
    requires
        0 <= v < 10,
    ensures
        text::number(Seq::empty()) == 0,
        text::number(s.push("0123456789"@[v])) == 10 * text::number(s) + v,
{
    reveal_strlit("0123456789");
    assert(s.push("0123456789"@[v]).drop_last() =~= s);
}

/// A number is made of digits, at least one, with at most one plus sign in front.
pub proof fn law_what_is_a_number(s: Seq<char>)
    ensures
        text::digits_of(seq!['+'] + s) == s,
        s.len() == 0 || s[0] != '+' ==> text::digits_of(s) == s,
        s.len() == 0 || s[0] != '+' ==> (text::is_number(s) <==> s.len() > 0 && forall|i: int|
            0 <= i < s.len() ==> "0123456789"@.contains(#[trigger] s[i])),
        text::is_number(seq!['+'] + s) <==> s.len() > 0 && forall|i: int|
            0 <= i < s.len() ==> "0123456789"@.contains(#[trigger] s[i]),
{
    reveal_strlit("0123456789");
    let digits = "0123456789"@;
    assert((seq!['+'] + s).skip(1) =~= s);
    assert forall|c: char| #[trigger] text::is_digit(c) <==> digits.contains(c) by {
        if text::is_digit(c) {
            assert(digits[c as int - '0' as int] == c);
        }
        if digits.contains(c) {
            let i = choose|i: int| 0 <= i < digits.len() && digits[i] == c;
            assert(text::is_digit(digits[i]));
        }
    }
}

/// Strings are seen as their texts, one for one.
pub proof fn law_strings_one_for_one(strings: Seq<&str>, i: int)
    ensures
        text::texts(strings).len() == strings.len(),
        0 <= i < strings.len() ==> text::texts(strings)[i] == strings[i]@,
{
}

} // verus!
