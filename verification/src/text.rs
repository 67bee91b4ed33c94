//! Comparing and cutting text.
//!
//! Text is modelled by its sequence of characters.

use crate::lex;
use vstd::prelude::*;

verus! {

/// The order of characters: by code point.
pub open spec fn char_order() -> spec_fn(char, char) -> bool {
    |x: char, y: char| x < y
}

/// `a` comes before `b` in dictionary order.
pub open spec fn text_lt(a: Seq<char>, b: Seq<char>) -> bool {
    lex::lex_lt(char_order(), a, b)
}

/// Code points are totally ordered.
pub proof fn lemma_char_order_total()
    ensures
        lex::strict_total(char_order()),
{
}

/// Dictionary order is a strict total order.
pub proof fn lemma_text_order(a: Seq<char>, b: Seq<char>)
    ensures
        !text_lt(a, a),
        text_lt(a, b) ==> !text_lt(b, a),
        a == b || text_lt(a, b) || text_lt(b, a),
{
    lemma_char_order_total();
    lex::lemma_lex_irreflexive(char_order(), a);
    if text_lt(a, b) {
        lex::lemma_lex_asymmetric(char_order(), a, b);
    }
    if a != b {
        lex::lemma_lex_total(char_order(), a, b);
    }
}

/// The characters of `s`.
pub fn chars_of(s: &str) -> (chars: Vec<char>)
    ensures
        chars@ == s@,
{
    let mut chars: Vec<char> = Vec::new();
    let mut rest = s.chars();
    loop
        invariant
            chars@ + vstd::std_specs::iter::IteratorSpec::remaining(&rest) == s@,
            vstd::std_specs::iter::IteratorSpec::obeys_prophetic_iter_laws(&rest),
        decreases s@.len() - chars@.len(),
    {
        match rest.next() {
            Some(c) => {
                chars.push(c);
            },
            None => {
                return chars;
            },
        }
    }
}

/// Whether `a` comes before `b` in dictionary order.
pub fn text_less(a: &str, b: &str) -> (less: bool)
    ensures
        less == text_lt(a@, b@),
{
    let x = chars_of(a);
    let y = chars_of(b);
    let mut k: usize = 0;
    while k < x.len() && k < y.len() && x[k] == y[k]
        invariant
            x@ == a@,
            y@ == b@,
            k <= x.len(),
            k <= y.len(),
            forall|i: int| 0 <= i < k ==> x@[i] == y@[i],
        decreases x.len() - k,
    {
        k += 1;
    }
    let less = k < y.len() && (k == x.len() || x[k] < y[k]);
    proof {
        lemma_text_order(a@, b@);
        if less {
            assert(lex::lex_split(char_order(), a@, b@, k as int));
        } else if k < x.len() {
            assert(lex::lex_split(char_order(), b@, a@, k as int));
        } else {
            assert(a@ =~= b@);
        }
    }
    less
}

/// Whether `a` and `b` are the same text.
pub fn text_eq(a: &str, b: &str) -> (same: bool)
    ensures
        same == (a@ == b@),
{
    let mut x = a.chars();
    let mut y = b.chars();
    let ghost mut k: int = 0;
    loop
        invariant
            0 <= k <= a@.len(),
            k <= b@.len(),
            a@.take(k) == b@.take(k),
            vstd::std_specs::iter::IteratorSpec::remaining(&x) == a@.skip(k),
            vstd::std_specs::iter::IteratorSpec::remaining(&y) == b@.skip(k),
            vstd::std_specs::iter::IteratorSpec::obeys_prophetic_iter_laws(&x),
            vstd::std_specs::iter::IteratorSpec::obeys_prophetic_iter_laws(&y),
        decreases a@.len() - k,
    {
        match (x.next(), y.next()) {
            (Some(c), Some(d)) => {
                if c != d {
                    assert(a@[k] != b@[k]);
                    return false;
                }
                proof {
                    assert(a@.take(k + 1) =~= a@.take(k).push(a@[k]));
                    assert(b@.take(k + 1) =~= b@.take(k).push(b@[k]));
                    assert(a@.skip(k).drop_first() =~= a@.skip(k + 1));
                    assert(b@.skip(k).drop_first() =~= b@.skip(k + 1));
                    k = k + 1;
                }
            },
            (None, None) => {
                assert(a@ =~= a@.take(k));
                assert(b@ =~= b@.take(k));
                return true;
            },
            _ => {
                assert(a@.len() != b@.len());
                return false;
            },
        }
    }
}

/// `c` is white space, as Unicode has it.
pub open spec fn is_white_space(c: char) -> bool {
    ||| '\u{9}' <= c && c <= '\u{d}'
    ||| c == ' ' || c == '\u{85}' || c == '\u{a0}' || c == '\u{1680}'
    ||| '\u{2000}' <= c && c <= '\u{200a}'
    ||| c == '\u{2028}' || c == '\u{2029}' || c == '\u{202f}' || c == '\u{205f}'
    ||| c == '\u{3000}'
}

/// `s` without the white space in front.
pub open spec fn trimmed_front(s: Seq<char>) -> Seq<char>
    decreases s.len(),
{
    if s.len() > 0 && is_white_space(s[0]) {
        trimmed_front(s.drop_first())
    } else {
        s
    }
}

/// `s` without the white space at the end.
pub open spec fn trimmed_end(s: Seq<char>) -> Seq<char>
    decreases s.len(),
{
    if s.len() > 0 && is_white_space(s.last()) {
        trimmed_end(s.drop_last())
    } else {
        s
    }
}

/// `s` without the white space around it.
pub open spec fn trimmed(s: Seq<char>) -> Seq<char> {
    trimmed_end(trimmed_front(s))
}

fn white_space(c: char) -> (is: bool)
    ensures
        is == is_white_space(c),
{
    ('\u{9}' <= c && c <= '\u{d}') || c == ' ' || c == '\u{85}' || c == '\u{a0}' || c
        == '\u{1680}' || ('\u{2000}' <= c && c <= '\u{200a}') || c == '\u{2028}' || c
        == '\u{2029}' || c == '\u{202f}' || c == '\u{205f}' || c == '\u{3000}'
}

/// `s` without the white space around it.
pub fn trim(s: &str) -> (rest: &str)
    ensures
        rest@ == trimmed(s@),
{
    let chars = chars_of(s);
    let n: usize = chars.len();
    let mut start: usize = 0;
    assert(chars@.subrange(0, n as int) =~= chars@);
    while start < n && white_space(chars[start])
        invariant
            start <= n,
            n == chars.len(),
            trimmed_front(chars@) == trimmed_front(chars@.subrange(start as int, n as int)),
        decreases n - start,
    {
        assert(chars@.subrange(start as int, n as int).drop_first() =~= chars@.subrange(
            start + 1,
            n as int,
        ));
        start += 1;
    }
    let ghost front = chars@.subrange(start as int, n as int);
    let mut end: usize = n;
    assert(trimmed_front(chars@) == front);
    while start < end && white_space(chars[end - 1])
        invariant
            start <= end <= n,
            n == chars.len(),
            front == chars@.subrange(start as int, n as int),
            trimmed_end(front) == trimmed_end(chars@.subrange(start as int, end as int)),
        decreases end,
    {
        assert(chars@.subrange(start as int, end as int).drop_last() =~= chars@.subrange(
            start as int,
            end - 1,
        ));
        end -= 1;
    }
    s.substring_char(start, end)
}

/// What follows `prefix` in `s`; `None` if `s` does not start with it.
pub fn strip_prefix<'a>(s: &'a str, prefix: &str) -> (rest: Option<&'a str>)
    ensures
        match rest {
            Some(r) => s@ == prefix@ + r@,
            None => !prefix@.is_prefix_of(s@),
        },
{
    let chars = chars_of(s);
    let front = chars_of(prefix);
    if front.len() > chars.len() {
        return None;
    }
    let mut i: usize = 0;
    while i < front.len()
        invariant
            i <= front.len() <= chars.len(),
            chars@ == s@,
            front@ == prefix@,
            forall|j: int| 0 <= j < i ==> chars@[j] == front@[j],
        decreases front.len() - i,
    {
        if chars[i] != front[i] {
            assert(s@.subrange(0, prefix@.len() as int)[i as int] != prefix@[i as int]);
            return None;
        }
        i += 1;
    }
    let rest = s.substring_char(i, chars.len());
    assert(s@ =~= prefix@ + rest@);
    Some(rest)
}

/// Whether `s` starts with `prefix`.
pub fn starts_with(s: &str, prefix: &str) -> (starts: bool)
    ensures
        starts == prefix@.is_prefix_of(s@),
{
    match strip_prefix(s, prefix) {
        Some(rest) => {
            assert(prefix@ =~= s@.subrange(0, prefix@.len() as int));
            true
        },
        None => false,
    }
}

/// The pieces of `s` between commas.
pub open spec fn comma_pieces(s: Seq<char>) -> Seq<Seq<char>>
    decreases s.len(),
{
    if s.len() == 0 {
        seq![Seq::empty()]
    } else {
        let pieces = comma_pieces(s.drop_last());
        if s.last() == ',' {
            pieces.push(Seq::empty())
        } else {
            pieces.drop_last().push(pieces.last().push(s.last()))
        }
    }
}

/// The texts as sequences of characters.
pub open spec fn texts(strings: Seq<&str>) -> Seq<Seq<char>> {
    strings.map_values(|s: &str| s@)
}

/// The pieces of `s` between commas.
pub fn split_at_commas(s: &str) -> (pieces: Vec<&str>)
    ensures
        texts(pieces@) == comma_pieces(s@),
{
    let chars = chars_of(s);
    let n: usize = chars.len();
    let mut pieces: Vec<&str> = Vec::new();
    let mut start: usize = 0;
    let mut i: usize = 0;
    assert(chars@.take(0) =~= Seq::<char>::empty());
    assert(chars@.subrange(0, 0) =~= Seq::<char>::empty());
    assert(comma_pieces(chars@.take(0)) =~= texts(pieces@).push(chars@.subrange(0, 0)));
    while i < n
        invariant
            start <= i <= n,
            n == chars.len(),
            chars@ == s@,
            comma_pieces(chars@.take(i as int)) == texts(pieces@).push(
                chars@.subrange(start as int, i as int),
            ),
        decreases n - i,
    {
        let ghost before = chars@.take(i as int);
        let ghost open = chars@.subrange(start as int, i as int);
        let ghost closed = texts(pieces@);
        let ghost now = chars@.take(i + 1);
        assert(now.drop_last() =~= before);
        assert(now.last() == chars@[i as int]);
        assert(closed.push(open).drop_last() =~= closed);
        if chars[i] == ',' {
            pieces.push(s.substring_char(start, i));
            start = i + 1;
            assert(texts(pieces@) =~= closed.push(open));
            assert(chars@.subrange(start as int, i + 1) =~= Seq::<char>::empty());
        } else {
            assert(chars@.subrange(start as int, i + 1) =~= open.push(chars@[i as int]));
        }
        i += 1;
    }
    let ghost closed = texts(pieces@);
    pieces.push(s.substring_char(start, n));
    assert(chars@.take(n as int) =~= chars@);
    assert(texts(pieces@) =~= closed.push(chars@.subrange(start as int, n as int)));
    pieces
}

/// `c` is a decimal digit.
pub open spec fn is_digit(c: char) -> bool {
    '0' <= c && c <= '9'
}

/// The number that the digits `s` stand for.
pub open spec fn number(s: Seq<char>) -> nat
    decreases s.len(),
{
    if s.len() == 0 {
        0
    } else {
        10 * number(s.drop_last()) + (s.last() as nat - '0' as nat) as nat
    }
}

/// `s` is a whole number in decimal digits, with a plus sign in front or without.
pub open spec fn is_number(s: Seq<char>) -> bool {
    let digits = digits_of(s);
    digits.len() > 0 && forall|i: int| 0 <= i < digits.len() ==> is_digit(#[trigger] digits[i])
}

/// `s` without a plus sign in front.
pub open spec fn digits_of(s: Seq<char>) -> Seq<char> {
    if s.len() > 0 && s[0] == '+' {
        s.skip(1)
    } else {
        s
    }
}

/// The number that `s` stands for, if it is one and has at most 16 bits.
pub fn parse_u16(s: &str) -> (value: Option<u16>)
    ensures
        match value {
            Some(v) => is_number(s@) && number(digits_of(s@)) == v,
            None => !is_number(s@) || number(digits_of(s@)) > u16::MAX,
        },
{
    let chars = chars_of(s);
    let ghost digits = digits_of(s@);
    let start: usize = if chars.len() > 0 && chars[0] == '+' {
        1
    } else {
        0
    };
    if start == chars.len() {
        return None;
    }
    assert forall|j: int| 0 <= j < digits.len() implies digits[j] == chars@[start + j] by {}
    let mut value: u32 = 0;
    let mut i: usize = start;
    let mut fits = true;
    while i < chars.len()
        invariant
            start <= i <= chars.len(),
            digits.len() == chars.len() - start,
            forall|j: int| 0 <= j < digits.len() ==> digits[j] == chars@[start + j],
            forall|j: int| 0 <= j < i - start ==> is_digit(#[trigger] digits[j]),
            fits ==> value == number(digits.take(i - start)) && value <= u16::MAX,
            !fits ==> number(digits.take(i - start)) > u16::MAX,
            digits == digits_of(s@),
        decreases chars.len() - i,
    {
        let c = chars[i];
        if c < '0' || c > '9' {
            assert(!is_digit(digits[i - start]));
            return None;
        }
        assert(is_digit(digits[i - start]));
        assert(digits.take(i - start + 1).drop_last() =~= digits.take(i - start));
        if fits {
            value = 10 * value + (c as u32 - '0' as u32);
            if value > 65535 {
                fits = false;
            }
        }
        i += 1;
    }
    assert(digits.take(i - start) =~= digits);
    if fits {
        Some(value as u16)
    } else {
        None
    }
}

} // verus!
