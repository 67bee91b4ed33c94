//! JSON values.
//!
//! A value is held as its compact JSON text, in the one form that writing it
//! always gives: no white space, the members of an object sorted by name.  Values are
//! equal if their texts are, the sign of zeros aside: the numbers `0.0` and `-0.0` are
//! equal, though each keeps its own text.

use crate::text;
use vstd::prelude::*;

verus! {

/// What reading `text` as JSON and writing the value again gives: the text of the
/// value, or the message that says why `text` is not JSON.
pub uninterp spec fn json_form(text: Seq<char>) -> Result<Seq<char>, Seq<char>>;

/// Reads `text` by `serde_json::from_str` into a `serde_json::Value` and writes
/// that by its `Display`, which is compact; where reading fails, gives the text of
/// the error.
///
/// Stated is that the outcome depends on `text` alone, by the name [`json_form`];
/// which texts are JSON, and how each is written, is not stated.
#[verifier::external_body]
fn read_and_write(text: &str) -> (form: Result<String, String>)
    ensures
        match form {
            Ok(written) => json_form(text@) == Ok::<Seq<char>, Seq<char>>(written@),
            Err(message) => json_form(text@) == Err::<Seq<char>, Seq<char>>(message@),
        },
{
    match serde_json::from_str::<serde_json::Value>(text) {
        Ok(value) => Ok(value.to_string()),
        Err(error) => Err(error.to_string()),
    }
}

/// Where in a JSON text a position lies.
#[derive(Debug, PartialEq, Eq, Clone, Copy, Structural)]
pub enum Place {
    /// Outside strings.
    Plain,
    /// In a string.
    Quoted,
    /// In a string, behind a backslash.
    Escaped,
}

/// The place behind the character `c` at the place `place`.
pub open spec fn behind(place: Place, c: char) -> Place {
    match place {
        Place::Plain => if c == '"' {
            Place::Quoted
        } else {
            Place::Plain
        },
        Place::Quoted => if c == '"' {
            Place::Plain
        } else if c == '\\' {
            Place::Escaped
        } else {
            Place::Quoted
        },
        Place::Escaped => Place::Quoted,
    }
}

/// The place of the position `i`.
pub open spec fn place(text: Seq<char>, i: int) -> Place
    decreases i,
{
    if i <= 0 {
        Place::Plain
    } else {
        behind(place(text, i - 1), text[i - 1])
    }
}

/// A number may go on with `c`.
pub open spec fn in_number(c: char) -> bool {
    ('0' <= c && c <= '9') || c == 'e' || c == 'E'
}

/// The number `-0.0` begins at position `i`.
pub open spec fn negative_zero(text: Seq<char>, i: int) -> bool {
    &&& 0 <= i <= text.len() - 4
    &&& place(text, i) == Place::Plain
    &&& text[i] == '-'
    &&& text[i + 1] == '0'
    &&& text[i + 2] == '.'
    &&& text[i + 3] == '0'
    &&& i + 4 < text.len() ==> !in_number(text[i + 4])
}

/// The first `n` characters without the signs of zeros.
pub open spec fn unsigned_to(text: Seq<char>, n: int) -> Seq<char>
    decreases n,
{
    if n <= 0 {
        Seq::empty()
    } else if negative_zero(text, n - 1) {
        unsigned_to(text, n - 1)
    } else {
        unsigned_to(text, n - 1).push(text[n - 1])
    }
}

/// The text without the signs of zeros.
pub open spec fn unsigned(text: Seq<char>) -> Seq<char> {
    unsigned_to(text, text.len() as int)
}

/// The text without the signs of zeros.
fn without_signs(text: &str) -> (plain: String)
    ensures
        plain@ == unsigned(text@),
{
    let chars = text::chars_of(text);
    let n: usize = chars.len();
    let mut plain = String::new();
    let mut place = Place::Plain;
    let mut start: usize = 0;
    let mut i: usize = 0;
    assert(plain@ + chars@.subrange(0, 0) =~= Seq::empty());
    while i < n
        invariant
            start <= i <= n,
            n == chars.len(),
            chars@ == text@,
            place == self::place(text@, i as int),
            plain@ + text@.subrange(start as int, i as int) == unsigned_to(text@, i as int),
        decreases n - i,
    {
        let c = chars[i];
        let zero = place == Place::Plain && n - i >= 4 && c == '-' && chars[i + 1] == '0'
            && chars[i + 2] == '.' && chars[i + 3] == '0' && (n - i == 4 || !number_goes_on(
            chars[i + 4],
        ));
        assert(zero == negative_zero(text@, i as int));
        let ghost before = plain@;
        let ghost begun = text@.subrange(start as int, i as int);
        if zero {
            plain.append(text.substring_char(start, i));
            start = i + 1;
            assert(plain@ + text@.subrange(start as int, i + 1) =~= before + begun);
        } else {
            assert(before + text@.subrange(start as int, i + 1) =~= (before + begun).push(c));
        }
        place = match place {
            Place::Plain => if c == '"' {
                Place::Quoted
            } else {
                Place::Plain
            },
            Place::Quoted => if c == '"' {
                Place::Plain
            } else if c == '\\' {
                Place::Escaped
            } else {
                Place::Quoted
            },
            Place::Escaped => Place::Quoted,
        };
        i += 1;
    }
    plain.append(text.substring_char(start, i));
    plain
}

/// Whether a number may go on with `c`.
fn number_goes_on(c: char) -> (goes_on: bool)
    ensures
        goes_on == in_number(c),
{
    (c >= '0' && c <= '9') || c == 'e' || c == 'E'
}

/// A JSON value, held as text.
#[derive(Debug, Eq)]
pub struct JsonValue {
    text: String,
}

impl View for JsonValue {
    type V = Seq<char>;

    closed spec fn view(&self) -> Seq<char> {
        self.text@
    }
}

impl DeepView for JsonValue {
    type V = Seq<char>;

    open spec fn deep_view(&self) -> Seq<char> {
        unsigned(self@)
    }
}

impl Clone for JsonValue {
    fn clone(&self) -> (copy: Self)
        ensures
            copy == *self,
    {
        JsonValue { text: self.text.clone() }
    }
}

impl PartialEq for JsonValue {
    fn eq(&self, other: &Self) -> (same: bool) {
        text::text_eq(
            without_signs(self.text.as_str()).as_str(),
            without_signs(other.text.as_str()).as_str(),
        )
    }
}

impl vstd::std_specs::cmp::PartialEqSpecImpl for JsonValue {
    open spec fn obeys_eq_spec() -> bool {
        true
    }

    open spec fn eq_spec(&self, other: &Self) -> bool {
        self.deep_view() == other.deep_view()
    }
}

/// Why a text is not JSON.
#[derive(Debug)]
pub struct JsonError {
    pub message: String,
}

impl JsonValue {
    /// The value that `text` stands for.
    pub fn parse(text: &str) -> (value: Result<JsonValue, JsonError>)
        ensures
            match value {
                Ok(v) => json_form(text@) == Ok::<Seq<char>, Seq<char>>(v@),
                Err(e) => json_form(text@) == Err::<Seq<char>, Seq<char>>(e.message@),
            },
    {
        match read_and_write(text) {
            Ok(written) => Ok(JsonValue { text: written }),
            Err(message) => Err(JsonError { message }),
        }
    }

    /// The value whose text is `text`.
    ///
    /// The text is not read: a value made elsewhere comes in by it, however deep it is
    /// nested.  It is to be in the one form in which the value is written, since values
    /// are compared by their texts.
    pub fn from_text(text: &str) -> (value: JsonValue)
        ensures
            value@ == text@,
    {
        JsonValue { text: text.to_owned() }
    }

    /// The text of the value.
    pub fn text(&self) -> (text: &str)
        ensures
            text@ == self@,
    {
        self.text.as_str()
    }
}

/// `texts`, with a comma between any two.
pub open spec fn comma_separated(texts: Seq<Seq<char>>) -> Seq<char>
    decreases texts.len(),
{
    if texts.len() == 0 {
        Seq::empty()
    } else if texts.len() == 1 {
        texts[0]
    } else {
        comma_separated(texts.drop_last()) + seq![','] + texts.last()
    }
}

/// The text of the array of `values`.
pub open spec fn array_text(values: Seq<&JsonValue>) -> Seq<char> {
    seq!['['] + comma_separated(values.map_values(|value: &JsonValue| value@)) + seq![']']
}

/// The JSON text of an array of values.
pub fn json_array(values: &Vec<&JsonValue>) -> (text: String)
    ensures
        text@ == array_text(values@),
{
    let ghost texts = values@.map_values(|value: &JsonValue| value@);
    let mut text = String::new();
    text.append("[");
    proof {
        reveal_strlit("[");
        reveal_strlit(",");
        reveal_strlit("]");
        assert("["@ =~= seq!['[']);
        assert(","@ =~= seq![',']);
        assert("]"@ =~= seq![']']);
        assert(text@ =~= seq!['['] + comma_separated(texts.take(0)));
    }
    let mut i: usize = 0;
    while i < values.len()
        invariant
            i <= values.len(),
            texts == values@.map_values(|value: &JsonValue| value@),
            text@ == seq!['['] + comma_separated(texts.take(i as int)),
            ","@ == seq![','],
        decreases values.len() - i,
    {
        let ghost before = texts.take(i as int);
        if i > 0 {
            text.append(",");
        }
        text.append(values[i].text());
        i += 1;
        proof {
            let now = texts.take(i as int);
            assert(now.drop_last() =~= before);
            assert(now.last() == texts[i - 1]);
            if i == 1 {
                assert(comma_separated(before) =~= Seq::empty());
                assert(text@ =~= seq!['['] + now[0]);
            } else {
                assert(text@ =~= seq!['['] + (comma_separated(before) + seq![',']
                    + now.last()));
            }
        }
    }
    assert(texts.take(i as int) =~= texts);
    text.append("]");
    text
}

} // verus!
