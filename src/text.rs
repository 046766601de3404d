//! Text primitives the library takes from std and from the stop-word lists.

use vstd::prelude::*;

verus! {

/// What `str::to_lowercase` makes of a sequence of characters.
pub uninterp spec fn lower_of(s: Seq<char>) -> Seq<char>;

/// Relies on `str::to_lowercase`: the result depends on the characters alone.
#[verifier::external_body]
pub(crate) fn lowercase(s: &str) -> (r: String)
    ensures
        r@ == lower_of(s@),
{
    s.to_lowercase()
}

/// Whether `char::is_numeric` holds of a character.
pub uninterp spec fn numeric_char(c: char) -> bool;

/// Relies on `char::is_numeric`: whether the character's general category is a number one.
#[verifier::external_body]
pub(crate) fn is_numeric(c: char) -> (r: bool)
    ensures
        r == numeric_char(c),
{
    c.is_numeric()
}

/// Relies on `String::push`: appends one character.
#[verifier::external_body]
pub(crate) fn push_char(s: &mut String, c: char)
    ensures
        final(s)@ == old(s)@.push(c),
{
    s.push(c)
}

/// The stop words that `stop_words::lookup` lists for a language code, if it knows the code.
pub uninterp spec fn stop_word_list(code: Seq<char>) -> Option<Seq<Seq<char>>>;

/// Relies on `stop_words::lookup`: the list compiled in for a language code, or `None` for an
/// unknown one.
#[verifier::external_body]
pub(crate) fn lookup_stop_words(code: &str) -> (r: Option<Vec<String>>)
    ensures
        match r {
            Some(v) => stop_word_list(code@) == Some(v@.map_values(|w: String| w@)),
            None => stop_word_list(code@).is_none(),
        },
{
    stop_words::lookup(code).map(|words| words.iter().map(|w| w.to_string()).collect())
}

} // verus!
