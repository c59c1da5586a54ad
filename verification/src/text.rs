//! Strings as sequences of Unicode symbols.

use vstd::prelude::*;

verus! {

/// The symbols of `word`, in order.
pub fn symbols_of(word: &str) -> (symbols: Vec<char>)
    ensures
        symbols@ == word@,
{
    broadcast use vstd::string::group_string_axioms;

    let mut symbols: Vec<char> = Vec::new();
    for c in it: word.chars()
        invariant
            it.seq() == word@,
            symbols@ == it.seq().take(it.index() as int),
    {
        symbols.push(c);
    }
    symbols
}

/// The string that reads `symbols`.
///
/// Calls the `FromIterator<&char>` implementation of `String` through
/// `collect`, which appends each symbol in turn to an empty string.
#[verifier::external_body]
pub(crate) fn word_of(symbols: &Vec<char>) -> (word: String)
    ensures
        word@ == symbols@,
{
    symbols.iter().collect()
}

/// The symbol sequences of a list of strings.
pub open spec fn texts(words: Seq<String>) -> Seq<Seq<char>> {
    Seq::new(words.len(), |i: int| words[i]@)
}

} // verus!
