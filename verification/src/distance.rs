//! The Levenshtein distance of two words: the least number of insertions,
//! deletions and substitutions of single symbols that turn one into the
//! other.

use vstd::prelude::*;

verus! {

/// The least of three numbers.
pub open spec fn least(x: nat, y: nat, z: nat) -> nat {
    if x <= y && x <= z {
        x
    } else if y <= z {
        y
    } else {
        z
    }
}

/// What it costs to turn one symbol into another.
pub open spec fn swap_cost(c: char, d: char) -> nat {
    if c == d {
        0
    } else {
        1
    }
}

/// The Levenshtein distance of `a` and `b`.
///
/// To an empty word it is the other word's length. Otherwise the last
/// symbol of `a` is deleted, the last symbol of `b` is inserted, or the one
/// is turned into the other, whichever is cheapest.
pub open spec fn distance(a: Seq<char>, b: Seq<char>) -> nat
    decreases a.len() + b.len(),
{
    if a.len() == 0 {
        b.len()
    } else if b.len() == 0 {
        a.len()
    } else {
        least(
            distance(a.drop_last(), b) + 1,
            distance(a, b.drop_last()) + 1,
            distance(a.drop_last(), b.drop_last()) + swap_cost(a.last(), b.last()),
        )
    }
}

/// Deleting a symbol at the end costs at most one edit.
pub proof fn lemma_delete(a: Seq<char>, b: Seq<char>, c: char)
    ensures
        distance(a.push(c), b) <= distance(a, b) + 1,
{
    assert(a.push(c).drop_last() =~= a);
    if b.len() == 0 {
        lemma_to_empty(a);
    }
}

/// Inserting a symbol at the end costs at most one edit.
pub proof fn lemma_insert(a: Seq<char>, b: Seq<char>, c: char)
    ensures
        distance(a, b.push(c)) <= distance(a, b) + 1,
{
    assert(b.push(c).drop_last() =~= b);
    if a.len() != 0 {
    } else {
        assert(distance(a, b) == b.len());
    }
}

/// Turning the last symbol into another costs at most one edit, and none
/// where they are the same.
pub proof fn lemma_swap(a: Seq<char>, b: Seq<char>, c: char, d: char)
    ensures
        distance(a.push(c), b.push(d)) <= distance(a, b) + swap_cost(c, d),
{
    assert(a.push(c).drop_last() =~= a);
    assert(b.push(d).drop_last() =~= b);
}

/// The distance to the empty word is the word's length.
pub proof fn lemma_to_empty(a: Seq<char>)
    ensures
        distance(a, Seq::empty()) == a.len(),
        distance(Seq::empty(), a) == a.len(),
{
}

/// A word is at distance zero from itself.
pub proof fn lemma_distance_self(a: Seq<char>)
    ensures
        distance(a, a) == 0,
    decreases a.len(),
{
    if a.len() > 0 {
        lemma_distance_self(a.drop_last());
    }
}

} // verus!
