//! The spell checker: a dictionary with a strategy that proposes
//! corrections for the words it lacks.

use crate::automaton::Deterministic;
use crate::distance::distance;
use crate::edits::{lemma_dfa_accepts_within_distance, lemma_grid_positive};
use crate::grid::is_lev_nfa;
use crate::language::AutomatonView;
use crate::levenshtein_automaton::LevenshteinAutomaton;
use crate::text::texts;
use crate::trie::Trie;
use vstd::prelude::*;

verus! {

/// A dictionary and the function that proposes corrections from it.
pub struct SpellChecker<F> where F: Fn(&str, &Trie) -> Vec<String> {
    trie: Trie,
    correction_func: F,
}

impl<F> SpellChecker<F> where F: Fn(&str, &Trie) -> Vec<String> {
    /// The dictionary of the checker.
    pub closed spec fn dictionary(&self) -> Trie {
        self.trie
    }

    /// The function that proposes corrections.
    pub closed spec fn strategy(&self) -> F {
        self.correction_func
    }

    /// What `check_word` may return for `word`: `Ok` where the dictionary
    /// holds it, else what the strategy proposes.
    pub open spec fn checked(&self, word: &str, outcome: Result<(), Vec<String>>) -> bool {
        match outcome {
            Ok(_) => self.dictionary().holds(word@),
            Err(corrections) => !self.dictionary().holds(word@) && call_ensures(
                self.strategy(),
                (word, &self.dictionary()),
                corrections,
            ),
        }
    }

    /// The checker of `trie` that proposes what `correction_func` returns.
    pub fn new(trie: Trie, correction_func: F) -> (checker: Self)
        ensures
            checker.dictionary() == trie,
            checker.strategy() == correction_func,
    {
        Self { trie, correction_func }
    }

    /// `Ok` where the dictionary holds `word`; else the corrections that
    /// the strategy proposes, which may be none.
    pub fn check_word(&self, word: &str) -> (outcome: Result<(), Vec<String>>)
        requires
            call_requires(self.strategy(), (word, &self.dictionary())),
        ensures
            self.checked(word, outcome),
    {
        if self.trie.contains(word) {
            Ok(())
        } else {
            Err((self.correction_func)(word, &self.trie))
        }
    }
}

/// `found` lists, each once, the words of `trie` at Levenshtein distance
/// at most `k` from `word`.
pub open spec fn lists_within(trie: &Trie, word: Seq<char>, k: nat, found: Seq<Seq<char>>) -> bool {
    &&& found.no_duplicates()
    &&& forall|x: Seq<char>| #[trigger]
        found.contains(x) <==> trie.holds(x) && distance(word, x) <= k
}

/// The words of `trie` at Levenshtein distance at most `k` from `word`,
/// each once, in no particular order: the correction strategy of the
/// Levenshtein automaton with budget `k`.
pub fn within_distance(word: &str, trie: &Trie, k: usize) -> (words: Vec<String>)
    ensures
        lists_within(trie, word@, k as nat, texts(words@)),
{
    let aut = LevenshteinAutomaton::new(word, k);
    let ghost nfa = aut@;
    proof {
        lemma_grid_positive(nfa, word@, k as nat);
    }
    let aut = LevenshteinAutomaton::<Deterministic>::from(aut);
    let words = trie.filter(aut.get_automaton());
    proof {
        assert forall|x: Seq<char>| #[trigger]
            texts(words@).contains(x) <==> trie.holds(x) && distance(word@, x) <= k by {
            lemma_dfa_accepts_within_distance(nfa, aut@, word@, k as nat, x);
        }
    }
    words
}

/// Of a dictionary `dict`, the walk over the determinized grid automaton
/// of `w` and `k` and the trie lists exactly the nonempty words at
/// Levenshtein distance at most `k` from `w`.
pub proof fn lemma_intersection(
    nfa: AutomatonView,
    dfa: AutomatonView,
    trie: AutomatonView,
    w: Seq<char>,
    k: nat,
    dict: Seq<Seq<char>>,
    found: Seq<Seq<char>>,
)
    requires
        is_lev_nfa(nfa, w, k),
        nfa.determinized_by(dfa),
        forall|x: Seq<char>| #[trigger] trie.dfa_accepts(x) <==> x.len() > 0 && dict.contains(x),
        forall|x: Seq<char>| #[trigger]
            found.contains(x) <==> x.len() > 0 && dfa.dfa_accepts(x) && trie.dfa_accepts(x),
    ensures
        forall|x: Seq<char>| #[trigger]
            found.contains(x) <==> x.len() > 0 && dict.contains(x) && distance(w, x) <= k,
{
    assert forall|x: Seq<char>| #[trigger]
        found.contains(x) <==> x.len() > 0 && dict.contains(x) && distance(w, x) <= k by {
        lemma_dfa_accepts_within_distance(nfa, dfa, w, k, x);
    }
}

/// A checker whose strategy lists the dictionary's words within `k` edits
/// answers `Ok` for the words of the dictionary and, for any other word,
/// `Err` with exactly the dictionary's words within `k` edits of it.
pub proof fn lemma_fast_path<F>(
    checker: SpellChecker<F>,
    word: &str,
    k: nat,
    outcome: Result<(), Vec<String>>,
) where F: Fn(&str, &Trie) -> Vec<String>
    requires
        checker.checked(word, outcome),
        forall|corrections: Vec<String>|
            call_ensures(checker.strategy(), (word, &checker.dictionary()), corrections)
                ==> lists_within(&checker.dictionary(), word@, k, texts(corrections@)),
    ensures
        checker.dictionary().holds(word@) ==> outcome is Ok,
        !checker.dictionary().holds(word@) ==> outcome is Err && lists_within(
            &checker.dictionary(),
            word@,
            k,
            texts(outcome->Err_0@),
        ),
{
}

} // verus!
