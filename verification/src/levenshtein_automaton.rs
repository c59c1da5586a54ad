//! The Levenshtein automaton of a word and an edit budget, first as built
//! and then determinized.

use crate::automaton::{Automaton, Deterministic, NonDeterministic};
use crate::grid::{is_lev_nfa, lev_nfa};
use crate::language::AutomatonView;
use vstd::prelude::*;

verus! {

/// An automaton that accepts the strings within an edit budget of a word.
#[derive(Debug)]
pub struct LevenshteinAutomaton<T>(Automaton<T>);

impl<T> View for LevenshteinAutomaton<T> {
    type V = AutomatonView;

    closed spec fn view(&self) -> AutomatonView {
        self.0@
    }
}

impl<T> LevenshteinAutomaton<T> {
    /// The automaton itself.
    pub fn get_automaton(&self) -> (automaton: &Automaton<T>)
        ensures
            automaton@ == self@,
    {
        &self.0
    }
}

impl LevenshteinAutomaton<NonDeterministic> {
    /// The grid automaton of `word` and `k`: it accepts exactly the strings
    /// that at most `k` insertions, deletions and substitutions of single
    /// symbols turn into `word`.
    #[must_use]
    pub fn new(word: &str, k: usize) -> (automaton: Self)
        ensures
            is_lev_nfa(automaton@, word@, k as nat),
    {
        Self(lev_nfa(word, k))
    }
}

impl From<LevenshteinAutomaton<NonDeterministic>> for LevenshteinAutomaton<Deterministic> {
    /// The subset construction on the grid automaton.
    fn from(nfa: LevenshteinAutomaton<NonDeterministic>) -> (dfa: Self)
        ensures
            dfa@.deterministic(),
            dfa@.dispatching(),
            nfa@.states.len() == 0 ==> dfa@ == AutomatonView::empty(),
            nfa@.plainly_determinized_by(dfa@),
            nfa@.no_negated() ==> nfa@.determinized_by(dfa@),
    {
        Self(nfa.0.determinize())
    }
}

impl vstd::std_specs::convert::FromSpecImpl<LevenshteinAutomaton<NonDeterministic>> for LevenshteinAutomaton<Deterministic> {
    /// The conversion is described by what `from` ensures, not by a function
    /// of the source.
    open spec fn obeys_from_spec() -> bool {
        false
    }

    open spec fn from_spec(nfa: LevenshteinAutomaton<NonDeterministic>) -> Self {
        arbitrary()
    }
}

} // verus!
