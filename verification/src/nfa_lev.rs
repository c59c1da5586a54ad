//! The Levenshtein automaton in its nondeterministic form, usable wherever
//! a nondeterministic automaton is.

use crate::automaton::{Automaton, NonDeterministic};
use crate::grid::{is_lev_nfa, lev_nfa};
use crate::language::AutomatonView;
use std::ops::Deref;
use vstd::prelude::*;

verus! {

/// The grid automaton of a word and an edit budget.
#[derive(Debug)]
pub struct NfaLev(Automaton<NonDeterministic>);

impl View for NfaLev {
    type V = AutomatonView;

    closed spec fn view(&self) -> AutomatonView {
        self.0@
    }
}

impl Deref for NfaLev {
    type Target = Automaton<NonDeterministic>;

    fn deref(&self) -> (automaton: &Self::Target)
        ensures
            automaton@ == self@,
    {
        &self.0
    }
}

impl NfaLev {
    /// The grid automaton of `word` and `k`.
    #[must_use]
    pub fn new(word: &str, k: usize) -> (automaton: Self)
        ensures
            is_lev_nfa(automaton@, word@, k as nat),
    {
        Self(lev_nfa(word, k))
    }
}

} // verus!
