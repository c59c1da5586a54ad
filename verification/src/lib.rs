//! Approximate string matching with Levenshtein automata: a dictionary trie,
//! the automaton of all strings within an edit distance of a word, and the
//! walk over both that lists the dictionary words the automaton accepts.

pub mod automaton;
pub mod determinize;
pub mod dfa;
pub mod distance;
pub mod edits;
pub mod grid;
pub mod language;
pub mod levenshtein_automaton;
pub mod nfa;
pub mod nfa_lev;
pub mod product;
pub mod spell_checker;
pub mod state_set;
pub mod text;
pub mod trie;
