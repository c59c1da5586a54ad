//! Reading a word deterministically, and the insertion of edges that keeps
//! an automaton deterministic.

use crate::automaton::{listed, Automaton, Deterministic, StateId, Transition};
use crate::language::{first_match, AutomatonView, Edge, Label};
use crate::text::symbols_of;
use vstd::prelude::*;

verus! {

/// The code point of a symbol.
pub open spec fn code_of(c: char) -> u32 {
    c as u32
}

/// Code points stay below `0x110000`, and symbols with one code point are one symbol.
proof fn lemma_code_points(c: char, d: char)
    ensures
        code_of(c) <= 0x10FFFF,
        code_of(c) == code_of(d) ==> c == d,
{
    vstd::utf8::char_is_scalar(c);
    vstd::utf8::char_u32_cast(c, c as u32);
    vstd::utf8::char_u32_cast(d, d as u32);
}

/// The symbol with the given code point, if there is one.
///
/// Calls `char::from_u32`, which yields the symbol whose code point is
/// `code` and nothing where no symbol has that code point.
#[verifier::external_body]
fn symbol_of_code(code: u32) -> (symbol: Option<char>)
    ensures
        match symbol {
            Some(c) => code_of(c) == code,
            None => forall|c: char| #[trigger] code_of(c) != code,
        },
{
    char::from_u32(code)
}

/// A symbol that neither list holds, if there is one.
fn unlisted(s: &Vec<char>, t: &Vec<char>) -> (symbol: Option<char>)
    ensures
        match symbol {
            Some(c) => !s@.to_set().contains(c) && !t@.to_set().contains(c),
            None => forall|c: char| #[trigger] s@.to_set().contains(c) || t@.to_set().contains(c),
        },
{
    let mut code: u32 = 0;
    while code <= 0x10FFFF
        invariant
            code <= 0x110000,
            forall|c: char|
                code_of(c) < code ==> #[trigger] s@.to_set().contains(c) || t@.to_set().contains(c),
        decreases 0x110000 - code,
    {
        match symbol_of_code(code) {
            Some(c) => {
                if !listed(s, c) && !listed(t, c) {
                    return Some(c);
                }
                assert forall|d: char| code_of(d) < code + 1 implies #[trigger] s@.to_set().contains(
                    d,
                ) || t@.to_set().contains(d) by {
                    lemma_code_points(d, c);
                }
            },
            None => {
                assert forall|d: char| code_of(d) < code + 1 implies #[trigger] s@.to_set().contains(
                    d,
                ) || t@.to_set().contains(d) by {
                    assert(code_of(d) != code);
                }
            },
        }
        code += 1;
    }
    assert forall|d: char| #[trigger] s@.to_set().contains(d) || t@.to_set().contains(d) by {
        lemma_code_points(d, d);
    }
    None
}

impl Transition {
    /// Whether the two classes share a symbol.
    pub fn overlaps(&self, other: &Transition) -> (shared: bool)
        ensures
            shared == self@.overlaps(other@),
    {
        match self {
            Self::Epsilon => false,
            Self::Is(c) => {
                let shared = other.allows(*c);
                assert(shared ==> self@.allows(*c) && other@.allows(*c));
                shared
            },
            Self::Star => match other {
                Self::Epsilon => false,
                Self::Is(c) => {
                    assert(self@.allows(*c) && other@.allows(*c));
                    true
                },
                Self::Star => {
                    assert(self@.allows('a') && other@.allows('a'));
                    true
                },
                Self::IsNot(t) => {
                    let none: Vec<char> = Vec::new();
                    match unlisted(t, &none) {
                        Some(c) => {
                            assert(self@.allows(c) && other@.allows(c));
                            true
                        },
                        None => {
                            assert(none@.to_set() =~= Set::<char>::empty());
                            false
                        },
                    }
                },
            },
            Self::IsNot(s) => match other {
                Self::Epsilon => false,
                Self::Is(c) => {
                    let shared = self.allows(*c);
                    assert(shared ==> self@.allows(*c) && other@.allows(*c));
                    shared
                },
                Self::Star => {
                    let none: Vec<char> = Vec::new();
                    match unlisted(s, &none) {
                        Some(c) => {
                            assert(self@.allows(c) && other@.allows(c));
                            true
                        },
                        None => {
                            assert(none@.to_set() =~= Set::<char>::empty());
                            false
                        },
                    }
                },
                Self::IsNot(t) => match unlisted(s, t) {
                    Some(c) => {
                        assert(self@.allows(c) && other@.allows(c));
                        true
                    },
                    None => false,
                },
            },
        }
    }
}

impl AutomatonView {
    /// Some edge out of `p` shares a symbol with `label`.
    pub open spec fn clashes(self, p: int, label: Label) -> bool {
        exists|i: int|
            0 <= i < self.states[p].len() && (#[trigger] self.states[p][i]).label.overlaps(label)
    }

    /// An edge that clashes with none out of its source keeps the automaton
    /// deterministic.
    pub proof fn lemma_with_edge_deterministic(self, from: int, label: Label, to: int)
        requires
            self.deterministic(),
            self.has_state(from),
            !self.clashes(from, label),
        ensures
            self.with_edge(from, label, to).deterministic(),
    {
        let grown = self.with_edge(from, label, to);
        let m = self.states[from].len() as int;
        assert forall|p: int, i: int, j: int|
            0 <= p < grown.states.len() && 0 <= i < grown.states[p].len() && 0 <= j
                < grown.states[p].len() && i != j implies !(#[trigger] grown.states[p][i]).label.overlaps(
            (#[trigger] grown.states[p][j]).label,
        ) by {
            if p == from {
                if i < m && j < m {
                    assert(grown.states[p][i] == self.states[p][i]);
                    assert(grown.states[p][j] == self.states[p][j]);
                } else if i < m {
                    assert(grown.states[p][i] == self.states[p][i]);
                    assert(!self.states[p][i].label.overlaps(label));
                } else {
                    assert(grown.states[p][j] == self.states[p][j]);
                    assert(!self.states[p][j].label.overlaps(label));
                    if label.overlaps(self.states[p][j].label) {
                        let c = choose|c: char|
                            label.allows(c) && self.states[p][j].label.allows(c);
                        assert(self.states[p][j].label.allows(c) && label.allows(c));
                    }
                }
            } else {
                assert(grown.states[p][i] == self.states[p][i]);
                assert(grown.states[p][j] == self.states[p][j]);
            }
        }
    }
}

impl Automaton<Deterministic> {
    /// Appends an edge from `from` to `to` unless its class shares a symbol
    /// with an edge already leaving `from`; tells whether it was appended.
    pub fn add_transition(&mut self, from: StateId, to: StateId, transition: Transition) -> (added:
        bool)
        requires
            old(self)@.has_state(from@),
            old(self)@.has_state(to@),
        ensures
            added == !old(self)@.clashes(from@, transition@),
            added ==> final(self)@ == old(self)@.with_edge(from@, transition@, to@),
            !added ==> final(self)@ == old(self)@,
            old(self)@.deterministic() ==> final(self)@.deterministic(),
    {
        let p = from.index();
        let m = self.edge_count(p);
        let mut i: usize = 0;
        while i < m
            invariant
                *self == *old(self),
                p == from@,
                self@.has_state(p as int),
                m == self@.states[p as int].len(),
                i <= m,
                forall|j: int|
                    0 <= j < i ==> !(#[trigger] self@.states[p as int][j]).label.overlaps(
                        transition@,
                    ),
            decreases m - i,
        {
            if self.edge_label(p, i).overlaps(&transition) {
                return false;
            }
            i += 1;
        }
        proof {
            if self@.deterministic() {
                self@.lemma_with_edge_deterministic(from@, transition@, to@);
            }
        }
        self._add_transition(from, to, transition);
        true
    }

    /// The state entered from `p` by reading `c`, if an edge admits `c`.
    pub(crate) fn next_state(&self, p: usize, c: char) -> (next: Option<usize>)
        requires
            self@.has_state(p as int),
        ensures
            match next {
                Some(q) => self@.next(p as int, c) == Some(q as int) && self@.has_state(q as int),
                None => self@.next(p as int, c) is None,
            },
    {
        let m = self.edge_count(p);
        let ghost edges = self@.states[p as int];
        let mut i: usize = 0;
        assert(edges.skip(0) =~= edges);
        while i < m
            invariant
                self@.has_state(p as int),
                edges == self@.states[p as int],
                m == edges.len(),
                i <= m,
                first_match(edges, c) == first_match(edges.skip(i as int), c),
            decreases m - i,
        {
            assert(edges.skip(i as int)[0] == edges[i as int]);
            assert(edges.skip(i as int).drop_first() =~= edges.skip(i + 1));
            if self.edge_label(p, i).allows(c) {
                return Some(self.edge_target(p, i));
            }
            i += 1;
        }
        None
    }

    /// Whether the automaton accepts `word`.
    pub fn run(&self, word: &str) -> (accepted: bool)
        ensures
            accepted == self@.dfa_accepts(word@),
    {
        if self.state_count() == 0 {
            return false;
        }
        let symbols = symbols_of(word);
        let mut current = self.start_index();
        let mut i: usize = 0;
        assert(word@.skip(0) =~= word@);
        while i < symbols.len()
            invariant
                symbols@ == word@,
                i <= symbols@.len(),
                self@.has_state(current as int),
                self@.accepts_from(current as int, word@.skip(i as int)) == self@.dfa_accepts(
                    word@,
                ),
            decreases symbols@.len() - i,
        {
            assert(word@.skip(i as int).drop_first() =~= word@.skip(i + 1));
            match self.next_state(current, symbols[i]) {
                Some(q) => {
                    current = q;
                },
                None => {
                    return false;
                },
            }
            i += 1;
        }
        self.is_final(current)
    }
}

} // verus!
