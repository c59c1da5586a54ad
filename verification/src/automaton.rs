//! Finite automata over Unicode symbols: a state arena with symbolic
//! transition classes, in a nondeterministic and a deterministic flavour.

use crate::language::{AutomatonView, Edge, Label};
use std::marker::PhantomData;
use vstd::prelude::*;

verus! {

/// The identity of a state: its index in the arena that allocated it.
#[derive(Debug, Clone, Copy, PartialEq, Eq, Structural, Hash, PartialOrd, Ord)]
pub struct StateId(usize);

impl View for StateId {
    type V = int;

    closed spec fn view(&self) -> int {
        self.0 as int
    }
}

impl StateId {
    /// The identity of the state with the given index.
    pub(crate) fn from_index(index: usize) -> (id: StateId)
        ensures
            id@ == index,
    {
        StateId(index)
    }

    /// The index of the state.
    pub(crate) fn index(&self) -> (index: usize)
        ensures
            index == self@,
    {
        self.0
    }
}

/// A class of symbols carried by an edge.
#[derive(Debug)]
pub enum Transition {
    /// Exactly this symbol.
    Is(char),
    /// Every symbol that is not listed.
    IsNot(Vec<char>),
    /// Every symbol.
    Star,
    /// No symbol: taken without reading input.
    Epsilon,
}

impl View for Transition {
    type V = Label;

    open spec fn view(&self) -> Label {
        match self {
            Transition::Is(c) => Label::Is(*c),
            Transition::IsNot(cs) => Label::IsNot(cs@.to_set()),
            Transition::Star => Label::Star,
            Transition::Epsilon => Label::Epsilon,
        }
    }
}

/// Whether `c` occurs in `cs`.
pub(crate) fn listed(cs: &Vec<char>, c: char) -> (found: bool)
    ensures
        found == cs@.to_set().contains(c),
{
    let mut i: usize = 0;
    while i < cs.len()
        invariant
            i <= cs.len(),
            forall|j: int| 0 <= j < i ==> cs@[j] != c,
        decreases cs.len() - i,
    {
        if cs[i] == c {
            return true;
        }
        i += 1;
    }
    false
}

impl Clone for Transition {
    fn clone(&self) -> (copy: Self)
        ensures
            copy@ == self@,
    {
        match self {
            Self::Is(c) => Self::Is(*c),
            Self::IsNot(cs) => {
                let mut listed: Vec<char> = Vec::new();
                let mut i: usize = 0;
                while i < cs.len()
                    invariant
                        i <= cs@.len(),
                        listed@ == cs@.take(i as int),
                    decreases cs@.len() - i,
                {
                    listed.push(cs[i]);
                    assert(cs@.take(i as int).push(cs@[i as int]) =~= cs@.take(i + 1));
                    i += 1;
                }
                assert(cs@.take(cs@.len() as int) =~= cs@);
                assert(listed@ =~= cs@);
                Self::IsNot(listed)
            },
            Self::Star => Self::Star,
            Self::Epsilon => Self::Epsilon,
        }
    }
}

impl Transition {
    /// Whether the class admits the symbol `c`.
    pub fn allows(&self, c: char) -> (admitted: bool)
        ensures
            admitted == self@.allows(c),
    {
        match self {
            Self::Is(cc) => c == *cc,
            Self::IsNot(cs) => !listed(cs, c),
            Self::Star => true,
            Self::Epsilon => false,
        }
    }

    /// Whether the class is `Epsilon`.
    pub fn is_epsilon(&self) -> (yes: bool)
        ensures
            yes == (self@ is Epsilon),
    {
        matches!(self, Self::Epsilon)
    }

    /// Whether the class is `Star`.
    pub fn is_star(&self) -> (yes: bool)
        ensures
            yes == (self@ is Star),
    {
        matches!(self, Self::Star)
    }

    /// The symbol read along a pair of edges in a product walk: defined
    /// where one class names a single symbol that the other admits.
    pub fn merge(&self, other: &Transition) -> (symbol: Option<char>)
        ensures
            symbol == self@.merge(other@),
    {
        match self {
            Self::Is(c) => if other.allows(*c) {
                Some(*c)
            } else {
                None
            },
            _ => match other {
                Self::Is(c) => if self.allows(*c) {
                    Some(*c)
                } else {
                    None
                },
                _ => None,
            },
        }
    }
}

/// A state: its outgoing edges in the order they were added.
#[derive(Debug)]
pub struct State {
    transitions: Vec<(Transition, StateId)>,
    accepting: bool,
}

impl View for State {
    type V = Seq<Edge>;

    closed spec fn view(&self) -> Seq<Edge> {
        Seq::new(
            self.transitions@.len(),
            |i: int| Edge { label: self.transitions@[i].0@, target: self.transitions@[i].1@ },
        )
    }
}

impl Clone for State {
    fn clone(&self) -> (copy: Self)
        ensures
            copy@ == self@,
            copy.is_final() == self.is_final(),
    {
        let mut transitions: Vec<(Transition, StateId)> = Vec::new();
        let mut i: usize = 0;
        while i < self.transitions.len()
            invariant
                i <= self.transitions@.len(),
                transitions@.len() == i,
                forall|j: int|
                    0 <= j < i ==> (#[trigger] transitions@[j]).0@ == self.transitions@[j].0@
                        && transitions@[j].1 == self.transitions@[j].1,
            decreases self.transitions@.len() - i,
        {
            let edge = &self.transitions[i];
            transitions.push((edge.0.clone(), edge.1));
            i += 1;
        }
        let copy = State { transitions, accepting: self.accepting };
        assert(copy@ =~= self@);
        copy
    }
}

impl State {
    /// Whether the state is final.
    pub closed spec fn is_final(&self) -> bool {
        self.accepting
    }

    fn new() -> (state: State)
        ensures
            state@ == Seq::<Edge>::empty(),
            !state.accepting,
    {
        let state = Self { transitions: Vec::new(), accepting: false };
        assert(state@ =~= Seq::<Edge>::empty());
        state
    }
}

/// Marks an automaton that may hold `Epsilon` edges and several edges per symbol.
#[derive(Debug)]
pub enum NonDeterministic {
    Marker,
}

/// Marks an automaton that is read one edge per symbol.
#[derive(Debug)]
pub enum Deterministic {
    Marker,
}

/// An arena of states with a start state and a set of final states.
#[derive(Debug)]
pub struct Automaton<T> {
    states: Vec<State>,
    start: Option<StateId>,
    _determinism_marker: PhantomData<T>,
}

/// The automaton that an arena of states and a start state stand for.
pub closed spec fn arena_view(states: Seq<State>, start: Option<StateId>) -> AutomatonView {
    AutomatonView {
        states: Seq::new(states.len(), |p: int| states[p]@),
        start: match start {
            Some(s) => Some(s@),
            None => None,
        },
        finals: Set::new(|q: int| 0 <= q < states.len() && states[q].accepting),
    }
}

impl<T> View for Automaton<T> {
    type V = AutomatonView;

    closed spec fn view(&self) -> AutomatonView {
        arena_view(self.states@, self.start)
    }
}

impl<T> Default for Automaton<T> {
    /// The automaton without states.
    fn default() -> (automaton: Self)
        ensures
            automaton@ == AutomatonView::empty(),
    {
        let automaton = Self {
            states: Vec::new(),
            start: None,
            _determinism_marker: PhantomData,
        };
        assert(automaton@.states =~= Seq::empty());
        assert(automaton@.finals =~= Set::empty());
        automaton
    }
}

impl<T> Clone for Automaton<T> {
    fn clone(&self) -> (copy: Self)
        ensures
            copy@ == self@,
    {
        proof {
            use_type_invariant(self);
        }
        let mut states: Vec<State> = Vec::new();
        let mut p: usize = 0;
        while p < self.states.len()
            invariant
                p <= self.states@.len(),
                states@.len() == p,
                forall|q: int|
                    0 <= q < p ==> (#[trigger] states@[q])@ == self.states@[q]@
                        && states@[q].accepting == self.states@[q].accepting,
            decreases self.states@.len() - p,
        {
            states.push(self.states[p].clone());
            p += 1;
        }
        proof {
            let copied = arena_view(states@, self.start);
            assert(copied.states =~= self@.states);
            assert(copied.finals =~= self@.finals);
        }
        Automaton { states, start: self.start, _determinism_marker: PhantomData }
    }
}

impl<T> Automaton<T> {
    /// Edges, the start state and the final states refer to allocated
    /// states: this holds of every automaton.
    #[verifier::type_invariant]
    pub open spec fn wf(&self) -> bool {
        self@.wf()
    }

    /// Allocates a state without edges and returns its identity.
    pub fn add_state(&mut self) -> (id: StateId)
        ensures
            id@ == old(self)@.states.len(),
            final(self)@ == (AutomatonView {
                states: old(self)@.states.push(Seq::empty()),
                ..old(self)@
            }),
    {
        proof {
            use_type_invariant(&*self);
        }
        let mut taken = Self::default();
        std::mem::swap(self, &mut taken);
        let Automaton { mut states, start, _determinism_marker } = taken;
        states.push(State::new());
        let id = StateId(states.len() - 1);
        proof {
            let grown = arena_view(states@, start);
            assert(grown.states =~= old(self)@.states.push(Seq::empty()));
            assert(grown.finals =~= old(self)@.finals);
            assert forall|p: int, i: int|
                0 <= p < grown.states.len() && 0 <= i < grown.states[p].len()
                implies grown.has_state(#[trigger] grown.states[p][i].target) by {
                assert(grown.states[p] == old(self)@.states[p]);
            }
        }
        *self = Automaton { states, start, _determinism_marker };
        id
    }

    /// Makes `index` the state that runs start in.
    pub fn set_start_state(&mut self, index: StateId)
        requires
            old(self)@.has_state(index@),
        ensures
            final(self)@ == (AutomatonView { start: Some(index@), ..old(self)@ }),
    {
        proof {
            use_type_invariant(&*self);
        }
        let mut taken = Self::default();
        std::mem::swap(self, &mut taken);
        let Automaton { states, start, _determinism_marker } = taken;
        *self = Automaton { states, start: Some(index), _determinism_marker };
    }

    /// Marks `index` final; marking a final state again changes nothing.
    pub fn make_state_final(&mut self, index: StateId)
        requires
            old(self)@.has_state(index@),
        ensures
            final(self)@ == (AutomatonView {
                finals: old(self)@.finals.insert(index@),
                ..old(self)@
            }),
    {
        proof {
            use_type_invariant(&*self);
        }
        let mut taken = Self::default();
        std::mem::swap(self, &mut taken);
        let Automaton { mut states, start, _determinism_marker } = taken;
        states[index.0].accepting = true;
        proof {
            let marked = arena_view(states@, start);
            assert(marked.states =~= old(self)@.states);
            assert(marked.finals =~= old(self)@.finals.insert(index@));
        }
        *self = Automaton { states, start, _determinism_marker };
    }

    /// Appends an edge to `from` without looking at the edges already there.
    pub(crate) fn _add_transition(&mut self, from: StateId, to: StateId, transition: Transition)
        requires
            old(self)@.has_state(from@),
            old(self)@.has_state(to@),
        ensures
            final(self)@ == old(self)@.with_edge(from@, transition@, to@),
    {
        let ghost edge = Edge { label: transition@, target: to@ };
        proof {
            use_type_invariant(&*self);
        }
        let mut taken = Self::default();
        std::mem::swap(self, &mut taken);
        let Automaton { mut states, start, _determinism_marker } = taken;
        states[from.0].transitions.push((transition, to));
        proof {
            let grown = arena_view(states@, start);
            assert(states@[from@]@ =~= old(self)@.states[from@].push(edge));
            assert(grown.states =~= old(self)@.states.update(
                from@,
                old(self)@.states[from@].push(edge),
            ));
            assert(grown.finals =~= old(self)@.finals);
            assert forall|p: int, i: int|
                0 <= p < grown.states.len() && 0 <= i < grown.states[p].len()
                implies grown.has_state(#[trigger] grown.states[p][i].target) by {
                if p == from@ && i == old(self)@.states[from@].len() {
                } else {
                    assert(grown.states[p][i] == old(self)@.states[p][i]);
                }
            }
        }
        *self = Automaton { states, start, _determinism_marker };
    }

    /// The number of allocated states.
    pub(crate) fn state_count(&self) -> (n: usize)
        ensures
            n == self@.states.len(),
    {
        self.states.len()
    }

    /// The state that runs start in; meaningful once a state is allocated.
    pub(crate) fn start_index(&self) -> (s: usize)
        ensures
            s == self@.start_state(),
            self@.states.len() > 0 ==> self@.has_state(s as int),
    {
        proof {
            use_type_invariant(self);
        }
        match self.start {
            Some(s) => s.0,
            None => 0,
        }
    }

    /// Whether the state `p` is final.
    pub(crate) fn is_final(&self, p: usize) -> (yes: bool)
        requires
            self@.has_state(p as int),
        ensures
            yes == self@.finals.contains(p as int),
    {
        self.states[p].accepting
    }

    /// The number of edges out of `p`.
    pub(crate) fn edge_count(&self, p: usize) -> (n: usize)
        requires
            self@.has_state(p as int),
        ensures
            n == self@.states[p as int].len(),
    {
        self.states[p].transitions.len()
    }

    /// The class of the `i`-th edge out of `p`.
    pub(crate) fn edge_label(&self, p: usize, i: usize) -> (label: &Transition)
        requires
            self@.has_state(p as int),
            i < self@.states[p as int].len(),
        ensures
            label@ == self@.states[p as int][i as int].label,
    {
        &self.states[p].transitions[i].0
    }

    /// The state that the `i`-th edge out of `p` leads to.
    pub(crate) fn edge_target(&self, p: usize, i: usize) -> (q: usize)
        requires
            self@.has_state(p as int),
            i < self@.states[p as int].len(),
        ensures
            q == self@.states[p as int][i as int].target,
            self@.has_state(q as int),
    {
        proof {
            use_type_invariant(self);
        }
        self.states[p].transitions[i].1.0
    }
}

} // verus!
