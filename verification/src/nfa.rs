//! Reading a word nondeterministically: active state sets, their closure
//! under `Epsilon` edges, and acceptance.

use crate::automaton::{Automaton, NonDeterministic, StateId, Transition};
use crate::language::Pick;
use crate::state_set::StateSet;
use crate::text::symbols_of;
use vstd::prelude::*;

verus! {

/// Whether `sel` picks an edge of class `label`.
fn picks(sel: Pick, label: &Transition) -> (picked: bool)
    ensures
        picked == crate::language::picks(sel, label@),
{
    match sel {
        Pick::Admits(c) => label.allows(c),
        Pick::Reads(c) => match label {
            Transition::Is(d) => *d == c,
            Transition::Star => true,
            _ => false,
        },
        Pick::Wild => label.is_star(),
    }
}

impl<T> Automaton<T> {
    /// All states that an edge picked by `sel` leads to from a state of `from`.
    pub(crate) fn targets(&self, from: &StateSet, sel: Pick) -> (reached: StateSet)
        requires
            from.capacity() == self@.states.len(),
        ensures
            reached.capacity() == self@.states.len(),
            reached@ == self@.targets(from@, sel),
    {
        let n = self.state_count();
        let mut reached = StateSet::new(n);
        let mut p: usize = 0;
        while p < n
            invariant
                n == self@.states.len(),
                from.capacity() == n,
                reached.capacity() == n,
                p <= n,
                reached@.subset_of(self@.targets(from@, sel)),
                forall|o: int, q: int|
                    0 <= o < p && from@.contains(o) && #[trigger] self@.picked_edge(o, sel, q)
                        ==> reached@.contains(q),
            decreases n - p,
        {
            if from.contains(p) {
                let m = self.edge_count(p);
                let mut i: usize = 0;
                while i < m
                    invariant
                        n == self@.states.len(),
                        reached.capacity() == n,
                        p < n,
                        from@.contains(p as int),
                        m == self@.states[p as int].len(),
                        i <= m,
                        reached@.subset_of(self@.targets(from@, sel)),
                        forall|o: int, q: int|
                            0 <= o < p && from@.contains(o) && #[trigger] self@.picked_edge(
                                o,
                                sel,
                                q,
                            ) ==> reached@.contains(q),
                        forall|j: int|
                            0 <= j < i && crate::language::picks(
                                sel,
                                (#[trigger] self@.states[p as int][j]).label,
                            ) ==> reached@.contains(self@.states[p as int][j].target),
                    decreases m - i,
                {
                    if picks(sel, self.edge_label(p, i)) {
                        let q = self.edge_target(p, i);
                        reached.insert(q);
                        assert(self@.picked_edge(p as int, sel, q as int));
                    }
                    i += 1;
                }
            }
            p += 1;
        }
        proof {
            from.lemma_bounded();
            assert(reached@ =~= self@.targets(from@, sel));
        }
        reached
    }
}

impl Automaton<NonDeterministic> {
    /// Appends an edge from `from` to `to`.
    pub fn add_transition(&mut self, from: StateId, to: StateId, transition: Transition)
        requires
            old(self)@.has_state(from@),
            old(self)@.has_state(to@),
        ensures
            final(self)@ == old(self)@.with_edge(from@, transition@, to@),
    {
        self._add_transition(from, to, transition);
    }

    /// Adds to `new_states` every state reachable from `current_state` by
    /// `Epsilon` edges through states that were absent on entry.
    ///
    /// Afterwards every `Epsilon` edge out of `current_state`, and out of
    /// each state added by the call, leads into `new_states`. `within` is a
    /// set closed under `Epsilon` edges that the call does not leave.
    fn add_eps_states(
        &self,
        new_states: &mut StateSet,
        current_state: usize,
        Ghost(within): Ghost<Set<int>>,
    )
        requires
            self@.has_state(current_state as int),
            old(new_states).capacity() == self@.states.len(),
            old(new_states)@.contains(current_state as int),
            old(new_states)@.subset_of(within),
            forall|a: int, b: int|
                within.contains(a) && #[trigger] self@.eps_edge(a, b) ==> within.contains(b),
        ensures
            final(new_states).capacity() == old(new_states).capacity(),
            old(new_states)@.subset_of(final(new_states)@),
            final(new_states)@.subset_of(within),
            forall|a: int, b: int|
                (a == current_state || (final(new_states)@.contains(a)
                    && !old(new_states)@.contains(a))) && #[trigger] self@.eps_edge(a, b)
                    ==> final(new_states)@.contains(b),
        decreases self@.states.len() - old(new_states)@.len(),
    {
        let m = self.edge_count(current_state);
        let ghost before = new_states@;
        let mut i: usize = 0;
        proof {
            new_states.lemma_bounded();
        }
        while i < m
            invariant
                self@.has_state(current_state as int),
                m == self@.states[current_state as int].len(),
                i <= m,
                new_states.capacity() == self@.states.len(),
                before == old(new_states)@,
                before.finite(),
                before.subset_of(new_states@),
                new_states@.subset_of(within),
                before.contains(current_state as int),
                forall|a: int, b: int|
                    within.contains(a) && #[trigger] self@.eps_edge(a, b) ==> within.contains(b),
                forall|a: int, b: int|
                    new_states@.contains(a) && !before.contains(a) && #[trigger] self@.eps_edge(
                        a,
                        b,
                    ) ==> new_states@.contains(b),
                forall|j: int|
                    0 <= j < i && (#[trigger] self@.states[current_state as int][j]).label
                        is Epsilon ==> new_states@.contains(
                        self@.states[current_state as int][j].target,
                    ),
            decreases m - i,
        {
            if self.edge_label(current_state, i).is_epsilon() {
                let s = self.edge_target(current_state, i);
                let ghost grown = new_states@;
                proof {
                    new_states.lemma_bounded();
                    assert(self@.eps_edge(current_state as int, s as int));
                    vstd::set_lib::lemma_len_subset(before, grown);
                }
                if new_states.insert(s) {
                    let ghost entered = new_states@;
                    proof {
                        new_states.lemma_bounded();
                    }
                    self.add_eps_states(new_states, s, Ghost(within));
                    proof {
                        assert forall|a: int, b: int|
                            new_states@.contains(a) && !before.contains(a)
                                && #[trigger] self@.eps_edge(a, b) implies new_states@.contains(
                            b,
                        ) by {
                            if a != s && entered.contains(a) {
                                assert(grown.contains(a));
                            }
                        }
                    }
                }
            }
            i += 1;
        }
    }

    /// All states reachable from a state of `states` by `Epsilon` edges alone.
    pub(crate) fn eps_closure(&self, states: StateSet) -> (closed: StateSet)
        requires
            states.capacity() == self@.states.len(),
        ensures
            closed.capacity() == self@.states.len(),
            closed@ == self@.closure(states@),
    {
        let n = self.state_count();
        let ghost seed = states@;
        let ghost within = self@.closure(seed);
        let mut new_states = states;
        proof {
            assert forall|o: int| seed.contains(o) implies within.contains(o) by {
                self@.lemma_closure_holds(seed, o);
            }
            assert forall|a: int, b: int|
                within.contains(a) && #[trigger] self@.eps_edge(a, b) implies within.contains(
                b,
            ) by {
                self@.lemma_closure_extends(seed, a, b);
            }
        }
        let mut p: usize = 0;
        while p < n
            invariant
                n == self@.states.len(),
                new_states.capacity() == n,
                p <= n,
                within == self@.closure(seed),
                seed.subset_of(new_states@),
                new_states@.subset_of(within),
                forall|a: int, b: int|
                    within.contains(a) && #[trigger] self@.eps_edge(a, b) ==> within.contains(b),
                forall|a: int, b: int|
                    new_states@.contains(a) && (a < p || !seed.contains(a))
                        && #[trigger] self@.eps_edge(a, b) ==> new_states@.contains(b),
            decreases n - p,
        {
            if new_states.contains(p) {
                let ghost entered = new_states@;
                self.add_eps_states(&mut new_states, p, Ghost(within));
                proof {
                    assert forall|a: int, b: int|
                        new_states@.contains(a) && (a < p + 1 || !seed.contains(a))
                            && #[trigger] self@.eps_edge(a, b) implies new_states@.contains(
                        b,
                    ) by {
                        if a != p && entered.contains(a) {
                            assert(entered.contains(b));
                        }
                    }
                }
            }
            p += 1;
        }
        proof {
            new_states.lemma_bounded();
            self@.lemma_closure_least(seed, new_states@);
            assert(new_states@ =~= self@.closure(seed));
        }
        new_states
    }

    /// Whether the automaton accepts `word`.
    pub fn run(&self, word: &str) -> (accepted: bool)
        ensures
            accepted == self@.nfa_accepts(word@),
    {
        let n = self.state_count();
        if n == 0 {
            return false;
        }
        let symbols = symbols_of(word);
        let mut start = StateSet::new(n);
        start.insert(self.start_index());
        assert(start@ =~= set![self@.start_state()]);
        let mut active_states = self.eps_closure(start);
        let mut i: usize = 0;
        assert(word@.skip(0) =~= word@);
        while i < symbols.len()
            invariant
                n == self@.states.len(),
                symbols@ == word@,
                i <= symbols@.len(),
                active_states.capacity() == n,
                self@.run_from(active_states@, word@.skip(i as int)) == self@.active(word@),
            decreases symbols@.len() - i,
        {
            let ghost rest = word@.skip(i as int);
            assert(rest.drop_first() =~= word@.skip(i + 1));
            let new_states = self.targets(&active_states, Pick::Admits(symbols[i]));
            if new_states.is_empty() {
                proof {
                    self@.lemma_closure_empty();
                    self@.lemma_run_from_empty(rest.drop_first());
                }
                return false;
            }
            active_states = self.eps_closure(new_states);
            i += 1;
        }
        assert(word@.skip(i as int) =~= Seq::<char>::empty());
        self.any_final(&active_states)
    }
}

impl<T> Automaton<T> {
    /// Whether `states` holds a final state.
    pub(crate) fn any_final(&self, states: &StateSet) -> (found: bool)
        requires
            states.capacity() == self@.states.len(),
        ensures
            found == self@.hits_final(states@),
    {
        let n = self.state_count();
        let mut p: usize = 0;
        while p < n
            invariant
                n == self@.states.len(),
                states.capacity() == n,
                p <= n,
                forall|q: int| 0 <= q < p ==> !(states@.contains(q) && self@.finals.contains(q)),
            decreases n - p,
        {
            if states.contains(p) && self.is_final(p) {
                return true;
            }
            p += 1;
        }
        proof {
            states.lemma_bounded();
        }
        false
    }
}

} // verus!
