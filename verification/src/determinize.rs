//! The subset construction: from a nondeterministic automaton to a
//! deterministic one with the same language.
//!
//! A state of the result stands for the set of states that the source can
//! be in. Out of each such set leads one `Is` edge per symbol that an `Is`
//! edge of a member names, and one `IsNot` edge over those symbols for the
//! members' `Star` edges, so that the result stays finite over all of
//! Unicode. Negated classes are the result's way to say "any other symbol":
//! in the source they are passed over.

use crate::automaton::{Automaton, Deterministic, NonDeterministic, StateId, Transition};
use crate::language::{
    lemma_first_match_none, lemma_first_match_some, AutomatonView, Edge, Label, Pick,
};
use crate::state_set::StateSet;
use vstd::prelude::*;
use vstd::set_lib::*;

verus! {

// ---------------------------------------------------------------------------
// How many state sets there can be

/// Adds `n - 1` to a set.
pub open spec fn with_top(n: nat) -> spec_fn(Set<int>) -> Set<int> {
    |s: Set<int>| s.insert(n - 1)
}

/// All sets of naturals below `n`.
pub open spec fn all_subsets(n: nat) -> Set<Set<int>>
    decreases n,
{
    if n == 0 {
        set![Set::<int>::empty()]
    } else {
        all_subsets((n - 1) as nat).union(all_subsets((n - 1) as nat).map(with_top(n)))
    }
}

/// There are finitely many sets of naturals below `n`.
pub proof fn lemma_all_subsets_finite(n: nat)
    ensures
        all_subsets(n).finite(),
    decreases n,
{
    if n > 0 {
        lemma_all_subsets_finite((n - 1) as nat);
        all_subsets((n - 1) as nat).lemma_map_finite(with_top(n));
    }
}

/// Every set of naturals below `n` is among them.
pub proof fn lemma_all_subsets_holds(n: nat, s: Set<int>)
    requires
        forall|i: int| s.contains(i) ==> 0 <= i < n,
    ensures
        all_subsets(n).contains(s),
    decreases n,
{
    if n == 0 {
        assert(s =~= Set::<int>::empty());
    } else if s.contains(n - 1) {
        let t = s.remove(n - 1);
        lemma_all_subsets_holds((n - 1) as nat, t);
        assert(with_top(n)(t) =~= s);
        assert(all_subsets((n - 1) as nat).map(with_top(n)).contains(s));
    } else {
        lemma_all_subsets_holds((n - 1) as nat, s);
    }
}

/// The sets that a sequence of state sets stands for.
pub open spec fn sets_of(subsets: Seq<StateSet>) -> Seq<Set<int>> {
    Seq::new(subsets.len(), |j: int| subsets[j]@)
}

/// State sets of one capacity, no two of them equal.
pub open spec fn registry(n: nat, subsets: Seq<StateSet>) -> bool {
    &&& forall|j: int| 0 <= j < subsets.len() ==> (#[trigger] subsets[j]).capacity() == n
    &&& forall|j: int, k: int|
        0 <= j < k < subsets.len() ==> (#[trigger] subsets[j])@ != (#[trigger] subsets[k])@
}

/// There are no more distinct state sets than sets of states.
proof fn lemma_registry_bounded(n: nat, subsets: Seq<StateSet>)
    requires
        registry(n, subsets),
    ensures
        all_subsets(n).finite(),
        subsets.len() <= all_subsets(n).len(),
{
    let sets = sets_of(subsets);
    lemma_all_subsets_finite(n);
    assert forall|j: int, k: int|
        0 <= j < sets.len() && 0 <= k < sets.len() && j != k implies sets[j] != sets[k] by {
        if j < k {
            assert(subsets[j]@ != subsets[k]@);
        } else {
            assert(subsets[k]@ != subsets[j]@);
        }
    }
    assert(sets.no_duplicates());
    sets.unique_seq_to_set();
    assert forall|s: Set<int>| sets.to_set().contains(s) implies all_subsets(n).contains(s) by {
        let j = choose|j: int| 0 <= j < sets.len() && sets[j] == s;
        subsets[j].lemma_bounded();
        lemma_all_subsets_holds(n, s);
    }
    lemma_len_subset(sets.to_set(), all_subsets(n));
}

// ---------------------------------------------------------------------------
// What the construction maintains

/// Wherever `edge` is taken from the set `from`, it leads to the set of the
/// states that the source is in after the symbol read.
pub open spec fn edge_tracks(
    nfa: AutomatonView,
    sets: Seq<Set<int>>,
    from: Set<int>,
    edge: Edge,
) -> bool {
    forall|c: char| #[trigger]
        edge.label.allows(c) ==> 0 <= edge.target < sets.len()
            && sets[edge.target] == nfa.plain_advance(from, c)
}

/// A symbol that no edge admits leaves the source in no state.
pub open spec fn uncovered_dead(nfa: AutomatonView, from: Set<int>, edges: Seq<Edge>) -> bool {
    forall|c: char|
        (forall|k: int| 0 <= k < edges.len() ==> !(#[trigger] edges[k]).label.allows(c))
            ==> #[trigger] nfa.plain_advance(from, c) == Set::<int>::empty()
}

/// The edges out of `d` follow the source on every symbol.
pub open spec fn state_tracks(
    nfa: AutomatonView,
    dfa: AutomatonView,
    sets: Seq<Set<int>>,
    d: int,
) -> bool {
    &&& forall|k: int|
        0 <= k < dfa.states[d].len()
            ==> edge_tracks(nfa, sets, sets[d], #[trigger] dfa.states[d][k])
    &&& uncovered_dead(nfa, sets[d], dfa.states[d])
}

/// A deterministic automaton whose states follow the source accepts from a
/// state what the source accepts from the set the state stands for.
pub proof fn lemma_simulation(
    nfa: AutomatonView,
    dfa: AutomatonView,
    sets: Seq<Set<int>>,
    d: int,
    w: Seq<char>,
)
    requires
        sets.len() == dfa.states.len(),
        0 <= d < sets.len(),
        forall|j: int| 0 <= j < sets.len() ==> #[trigger] state_tracks(nfa, dfa, sets, j),
        forall|j: int|
            0 <= j < sets.len()
                ==> (dfa.finals.contains(j) <==> #[trigger] nfa.hits_final(sets[j])),
    ensures
        dfa.accepts_from(d, w) == nfa.hits_final(nfa.plain_run_from(sets[d], w)),
    decreases w.len(),
{
    if w.len() > 0 {
        let c = w[0];
        let edges = dfa.states[d];
        assert(state_tracks(nfa, dfa, sets, d));
        match dfa.next(d, c) {
            Some(e) => {
                lemma_first_match_some(edges, c);
                let k = choose|k: int|
                    0 <= k < edges.len() && (#[trigger] edges[k]).label.allows(c)
                        && crate::language::first_match(edges, c) == Some(edges[k].target);
                assert(edge_tracks(nfa, sets, sets[d], edges[k]));
                lemma_simulation(nfa, dfa, sets, e, w.drop_first());
            },
            None => {
                lemma_first_match_none(edges, c);
                assert(nfa.plain_advance(sets[d], c) == Set::<int>::empty());
                nfa.lemma_plain_run_from_empty(w.drop_first());
            },
        }
    }
}

impl AutomatonView {
    /// Some `Is` edge out of a state of `s` names `c`.
    pub open spec fn reads(self, s: Set<int>, c: char) -> bool {
        exists|p: int, k: int|
            s.contains(p) && self.has_state(p) && 0 <= k < self.states[p].len() && (
            #[trigger] self.states[p][k]).label == Label::Is(c)
    }

    /// A symbol that no `Is` edge names is read along the `Star` edges alone.
    pub proof fn lemma_unread_symbol(self, s: Set<int>, c: char)
        requires
            !self.reads(s, c),
        ensures
            self.targets(s, Pick::Reads(c)) == self.targets(s, Pick::Wild),
    {
        assert forall|q: int| self.targets(s, Pick::Reads(c)).contains(q) implies self.targets(
            s,
            Pick::Wild,
        ).contains(q) by {
            let p = choose|p: int|
                s.contains(p) && #[trigger] self.picked_edge(p, Pick::Reads(c), q);
            let k = choose|k: int|
                0 <= k < self.states[p].len() && crate::language::picks(
                    Pick::Reads(c),
                    (#[trigger] self.states[p][k]).label,
                ) && self.states[p][k].target == q;
            assert(self.states[p][k].label != Label::Is(c));
            assert(self.picked_edge(p, Pick::Wild, q));
        }
        assert forall|q: int| self.targets(s, Pick::Wild).contains(q) implies self.targets(
            s,
            Pick::Reads(c),
        ).contains(q) by {
            let p = choose|p: int| s.contains(p) && #[trigger] self.picked_edge(p, Pick::Wild, q);
            let k = choose|k: int|
                0 <= k < self.states[p].len() && crate::language::picks(
                    Pick::Wild,
                    (#[trigger] self.states[p][k]).label,
                ) && self.states[p][k].target == q;
            assert(self.picked_edge(p, Pick::Reads(c), q));
        }
        assert(self.targets(s, Pick::Reads(c)) =~= self.targets(s, Pick::Wild));
    }

    /// The deterministic reading of `dfa` accepts what this automaton
    /// accepts with its negated classes passed over.
    pub open spec fn plainly_determinized_by(self, dfa: AutomatonView) -> bool {
        forall|w: Seq<char>| #[trigger] dfa.dfa_accepts(w) == self.plain_accepts(w)
    }

    /// The deterministic reading of `dfa` accepts what the nondeterministic
    /// reading of this automaton accepts.
    pub open spec fn determinized_by(self, dfa: AutomatonView) -> bool {
        forall|w: Seq<char>| #[trigger] dfa.dfa_accepts(w) == self.nfa_accepts(w)
    }
}

// ---------------------------------------------------------------------------
// The construction

/// What holds of the result under construction whatever has been expanded:
/// one state per registered set, the first one for the source's initial
/// states, no final state yet, and no two edges sharing a symbol.
pub open spec fn framed(nfa: AutomatonView, dfa: AutomatonView, subsets: Seq<StateSet>) -> bool {
    &&& nfa.wf()
    &&& dfa.wf()
    &&& nfa.states.len() > 0
    &&& subsets.len() > 0
    &&& dfa.states.len() == subsets.len()
    &&& registry(nfa.states.len(), subsets)
    &&& subsets[0]@ == nfa.initial()
    &&& dfa.start is None
    &&& dfa.finals == Set::<int>::empty()
    &&& dfa.deterministic()
    &&& dfa.dispatching()
}

/// The states below `done` follow the source.
pub open spec fn tracked_below(
    nfa: AutomatonView,
    dfa: AutomatonView,
    subsets: Seq<StateSet>,
    done: int,
) -> bool {
    forall|j: int| 0 <= j < done ==> #[trigger] state_tracks(nfa, dfa, sets_of(subsets), j)
}

/// The states from `from` on have no edges yet.
pub open spec fn bare_from(dfa: AutomatonView, from: int) -> bool {
    forall|j: int| from <= j < dfa.states.len() ==> (#[trigger] dfa.states[j]).len() == 0
}

/// The registry and the result are as before, or hold one more set and one
/// more state without edges.
pub open spec fn grown(
    before: Seq<StateSet>,
    after: Seq<StateSet>,
    dfa_before: AutomatonView,
    dfa_after: AutomatonView,
) -> bool {
    ||| after == before && dfa_after == dfa_before
    ||| {
        &&& after.len() == before.len() + 1
        &&& after.take(before.len() as int) == before
        &&& dfa_after == (AutomatonView {
            states: dfa_before.states.push(Seq::empty()),
            ..dfa_before
        })
    }
}

/// A state that follows the source still does once sets are registered
/// behind the known ones and other states change.
proof fn lemma_tracks_stable(
    nfa: AutomatonView,
    dfa: AutomatonView,
    sets: Seq<Set<int>>,
    dfa2: AutomatonView,
    sets2: Seq<Set<int>>,
    j: int,
)
    requires
        state_tracks(nfa, dfa, sets, j),
        0 <= j < sets.len() <= sets2.len(),
        forall|k: int| 0 <= k < sets.len() ==> sets2[k] == sets[k],
        dfa2.states[j] == dfa.states[j],
    ensures
        state_tracks(nfa, dfa2, sets2, j),
{
    assert forall|k: int| 0 <= k < dfa2.states[j].len() implies edge_tracks(
        nfa,
        sets2,
        sets2[j],
        #[trigger] dfa2.states[j][k],
    ) by {
        assert(edge_tracks(nfa, sets, sets[j], dfa.states[j][k]));
    }
}

/// Some edge of `edges` names exactly `c`.
pub open spec fn names(edges: Seq<Edge>, c: char) -> bool {
    exists|k: int| 0 <= k < edges.len() && (#[trigger] edges[k]).label == Label::Is(c)
}

/// `label` names one of the first `upto` symbols of `symbols`.
pub open spec fn among(symbols: Seq<char>, upto: int, label: Label) -> bool {
    exists|t: int| 0 <= t < upto && label == Label::Is(#[trigger] symbols[t])
}

/// The edges out of the state under expansion once the first `upto` symbols
/// are done: each names one of them and follows the source, and a symbol
/// among them without an edge leaves the source in no state.
pub open spec fn part_expanded(
    nfa: AutomatonView,
    edges: Seq<Edge>,
    sets: Seq<Set<int>>,
    from: Set<int>,
    symbols: Seq<char>,
    upto: int,
) -> bool {
    &&& forall|k: int| 0 <= k < edges.len() ==> among(symbols, upto, (#[trigger] edges[k]).label)
    &&& forall|k: int| 0 <= k < edges.len() ==> edge_tracks(nfa, sets, from, #[trigger] edges[k])
    &&& forall|t: int|
        0 <= t < upto ==> names(edges, #[trigger] symbols[t]) || nfa.plain_advance(from, symbols[t])
            == Set::<int>::empty()
}

/// Registering a set keeps what the construction maintains.
proof fn lemma_step_grown(
    nfa: AutomatonView,
    dfa0: AutomatonView,
    subs0: Seq<StateSet>,
    dfa1: AutomatonView,
    subs1: Seq<StateSet>,
    i: int,
    symbols: Seq<char>,
    upto: int,
)
    requires
        0 <= i < subs0.len(),
        framed(nfa, dfa0, subs0),
        tracked_below(nfa, dfa0, subs0, i),
        bare_from(dfa0, i + 1),
        part_expanded(nfa, dfa0.states[i], sets_of(subs0), subs0[i]@, symbols, upto),
        grown(subs0, subs1, dfa0, dfa1),
        registry(nfa.states.len(), subs1),
    ensures
        framed(nfa, dfa1, subs1),
        tracked_below(nfa, dfa1, subs1, i),
        bare_from(dfa1, i + 1),
        part_expanded(nfa, dfa1.states[i], sets_of(subs1), subs1[i]@, symbols, upto),
        subs1[i] == subs0[i],
        dfa1.states[i] == dfa0.states[i],
{
    if subs1 != subs0 {
        let n0 = subs0.len() as int;
        assert forall|k: int| 0 <= k < n0 implies subs1[k] == subs0[k] by {
            assert(subs1.take(n0)[k] == subs0[k]);
        }
        assert forall|p: int, k: int|
            0 <= p < dfa1.states.len() && 0 <= k < dfa1.states[p].len() implies dfa1.has_state(
            (#[trigger] dfa1.states[p][k]).target,
        ) && (dfa1.states[p][k].label is Is || dfa1.states[p][k].label is IsNot) by {
            assert(dfa1.states[p] == dfa0.states[p]);
            assert(dfa0.has_state(dfa0.states[p][k].target));
        }
        assert forall|p: int, a: int, b: int|
            0 <= p < dfa1.states.len() && 0 <= a < dfa1.states[p].len() && 0 <= b
                < dfa1.states[p].len() && a != b implies !(#[trigger] dfa1.states[p][a]).label.overlaps(
            (#[trigger] dfa1.states[p][b]).label,
        ) by {
            assert(dfa1.states[p] == dfa0.states[p]);
        }
        assert forall|j: int| 0 <= j < i implies #[trigger] state_tracks(
            nfa,
            dfa1,
            sets_of(subs1),
            j,
        ) by {
            assert(state_tracks(nfa, dfa0, sets_of(subs0), j));
            lemma_tracks_stable(nfa, dfa0, sets_of(subs0), dfa1, sets_of(subs1), j);
        }
        let edges = dfa1.states[i];
        assert forall|k: int| 0 <= k < edges.len() implies edge_tracks(
            nfa,
            sets_of(subs1),
            subs1[i]@,
            #[trigger] edges[k],
        ) by {
            assert(edge_tracks(nfa, sets_of(subs0), subs0[i]@, edges[k]));
        }
        assert forall|j: int|
            i + 1 <= j < dfa1.states.len() implies (#[trigger] dfa1.states[j]).len() == 0 by {
            if j < n0 {
                assert(dfa1.states[j] == dfa0.states[j]);
            }
        }
    }
}

/// An edge out of the state under expansion that clashes with none there
/// and leads to a registered set keeps what the construction maintains.
proof fn lemma_step_edge(
    nfa: AutomatonView,
    dfa1: AutomatonView,
    subs: Seq<StateSet>,
    i: int,
    label: Label,
    to: int,
)
    requires
        0 <= i < subs.len(),
        0 <= to < subs.len(),
        framed(nfa, dfa1, subs),
        tracked_below(nfa, dfa1, subs, i),
        bare_from(dfa1, i + 1),
        !dfa1.clashes(i, label),
        label is Is || label is IsNot,
    ensures
        framed(nfa, dfa1.with_edge(i, label, to), subs),
        tracked_below(nfa, dfa1.with_edge(i, label, to), subs, i),
        bare_from(dfa1.with_edge(i, label, to), i + 1),
        dfa1.with_edge(i, label, to).states[i] == dfa1.states[i].push(
            Edge { label, target: to },
        ),
{
    let dfa2 = dfa1.with_edge(i, label, to);
    dfa1.lemma_with_edge_deterministic(i, label, to);
    assert forall|p: int, k: int|
        0 <= p < dfa2.states.len() && 0 <= k < dfa2.states[p].len() implies dfa2.has_state(
        (#[trigger] dfa2.states[p][k]).target,
    ) && (dfa2.states[p][k].label is Is || dfa2.states[p][k].label is IsNot) by {
        if p == i && k == dfa1.states[i].len() {
        } else {
            assert(dfa2.states[p][k] == dfa1.states[p][k]);
            assert(dfa1.has_state(dfa1.states[p][k].target));
        }
    }
    assert forall|j: int| 0 <= j < i implies #[trigger] state_tracks(
        nfa,
        dfa2,
        sets_of(subs),
        j,
    ) by {
        assert(state_tracks(nfa, dfa1, sets_of(subs), j));
        lemma_tracks_stable(nfa, dfa1, sets_of(subs), dfa2, sets_of(subs), j);
    }
    assert forall|j: int| i + 1 <= j < dfa2.states.len() implies (#[trigger] dfa2.states[j]).len()
        == 0 by {
        assert(dfa2.states[j] == dfa1.states[j]);
    }
}

/// The edge for one more symbol keeps what the construction maintains.
proof fn lemma_symbol_edge(
    nfa: AutomatonView,
    dfa1: AutomatonView,
    subs: Seq<StateSet>,
    i: int,
    symbols: Seq<char>,
    upto: int,
    c: char,
    to: int,
)
    requires
        c == symbols[upto],
        0 <= i < subs.len(),
        0 <= to < subs.len(),
        0 <= upto < symbols.len(),
        symbols.no_duplicates(),
        framed(nfa, dfa1, subs),
        tracked_below(nfa, dfa1, subs, i),
        bare_from(dfa1, i + 1),
        part_expanded(nfa, dfa1.states[i], sets_of(subs), subs[i]@, symbols, upto),
        subs[to]@ == nfa.closure(nfa.targets(subs[i]@, Pick::Reads(c))),
    ensures
        framed(nfa, dfa1.with_edge(i, Label::Is(c), to), subs),
        tracked_below(nfa, dfa1.with_edge(i, Label::Is(c), to), subs, i),
        bare_from(dfa1.with_edge(i, Label::Is(c), to), i + 1),
        part_expanded(
            nfa,
            dfa1.with_edge(i, Label::Is(c), to).states[i],
            sets_of(subs),
            subs[i]@,
            symbols,
            upto + 1,
        ),
{
    let label = Label::Is(c);
    let edges = dfa1.states[i];
    let sets = sets_of(subs);
    let from = subs[i]@;
    let edge = Edge { label, target: to };
    assert forall|k: int| 0 <= k < edges.len() implies !(#[trigger] edges[k]).label.overlaps(
        label,
    ) by {
        assert(among(symbols, upto, edges[k].label));
    }
    lemma_step_edge(nfa, dfa1, subs, i, label, to);
    let grown_edges = edges.push(edge);
    assert forall|k: int| 0 <= k < grown_edges.len() implies among(
        symbols,
        upto + 1,
        (#[trigger] grown_edges[k]).label,
    ) by {
        if k < edges.len() {
            assert(among(symbols, upto, edges[k].label));
            let t = choose|t: int|
                0 <= t < upto && edges[k].label == Label::Is(#[trigger] symbols[t]);
            assert(edges[k].label == Label::Is(symbols[t]));
        } else {
            assert(grown_edges[k].label == Label::Is(c));
        }
    }
    assert forall|k: int| 0 <= k < grown_edges.len() implies edge_tracks(
        nfa,
        sets,
        from,
        #[trigger] grown_edges[k],
    ) by {
        if k < edges.len() {
            assert(edge_tracks(nfa, sets, from, edges[k]));
        }
    }
    assert forall|t: int| 0 <= t < upto + 1 implies names(grown_edges, #[trigger] symbols[t])
        || nfa.plain_advance(from, symbols[t]) == Set::<int>::empty() by {
        if t < upto {
            if names(edges, symbols[t]) {
                let k = choose|k: int|
                    0 <= k < edges.len() && (#[trigger] edges[k]).label == Label::Is(symbols[t]);
                assert(grown_edges[k].label == Label::Is(symbols[t]));
            }
        } else {
            assert(grown_edges[edges.len() as int].label == Label::Is(c));
        }
    }
}

/// A symbol that leads nowhere needs no edge.
proof fn lemma_symbol_dead(
    nfa: AutomatonView,
    edges: Seq<Edge>,
    sets: Seq<Set<int>>,
    from: Set<int>,
    symbols: Seq<char>,
    upto: int,
)
    requires
        0 <= upto < symbols.len(),
        part_expanded(nfa, edges, sets, from, symbols, upto),
        nfa.targets(from, Pick::Reads(symbols[upto])) == Set::<int>::empty(),
    ensures
        part_expanded(nfa, edges, sets, from, symbols, upto + 1),
{
    nfa.lemma_closure_empty();
    assert forall|k: int| 0 <= k < edges.len() implies among(
        symbols,
        upto + 1,
        (#[trigger] edges[k]).label,
    ) by {
        assert(among(symbols, upto, edges[k].label));
        let t = choose|t: int| 0 <= t < upto && edges[k].label == Label::Is(#[trigger] symbols[t]);
        assert(edges[k].label == Label::Is(symbols[t]));
    }
}

/// A symbol that no edge of a fully expanded state admits, and that is
/// named, leaves the source in no state.
proof fn lemma_named_dead(
    nfa: AutomatonView,
    edges: Seq<Edge>,
    sets: Seq<Set<int>>,
    from: Set<int>,
    symbols: Seq<char>,
    x: char,
)
    requires
        part_expanded(nfa, edges, sets, from, symbols, symbols.len() as int),
        symbols.contains(x),
        forall|k: int| 0 <= k < edges.len() ==> !(#[trigger] edges[k]).label.allows(x),
    ensures
        nfa.plain_advance(from, x) == Set::<int>::empty(),
{
    let t = choose|t: int| 0 <= t < symbols.len() && symbols[t] == x;
    assert(names(edges, symbols[t]) || nfa.plain_advance(from, symbols[t]) == Set::<int>::empty());
    if names(edges, x) {
        let k = choose|k: int| 0 <= k < edges.len() && (#[trigger] edges[k]).label == Label::Is(x);
        assert(edges[k].label.allows(x));
    }
}

/// The edge for all other symbols completes the state under expansion.
proof fn lemma_default_edge(
    nfa: AutomatonView,
    dfa1: AutomatonView,
    subs: Seq<StateSet>,
    i: int,
    symbols: Seq<char>,
    to: int,
)
    requires
        0 <= i < subs.len(),
        0 <= to < subs.len(),
        framed(nfa, dfa1, subs),
        tracked_below(nfa, dfa1, subs, i),
        bare_from(dfa1, i + 1),
        part_expanded(nfa, dfa1.states[i], sets_of(subs), subs[i]@, symbols, symbols.len() as int),
        forall|c: char| symbols.contains(c) <==> nfa.reads(subs[i]@, c),
        subs[to]@ == nfa.closure(nfa.targets(subs[i]@, Pick::Wild)),
    ensures
        framed(nfa, dfa1.with_edge(i, Label::IsNot(symbols.to_set()), to), subs),
        tracked_below(nfa, dfa1.with_edge(i, Label::IsNot(symbols.to_set()), to), subs, i + 1),
        bare_from(dfa1.with_edge(i, Label::IsNot(symbols.to_set()), to), i + 1),
{
    let label = Label::IsNot(symbols.to_set());
    let edges = dfa1.states[i];
    let sets = sets_of(subs);
    let from = subs[i]@;
    let edge = Edge { label, target: to };
    let dfa2 = dfa1.with_edge(i, label, to);
    assert forall|k: int| 0 <= k < edges.len() implies !(#[trigger] edges[k]).label.overlaps(
        label,
    ) by {
        assert(among(symbols, symbols.len() as int, edges[k].label));
        let t = choose|t: int|
            0 <= t < symbols.len() && edges[k].label == Label::Is(#[trigger] symbols[t]);
        assert(symbols.to_set().contains(symbols[t]));
    }
    lemma_step_edge(nfa, dfa1, subs, i, label, to);
    let grown_edges = edges.push(edge);
    assert forall|k: int| 0 <= k < grown_edges.len() implies edge_tracks(
        nfa,
        sets,
        from,
        #[trigger] grown_edges[k],
    ) by {
        if k < edges.len() {
            assert(edge_tracks(nfa, sets, from, edges[k]));
        } else {
            assert forall|x: char| #[trigger] grown_edges[k].label.allows(x) implies sets[to]
                == nfa.plain_advance(from, x) by {
                assert(!symbols.contains(x));
                nfa.lemma_unread_symbol(from, x);
            }
        }
    }
    assert forall|x: char|
        (forall|k: int| 0 <= k < grown_edges.len() ==> !(#[trigger] grown_edges[k]).label.allows(x))
        implies #[trigger] nfa.plain_advance(from, x) == Set::<int>::empty() by {
        if symbols.contains(x) {
            assert forall|k: int| 0 <= k < edges.len() implies !(#[trigger] edges[k]).label.allows(
                x,
            ) by {
                assert(grown_edges[k] == edges[k]);
            }
            lemma_named_dead(nfa, edges, sets, from, symbols, x);
        } else {
            assert(grown_edges[edges.len() as int].label.allows(x));
        }
    }
    assert(state_tracks(nfa, dfa2, sets, i));
}

/// Without `Star` edges a fully expanded state is complete.
proof fn lemma_default_dead(
    nfa: AutomatonView,
    dfa1: AutomatonView,
    subs: Seq<StateSet>,
    i: int,
    symbols: Seq<char>,
)
    requires
        0 <= i < subs.len(),
        framed(nfa, dfa1, subs),
        tracked_below(nfa, dfa1, subs, i),
        part_expanded(nfa, dfa1.states[i], sets_of(subs), subs[i]@, symbols, symbols.len() as int),
        forall|c: char| symbols.contains(c) <==> nfa.reads(subs[i]@, c),
        nfa.targets(subs[i]@, Pick::Wild) == Set::<int>::empty(),
    ensures
        tracked_below(nfa, dfa1, subs, i + 1),
{
    let edges = dfa1.states[i];
    let sets = sets_of(subs);
    let from = subs[i]@;
    nfa.lemma_closure_empty();
    assert forall|x: char|
        (forall|k: int| 0 <= k < edges.len() ==> !(#[trigger] edges[k]).label.allows(x))
        implies #[trigger] nfa.plain_advance(from, x) == Set::<int>::empty() by {
        if symbols.contains(x) {
            lemma_named_dead(nfa, edges, sets, from, symbols, x);
        } else {
            nfa.lemma_unread_symbol(from, x);
        }
    }
    assert(state_tracks(nfa, dfa1, sets, i));
}

/// The index of `set` in the registry, which gets it, and the result a
/// state for it, where it is new.
fn locate(dfa: &mut Automaton<Deterministic>, subsets: &mut Vec<StateSet>, set: StateSet) -> (d:
    usize)
    requires
        old(dfa)@.states.len() == old(subsets)@.len(),
        registry(set.capacity(), old(subsets)@),
    ensures
        registry(set.capacity(), final(subsets)@),
        grown(old(subsets)@, final(subsets)@, old(dfa)@, final(dfa)@),
        d < final(subsets)@.len(),
        final(subsets)@[d as int]@ == set@,
{
    let mut j: usize = 0;
    while j < subsets.len()
        invariant
            j <= subsets@.len(),
            *subsets == *old(subsets),
            *dfa == *old(dfa),
            registry(set.capacity(), subsets@),
            forall|k: int| 0 <= k < j ==> (#[trigger] subsets@[k])@ != set@,
        decreases subsets@.len() - j,
    {
        if subsets[j].same_as(&set) {
            return j;
        }
        j += 1;
    }
    let ghost fresh = set;
    subsets.push(set);
    let id = dfa.add_state();
    proof {
        assert(subsets@.take(old(subsets)@.len() as int) =~= old(subsets)@);
        assert forall|a: int, b: int| 0 <= a < b < subsets@.len() implies (#[trigger] subsets@[a])@
            != (#[trigger] subsets@[b])@ by {
            if b < old(subsets)@.len() {
                assert(old(subsets)@[a]@ != old(subsets)@[b]@);
            } else {
                assert(old(subsets)@[a]@ != fresh@);
            }
        }
    }
    id.index()
}

impl Automaton<NonDeterministic> {
    /// The symbols that the `Is` edges out of the states of `subset` name,
    /// each once.
    fn symbols_out_of(&self, subset: &StateSet) -> (symbols: Vec<char>)
        requires
            subset.capacity() == self@.states.len(),
        ensures
            symbols@.no_duplicates(),
            forall|c: char| symbols@.contains(c) <==> self@.reads(subset@, c),
    {
        let n = self.state_count();
        let mut symbols: Vec<char> = Vec::new();
        let mut p: usize = 0;
        while p < n
            invariant
                n == self@.states.len(),
                subset.capacity() == n,
                p <= n,
                symbols@.no_duplicates(),
                forall|c: char| symbols@.contains(c) ==> self@.reads(subset@, c),
                forall|o: int, k: int|
                    0 <= o < p && subset@.contains(o) && 0 <= k < self@.states[o].len() && (
                    #[trigger] self@.states[o][k]).label is Is ==> symbols@.contains(
                        self@.states[o][k].label->Is_0,
                    ),
            decreases n - p,
        {
            if subset.contains(p) {
                let m = self.edge_count(p);
                let mut i: usize = 0;
                while i < m
                    invariant
                        n == self@.states.len(),
                        p < n,
                        subset@.contains(p as int),
                        m == self@.states[p as int].len(),
                        i <= m,
                        symbols@.no_duplicates(),
                        forall|c: char| symbols@.contains(c) ==> self@.reads(subset@, c),
                        forall|o: int, k: int|
                            0 <= o < p && subset@.contains(o) && 0 <= k < self@.states[o].len() && (
                            #[trigger] self@.states[o][k]).label is Is ==> symbols@.contains(
                                self@.states[o][k].label->Is_0,
                            ),
                        forall|k: int|
                            0 <= k < i && (#[trigger] self@.states[p as int][k]).label is Is
                                ==> symbols@.contains(self@.states[p as int][k].label->Is_0),
                    decreases m - i,
                {
                    let label = self.edge_label(p, i);
                    match label {
                        Transition::Is(c) => {
                            let c = *c;
                            assert(label@ == Label::Is(c));
                            if !crate::automaton::listed(&symbols, c) {
                                let ghost known = symbols@;
                                symbols.push(c);
                                proof {
                                    assert forall|x: char| known.contains(x) implies symbols@.contains(
                                        x,
                                    ) by {
                                        let t = choose|t: int|
                                            0 <= t < known.len() && known[t] == x;
                                        assert(symbols@[t] == x);
                                    }
                                    assert(symbols@[known.len() as int] == c);
                                    assert forall|x: char| symbols@.contains(x) implies self@.reads(
                                        subset@,
                                        x,
                                    ) by {
                                        let t = choose|t: int|
                                            0 <= t < symbols@.len() && symbols@[t] == x;
                                        if t < known.len() {
                                            assert(known[t] == x);
                                            assert(known.contains(x));
                                        } else {
                                            assert(x == c);
                                            assert(self@.has_state(p as int));
                                            assert(self@.states[p as int][i as int].label
                                                == Label::Is(c));
                                        }
                                    }
                                }
                            }
                        },
                        _ => {},
                    }
                    i += 1;
                }
            }
            p += 1;
        }
        proof {
            subset.lemma_bounded();
            assert forall|c: char| self@.reads(subset@, c) implies symbols@.contains(c) by {
                let (o, k) = choose|o: int, k: int|
                    subset@.contains(o) && self@.has_state(o) && 0 <= k < self@.states[o].len() && (
                    #[trigger] self@.states[o][k]).label == Label::Is(c);
                assert(self@.states[o][k].label is Is);
            }
        }
        symbols
    }

    /// The state that stands for the set entered from `from` along the edges
    /// that `sel` picks, registered where it is new; nothing where no state
    /// is entered.
    fn reach(
        &self,
        dfa: &mut Automaton<Deterministic>,
        subsets: &mut Vec<StateSet>,
        from: &StateSet,
        sel: Pick,
    ) -> (target: Option<usize>)
        requires
            from.capacity() == self@.states.len(),
            old(dfa)@.states.len() == old(subsets)@.len(),
            registry(self@.states.len(), old(subsets)@),
        ensures
            registry(self@.states.len(), final(subsets)@),
            grown(old(subsets)@, final(subsets)@, old(dfa)@, final(dfa)@),
            match target {
                Some(d) => d < final(subsets)@.len() && final(subsets)@[d as int]@
                    == self@.closure(self@.targets(from@, sel)),
                None => self@.targets(from@, sel) == Set::<int>::empty() && final(subsets)@ == old(
                    subsets,
                )@,
            },
    {
        let reachable_states = self.targets(from, sel);
        if reachable_states.is_empty() {
            return None;
        }
        let reachable_states = self.eps_closure(reachable_states);
        Some(locate(dfa, subsets, reachable_states))
    }
}

impl Automaton<NonDeterministic> {
    /// Gives the state `i` of the result its edges: one per symbol that an
    /// `Is` edge of its set names, and the edge for every other symbol.
    fn expand(&self, dfa: &mut Automaton<Deterministic>, subsets: &mut Vec<StateSet>, i: usize)
        requires
            i < old(subsets)@.len(),
            framed(self@, old(dfa)@, old(subsets)@),
            tracked_below(self@, old(dfa)@, old(subsets)@, i as int),
            bare_from(old(dfa)@, i as int),
        ensures
            framed(self@, final(dfa)@, final(subsets)@),
            tracked_below(self@, final(dfa)@, final(subsets)@, i + 1),
            bare_from(final(dfa)@, i + 1),
            final(subsets)@.len() >= old(subsets)@.len(),
    {
        let current_state = subsets[i].duplicate();
        let chars = self.symbols_out_of(&current_state);
        let mut idx: usize = 0;
        assert(old(dfa)@.states[i as int].len() == 0);
        while idx < chars.len()
            invariant
                idx <= chars@.len(),
                i < subsets@.len(),
                subsets@.len() >= old(subsets)@.len(),
                current_state.capacity() == self@.states.len(),
                subsets@[i as int]@ == current_state@,
                chars@.no_duplicates(),
                framed(self@, dfa@, subsets@),
                tracked_below(self@, dfa@, subsets@, i as int),
                bare_from(dfa@, i + 1),
                part_expanded(
                    self@,
                    dfa@.states[i as int],
                    sets_of(subsets@),
                    current_state@,
                    chars@,
                    idx as int,
                ),
            decreases chars@.len() - idx,
        {
            let c = chars[idx];
            let ghost dfa0 = dfa@;
            let ghost subs0 = subsets@;
            let reached = self.reach(dfa, subsets, &current_state, Pick::Reads(c));
            proof {
                lemma_step_grown(self@, dfa0, subs0, dfa@, subsets@, i as int, chars@, idx as int);
            }
            match reached {
                Some(dfa_to) => {
                    proof {
                        lemma_symbol_edge(
                            self@,
                            dfa@,
                            subsets@,
                            i as int,
                            chars@,
                            idx as int,
                            c,
                            dfa_to as int,
                        );
                    }
                    dfa._add_transition(
                        StateId::from_index(i),
                        StateId::from_index(dfa_to),
                        Transition::Is(c),
                    );
                },
                None => {
                    proof {
                        lemma_symbol_dead(
                            self@,
                            dfa@.states[i as int],
                            sets_of(subsets@),
                            current_state@,
                            chars@,
                            idx as int,
                        );
                    }
                },
            }
            idx += 1;
        }
        let ghost dfa0 = dfa@;
        let ghost subs0 = subsets@;
        let ghost listed = chars@;
        let reached = self.reach(dfa, subsets, &current_state, Pick::Wild);
        proof {
            lemma_step_grown(
                self@,
                dfa0,
                subs0,
                dfa@,
                subsets@,
                i as int,
                listed,
                listed.len() as int,
            );
        }
        match reached {
            Some(dfa_to) => {
                proof {
                    lemma_default_edge(self@, dfa@, subsets@, i as int, listed, dfa_to as int);
                }
                dfa._add_transition(
                    StateId::from_index(i),
                    StateId::from_index(dfa_to),
                    Transition::IsNot(chars),
                );
            },
            None => {
                proof {
                    lemma_default_dead(self@, dfa@, subsets@, i as int, listed);
                }
            },
        }
    }

    /// The deterministic automaton of the subset construction.
    ///
    /// It accepts what this automaton accepts with its negated classes
    /// passed over, and so what this automaton accepts where no edge carries
    /// one; without states it yields the automaton without states.
    pub fn determinize(&self) -> (dfa: Automaton<Deterministic>)
        ensures
            dfa@.deterministic(),
            dfa@.dispatching(),
            self@.states.len() == 0 ==> dfa@ == AutomatonView::empty(),
            self@.plainly_determinized_by(dfa@),
            self@.no_negated() ==> self@.determinized_by(dfa@),
    {
        let n = self.state_count();
        let mut dfa: Automaton<Deterministic> = Automaton::default();
        if n == 0 {
            return dfa;
        }
        let mut new_start_state = StateSet::new(n);
        new_start_state.insert(self.start_index());
        assert(new_start_state@ =~= set![self@.start_state()]);
        let new_start_state = self.eps_closure(new_start_state);
        let mut subsets: Vec<StateSet> = Vec::new();
        subsets.push(new_start_state);
        dfa.add_state();
        proof {
            use_type_invariant(self);
            use_type_invariant(&dfa);
        }
        let mut i: usize = 0;
        while i < subsets.len()
            invariant
                n == self@.states.len(),
                i <= subsets@.len(),
                framed(self@, dfa@, subsets@),
                tracked_below(self@, dfa@, subsets@, i as int),
                bare_from(dfa@, i as int),
            decreases all_subsets(n as nat).len() - subsets@.len(), subsets@.len() - i,
        {
            proof {
                lemma_registry_bounded(n as nat, subsets@);
            }
            self.expand(&mut dfa, &mut subsets, i);
            proof {
                lemma_registry_bounded(n as nat, subsets@);
            }
            i += 1;
        }
        let ghost built = dfa@;
        let mut j: usize = 0;
        while j < subsets.len()
            invariant
                n == self@.states.len(),
                j <= subsets@.len(),
                framed(self@, built, subsets@),
                dfa@.states == built.states,
                dfa@.start == built.start,
                forall|d: int|
                    dfa@.finals.contains(d) <==> 0 <= d < j && self@.hits_final(subsets@[d]@),
            decreases subsets@.len() - j,
        {
            if self.any_final(&subsets[j]) {
                dfa.make_state_final(StateId::from_index(j));
            }
            j += 1;
        }
        proof {
            let sets = sets_of(subsets@);
            assert forall|d: int| 0 <= d < sets.len() implies #[trigger] state_tracks(
                self@,
                dfa@,
                sets,
                d,
            ) by {
                assert(state_tracks(self@, built, sets, d));
                lemma_tracks_stable(self@, built, sets, dfa@, sets, d);
            }
            assert forall|w: Seq<char>| #[trigger] dfa@.dfa_accepts(w) == self@.plain_accepts(
                w,
            ) by {
                lemma_simulation(self@, dfa@, sets, 0, w);
            }
            if self@.no_negated() {
                assert forall|w: Seq<char>| #[trigger] dfa@.dfa_accepts(w) == self@.nfa_accepts(
                    w,
                ) by {
                    self@.lemma_plain_run(self@.initial(), w);
                }
            }
            assert forall|p: int, a: int, b: int|
                0 <= p < dfa@.states.len() && 0 <= a < dfa@.states[p].len() && 0 <= b
                    < dfa@.states[p].len() && a != b implies !(#[trigger] dfa@.states[p][a]).label.overlaps(
                (#[trigger] dfa@.states[p][b]).label,
            ) by {
                assert(dfa@.states[p] == built.states[p]);
            }
            assert forall|p: int, a: int|
                0 <= p < dfa@.states.len() && 0 <= a < dfa@.states[p].len() implies ((
            #[trigger] dfa@.states[p][a]).label is Is || dfa@.states[p][a].label is IsNot) by {
                assert(dfa@.states[p][a] == built.states[p][a]);
            }
        }
        dfa
    }
}

impl From<Automaton<NonDeterministic>> for Automaton<Deterministic> {
    /// The subset construction: see [`Automaton::determinize`].
    fn from(nfa: Automaton<NonDeterministic>) -> (dfa: Self)
        ensures
            dfa@.deterministic(),
            dfa@.dispatching(),
            nfa@.states.len() == 0 ==> dfa@ == AutomatonView::empty(),
            nfa@.plainly_determinized_by(dfa@),
            nfa@.no_negated() ==> nfa@.determinized_by(dfa@),
    {
        nfa.determinize()
    }
}

impl vstd::std_specs::convert::FromSpecImpl<Automaton<NonDeterministic>> for Automaton<Deterministic> {
    /// The conversion is described by what `from` ensures, not by a function
    /// of the source.
    open spec fn obeys_from_spec() -> bool {
        false
    }

    open spec fn from_spec(nfa: Automaton<NonDeterministic>) -> Self {
        arbitrary()
    }
}

} // verus!
