//! The mathematical model of an automaton and of the language it accepts.
//!
//! Everything here is ghost: contracts elsewhere state what the executable
//! automata do in terms of these definitions.

use vstd::prelude::*;

verus! {

/// A class of symbols carried by an edge.
pub enum Label {
    /// Exactly one symbol.
    Is(char),
    /// Every symbol outside a set.
    IsNot(Set<char>),
    /// Every symbol.
    Star,
    /// No symbol: the edge is taken without reading input.
    Epsilon,
}

impl Label {
    /// Whether the class admits the symbol `c`.
    pub open spec fn allows(self, c: char) -> bool {
        match self {
            Label::Is(d) => c == d,
            Label::IsNot(s) => !s.contains(c),
            Label::Star => true,
            Label::Epsilon => false,
        }
    }

    /// Whether two classes share a symbol.
    pub open spec fn overlaps(self, other: Label) -> bool {
        exists|c: char| self.allows(c) && other.allows(c)
    }

    /// The symbol that a product walk reads along a pair of edges, if any:
    /// defined where one side names a single symbol that the other admits.
    pub open spec fn merge(self, other: Label) -> Option<char> {
        match (self, other) {
            (Label::Is(c), _) => if other.allows(c) { Some(c) } else { None },
            (_, Label::Is(c)) => if self.allows(c) { Some(c) } else { None },
            _ => None,
        }
    }
}

/// An edge: a class of symbols and the state it leads to.
pub struct Edge {
    pub label: Label,
    pub target: int,
}

/// An automaton as a mathematical object: per state its ordered edges, an
/// optional start state and the set of final states.
pub struct AutomatonView {
    pub states: Seq<Seq<Edge>>,
    pub start: Option<int>,
    pub finals: Set<int>,
}

/// The target of the first edge in `edges` that admits `c`.
pub open spec fn first_match(edges: Seq<Edge>, c: char) -> Option<int>
    decreases edges.len(),
{
    if edges.len() == 0 {
        None
    } else if edges[0].label.allows(c) {
        Some(edges[0].target)
    } else {
        first_match(edges.drop_first(), c)
    }
}

/// A way to pick edges by their class.
#[derive(Debug, Clone, Copy)]
pub enum Pick {
    /// The classes that admit a symbol.
    Admits(char),
    /// The classes that name a symbol, and `Star`.
    Reads(char),
    /// `Star` alone.
    Wild,
}

/// Whether `sel` picks an edge of class `label`.
pub open spec fn picks(sel: Pick, label: Label) -> bool {
    match sel {
        Pick::Admits(c) => label.allows(c),
        Pick::Reads(c) => label == Label::Is(c) || label is Star,
        Pick::Wild => label is Star,
    }
}

impl AutomatonView {
    /// The automaton without states.
    pub open spec fn empty() -> AutomatonView {
        AutomatonView { states: Seq::empty(), start: None, finals: Set::empty() }
    }

    /// This automaton with one more edge appended to the state `from`.
    pub open spec fn with_edge(self, from: int, label: Label, to: int) -> AutomatonView {
        AutomatonView {
            states: self.states.update(from, self.states[from].push(Edge { label, target: to })),
            ..self
        }
    }

    pub open spec fn has_state(self, p: int) -> bool {
        0 <= p < self.states.len()
    }

    /// Edges, the start state and final states refer to allocated states only.
    pub open spec fn wf(self) -> bool {
        &&& forall|p: int, i: int|
            0 <= p < self.states.len() && 0 <= i < self.states[p].len() ==> self.has_state(
                #[trigger] self.states[p][i].target,
            )
        &&& self.start matches Some(s) ==> self.has_state(s)
        &&& forall|q: int| self.finals.contains(q) ==> self.has_state(q)
    }

    /// The state a run starts in: the designated one, else the first allocated.
    pub open spec fn start_state(self) -> int {
        match self.start {
            Some(s) => s,
            None => 0,
        }
    }

    /// No two edges out of one state share a symbol.
    pub open spec fn deterministic(self) -> bool {
        forall|p: int, i: int, j: int|
            0 <= p < self.states.len() && 0 <= i < self.states[p].len() && 0 <= j
                < self.states[p].len() && i != j ==> !(#[trigger] self.states[p][i]).label.overlaps(
                (#[trigger] self.states[p][j]).label,
            )
    }

    /// Every edge names a single symbol.
    pub open spec fn explicit(self) -> bool {
        forall|p: int, i: int|
            0 <= p < self.states.len() && 0 <= i < self.states[p].len()
                ==> (#[trigger] self.states[p][i]).label is Is
    }

    /// Every edge names a single symbol or carries a negated class: each
    /// state dispatches on the symbols it names and has at most a default.
    pub open spec fn dispatching(self) -> bool {
        forall|p: int, i: int|
            0 <= p < self.states.len() && 0 <= i < self.states[p].len() ==> ((
            #[trigger] self.states[p][i]).label is Is || self.states[p][i].label is IsNot)
    }

    /// No edge carries a negated class.
    pub open spec fn no_negated(self) -> bool {
        forall|p: int, i: int|
            0 <= p < self.states.len() && 0 <= i < self.states[p].len()
                ==> !((#[trigger] self.states[p][i]).label is IsNot)
    }

    /// `rank` strictly decreases along every edge.
    pub open spec fn ranked_by(self, rank: Seq<nat>) -> bool {
        &&& rank.len() == self.states.len()
        &&& forall|p: int, i: int|
            0 <= p < self.states.len() && 0 <= i < self.states[p].len() ==> rank[(
            #[trigger] self.states[p][i]).target] < rank[p]
    }

    /// No cycle of edges exists.
    pub open spec fn acyclic(self) -> bool {
        exists|rank: Seq<nat>| self.ranked_by(rank)
    }

    // ----- nondeterministic reading -----

    /// An `Epsilon` edge leads from `p` to `q`.
    pub open spec fn eps_edge(self, p: int, q: int) -> bool {
        &&& self.has_state(p)
        &&& exists|i: int|
            0 <= i < self.states[p].len() && (#[trigger] self.states[p][i]).label is Epsilon
                && self.states[p][i].target == q
    }

    /// `n` consecutive `Epsilon` edges lead from `p` to `q`.
    pub open spec fn eps_path(self, p: int, q: int, n: nat) -> bool
        decreases n,
    {
        if n == 0 {
            p == q
        } else {
            exists|m: int| self.eps_path(p, m, (n - 1) as nat) && #[trigger] self.eps_edge(m, q)
        }
    }

    /// `q` is reachable from `p` by `Epsilon` edges alone.
    pub open spec fn eps_reach(self, p: int, q: int) -> bool {
        exists|n: nat| self.eps_path(p, q, n)
    }

    /// All states reachable from a state of `s` by `Epsilon` edges alone.
    pub open spec fn closure(self, s: Set<int>) -> Set<int> {
        Set::new(|q: int| exists|p: int| s.contains(p) && #[trigger] self.eps_reach(p, q))
    }

    /// An edge picked by `sel` leads from `p` to `q`.
    pub open spec fn picked_edge(self, p: int, sel: Pick, q: int) -> bool {
        &&& self.has_state(p)
        &&& exists|i: int|
            0 <= i < self.states[p].len() && picks(sel, (#[trigger] self.states[p][i]).label)
                && self.states[p][i].target == q
    }

    /// All states that an edge picked by `sel` leads to from a state of `s`.
    pub open spec fn targets(self, s: Set<int>, sel: Pick) -> Set<int> {
        Set::new(|q: int| exists|p: int| s.contains(p) && #[trigger] self.picked_edge(p, sel, q))
    }

    /// All states entered from a state of `s` by reading `c`.
    pub open spec fn step(self, s: Set<int>, c: char) -> Set<int> {
        self.targets(s, Pick::Admits(c))
    }

    /// The states active after reading `c` from the active set `s`.
    pub open spec fn advance(self, s: Set<int>, c: char) -> Set<int> {
        self.closure(self.step(s, c))
    }

    /// The states active after reading `w` from the active set `s`.
    pub open spec fn run_from(self, s: Set<int>, w: Seq<char>) -> Set<int>
        decreases w.len(),
    {
        if w.len() == 0 {
            s
        } else {
            self.run_from(self.advance(s, w[0]), w.drop_first())
        }
    }

    /// The states active before any input is read.
    pub open spec fn initial(self) -> Set<int> {
        self.closure(set![self.start_state()])
    }

    /// The states active after reading `w` from the start.
    pub open spec fn active(self, w: Seq<char>) -> Set<int> {
        self.run_from(self.initial(), w)
    }

    /// `s` holds a final state.
    pub open spec fn hits_final(self, s: Set<int>) -> bool {
        exists|q: int| s.contains(q) && self.finals.contains(q)
    }

    /// The language of the automaton read nondeterministically.
    pub open spec fn nfa_accepts(self, w: Seq<char>) -> bool {
        self.states.len() > 0 && self.hits_final(self.active(w))
    }

    // ----- nondeterministic reading that passes over negated classes -----

    /// The states active after reading `c` from the active set `s` along
    /// the edges that name `c` and the `Star` edges.
    pub open spec fn plain_advance(self, s: Set<int>, c: char) -> Set<int> {
        self.closure(self.targets(s, Pick::Reads(c)))
    }

    /// The states active after reading `w` from the active set `s` along
    /// edges that name a symbol and `Star` edges.
    pub open spec fn plain_run_from(self, s: Set<int>, w: Seq<char>) -> Set<int>
        decreases w.len(),
    {
        if w.len() == 0 {
            s
        } else {
            self.plain_run_from(self.plain_advance(s, w[0]), w.drop_first())
        }
    }

    /// The language of the automaton read nondeterministically with its
    /// negated classes passed over.
    pub open spec fn plain_accepts(self, w: Seq<char>) -> bool {
        self.states.len() > 0 && self.hits_final(self.plain_run_from(self.initial(), w))
    }

    // ----- deterministic reading -----

    /// The state entered from `p` by reading `c`: the first edge that admits it.
    pub open spec fn next(self, p: int, c: char) -> Option<int> {
        first_match(self.states[p], c)
    }

    /// Whether reading `w` from `p`, one edge per symbol, ends in a final state.
    pub open spec fn accepts_from(self, p: int, w: Seq<char>) -> bool
        decreases w.len(),
    {
        if w.len() == 0 {
            self.finals.contains(p)
        } else {
            match self.next(p, w[0]) {
                Some(q) => self.accepts_from(q, w.drop_first()),
                None => false,
            }
        }
    }

    /// The language of the automaton read deterministically.
    pub open spec fn dfa_accepts(self, w: Seq<char>) -> bool {
        self.states.len() > 0 && self.accepts_from(self.start_state(), w)
    }
}

impl AutomatonView {
    /// Every state of `s` is in the closure of `s`.
    pub proof fn lemma_closure_holds(self, s: Set<int>, p: int)
        requires
            s.contains(p),
        ensures
            self.closure(s).contains(p),
    {
        assert(self.eps_path(p, p, 0));
        assert(self.eps_reach(p, p));
    }

    /// The closure is closed under `Epsilon` edges.
    pub proof fn lemma_closure_extends(self, s: Set<int>, p: int, q: int)
        requires
            self.closure(s).contains(p),
            self.eps_edge(p, q),
        ensures
            self.closure(s).contains(q),
    {
        let o = choose|o: int| s.contains(o) && #[trigger] self.eps_reach(o, p);
        let n = choose|n: nat| self.eps_path(o, p, n);
        assert(self.eps_path(o, p, ((n + 1) - 1) as nat));
        assert(self.eps_path(o, q, n + 1));
        assert(self.eps_reach(o, q));
    }

    /// A set closed under `Epsilon` edges holds every state reached from it.
    pub proof fn lemma_closed_holds_path(self, r: Set<int>, p: int, q: int, n: nat)
        requires
            forall|a: int, b: int|
                r.contains(a) && #[trigger] self.eps_edge(a, b) ==> r.contains(b),
            r.contains(p),
            self.eps_path(p, q, n),
        ensures
            r.contains(q),
        decreases n,
    {
        if n > 0 {
            let m = choose|m: int|
                self.eps_path(p, m, (n - 1) as nat) && #[trigger] self.eps_edge(m, q);
            self.lemma_closed_holds_path(r, p, m, (n - 1) as nat);
        }
    }

    /// The closure of `s` is the least set that holds `s` and is closed
    /// under `Epsilon` edges.
    pub proof fn lemma_closure_least(self, s: Set<int>, r: Set<int>)
        requires
            s.subset_of(r),
            forall|a: int, b: int|
                r.contains(a) && #[trigger] self.eps_edge(a, b) ==> r.contains(b),
        ensures
            self.closure(s).subset_of(r),
    {
        assert forall|q: int| self.closure(s).contains(q) implies r.contains(q) by {
            let p = choose|p: int| s.contains(p) && #[trigger] self.eps_reach(p, q);
            let n = choose|n: nat| self.eps_path(p, q, n);
            self.lemma_closed_holds_path(r, p, q, n);
        }
    }

    /// Nothing is reachable from no state.
    pub proof fn lemma_closure_empty(self)
        ensures
            self.closure(Set::empty()) == Set::<int>::empty(),
    {
        assert(self.closure(Set::empty()) =~= Set::<int>::empty());
    }

    /// Once no state is active, none becomes active again.
    pub proof fn lemma_run_from_empty(self, w: Seq<char>)
        ensures
            self.run_from(Set::empty(), w) == Set::<int>::empty(),
        decreases w.len(),
    {
        if w.len() > 0 {
            assert(self.step(Set::empty(), w[0]) =~= Set::<int>::empty());
            self.lemma_closure_empty();
            self.lemma_run_from_empty(w.drop_first());
        }
    }

    /// Once no state is active, none becomes active again.
    pub proof fn lemma_plain_run_from_empty(self, w: Seq<char>)
        ensures
            self.plain_run_from(Set::empty(), w) == Set::<int>::empty(),
        decreases w.len(),
    {
        if w.len() > 0 {
            assert(self.targets(Set::empty(), Pick::Reads(w[0])) =~= Set::<int>::empty());
            self.lemma_closure_empty();
            self.lemma_plain_run_from_empty(w.drop_first());
        }
    }

    /// Without negated classes, the edges that name a symbol and the `Star`
    /// edges are the edges that admit it.
    pub proof fn lemma_plain_targets(self, s: Set<int>, c: char)
        requires
            self.no_negated(),
        ensures
            self.targets(s, Pick::Reads(c)) == self.step(s, c),
    {
        assert forall|q: int| self.targets(s, Pick::Reads(c)).contains(q) implies self.step(
            s,
            c,
        ).contains(q) by {
            let p = choose|p: int|
                s.contains(p) && #[trigger] self.picked_edge(p, Pick::Reads(c), q);
            assert(self.picked_edge(p, Pick::Admits(c), q));
        }
        assert forall|q: int| self.step(s, c).contains(q) implies self.targets(
            s,
            Pick::Reads(c),
        ).contains(q) by {
            let p = choose|p: int|
                s.contains(p) && #[trigger] self.picked_edge(p, Pick::Admits(c), q);
            let i = choose|i: int|
                0 <= i < self.states[p].len() && picks(
                    Pick::Admits(c),
                    (#[trigger] self.states[p][i]).label,
                ) && self.states[p][i].target == q;
            assert(!(self.states[p][i].label is IsNot));
            assert(picks(Pick::Reads(c), self.states[p][i].label));
            assert(self.picked_edge(p, Pick::Reads(c), q));
        }
        assert(self.targets(s, Pick::Reads(c)) =~= self.step(s, c));
    }

    /// Without negated classes, nothing is passed over.
    pub proof fn lemma_plain_run(self, s: Set<int>, w: Seq<char>)
        requires
            self.no_negated(),
        ensures
            self.plain_run_from(s, w) == self.run_from(s, w),
        decreases w.len(),
    {
        if w.len() > 0 {
            self.lemma_plain_targets(s, w[0]);
            self.lemma_plain_run(self.advance(s, w[0]), w.drop_first());
        }
    }

    /// Reading one more symbol at the end advances the active set once more.
    pub proof fn lemma_run_from_push(self, s: Set<int>, w: Seq<char>, c: char)
        ensures
            self.run_from(s, w.push(c)) == self.advance(self.run_from(s, w), c),
        decreases w.len(),
    {
        if w.len() == 0 {
            assert(w.push(c).drop_first() =~= Seq::<char>::empty());
            assert(self.run_from(s, w.push(c)) == self.run_from(
                self.advance(s, c),
                Seq::<char>::empty(),
            ));
        } else {
            assert(w.push(c).drop_first() =~= w.drop_first().push(c));
            self.lemma_run_from_push(self.advance(s, w[0]), w.drop_first(), c);
        }
    }
}

/// Where the first matching edge exists, some edge admits the symbol and
/// leads to the same state.
pub proof fn lemma_first_match_some(edges: Seq<Edge>, c: char)
    requires
        first_match(edges, c) is Some,
    ensures
        exists|k: int|
            0 <= k < edges.len() && (#[trigger] edges[k]).label.allows(c) && first_match(edges, c)
                == Some(edges[k].target),
    decreases edges.len(),
{
    if edges[0].label.allows(c) {
        assert(first_match(edges, c) == Some(edges[0].target));
    } else {
        let rest = edges.drop_first();
        lemma_first_match_some(rest, c);
        let k = choose|k: int|
            0 <= k < rest.len() && (#[trigger] rest[k]).label.allows(c) && first_match(rest, c)
                == Some(rest[k].target);
        assert(edges[k + 1] == rest[k]);
    }
}

/// Where no first matching edge exists, no edge admits the symbol.
pub proof fn lemma_first_match_none(edges: Seq<Edge>, c: char)
    requires
        first_match(edges, c) is None,
    ensures
        forall|k: int| 0 <= k < edges.len() ==> !(#[trigger] edges[k]).label.allows(c),
    decreases edges.len(),
{
    if edges.len() > 0 {
        let rest = edges.drop_first();
        lemma_first_match_none(rest, c);
        assert forall|k: int| 0 <= k < edges.len() implies !(#[trigger] edges[k]).label.allows(
            c,
        ) by {
            if k > 0 {
                assert(edges[k] == rest[k - 1]);
            }
        }
    }
}

/// Among edges of which no two share a symbol, the first matching edge is
/// the only edge that admits the symbol.
pub proof fn lemma_first_match_unique(edges: Seq<Edge>, c: char, k: int)
    requires
        0 <= k < edges.len(),
        edges[k].label.allows(c),
        forall|i: int, j: int|
            0 <= i < edges.len() && 0 <= j < edges.len() && i != j ==> !(#[trigger] edges[i]).label.overlaps(
                (#[trigger] edges[j]).label,
            ),
    ensures
        first_match(edges, c) == Some(edges[k].target),
    decreases edges.len(),
{
    if k > 0 {
        if edges[0].label.allows(c) {
            assert(edges[0].label.overlaps(edges[k].label));
        }
        let rest = edges.drop_first();
        assert(rest[k - 1] == edges[k]);
        assert forall|i: int, j: int|
            0 <= i < rest.len() && 0 <= j < rest.len() && i != j implies !(#[trigger] rest[i]).label.overlaps(
            (#[trigger] rest[j]).label,
        ) by {
            assert(rest[i] == edges[i + 1]);
            assert(rest[j] == edges[j + 1]);
        }
        lemma_first_match_unique(rest, c, k - 1);
    }
}

} // verus!
