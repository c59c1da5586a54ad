//! The Levenshtein automaton of a word `w` and a budget `k` as a grid of
//! states: the state in row `i` and column `e` stands for "the first `i`
//! symbols of `w` are consumed with `e` edits".

use crate::automaton::{Automaton, NonDeterministic, StateId, Transition};
use crate::language::{AutomatonView, Edge, Label};
use crate::text::symbols_of;
use vstd::arithmetic::div_mod::lemma_fundamental_div_mod_converse;
use vstd::prelude::*;

verus! {

/// The index of the state in row `i` and column `e` of a grid with columns
/// `0..=k`.
pub open spec fn cell(k: nat, i: int, e: int) -> int {
    i * (k + 1) + e
}

/// The edges out of the state in row `i` and column `e`: the match of
/// `w[i]`, and within budget an insertion, a deletion and a substitution;
/// in the last row the trailing insertion alone.
pub open spec fn grid_edges(w: Seq<char>, k: nat, i: int, e: int) -> Seq<Edge> {
    if i < w.len() {
        let matched = seq![Edge { label: Label::Is(w[i]), target: cell(k, i + 1, e) }];
        if e < k {
            matched + seq![
                Edge { label: Label::Star, target: cell(k, i, e + 1) },
                Edge { label: Label::Epsilon, target: cell(k, i + 1, e + 1) },
                Edge { label: Label::Star, target: cell(k, i + 1, e + 1) },
            ]
        } else {
            matched
        }
    } else if e < k {
        seq![Edge { label: Label::Star, target: cell(k, i, e + 1) }]
    } else {
        Seq::empty()
    }
}

/// The edges out of the state with index `q`.
pub open spec fn lev_edges(w: Seq<char>, k: nat, q: int) -> Seq<Edge> {
    grid_edges(w, k, q / (k + 1) as int, q % (k + 1) as int)
}

/// The number of states of the grid.
pub open spec fn grid_size(w: Seq<char>, k: nat) -> int {
    (w.len() + 1) as int * (k + 1)
}

/// The grid with the states below `done` wired and, of the last row, made
/// final; the others without edges.
pub open spec fn wired(a: AutomatonView, w: Seq<char>, k: nat, done: int) -> bool {
    &&& a.states.len() == grid_size(w, k)
    &&& a.finals == Set::new(|q: int| w.len() * (k + 1) <= q < done)
    &&& forall|q: int| 0 <= q < done ==> #[trigger] a.states[q] == lev_edges(w, k, q)
    &&& forall|q: int| done <= q < a.states.len() ==> #[trigger] a.states[q] == Seq::<Edge>::empty()
}

/// `a` is the Levenshtein automaton of `w` and `k`: a grid of
/// `(|w| + 1) * (k + 1)` states that starts in row 0, column 0, has the
/// edges of `grid_edges` and the last row as final states.
pub open spec fn is_lev_nfa(a: AutomatonView, w: Seq<char>, k: nat) -> bool {
    a.start == Some(0int) && wired(a, w, k, grid_size(w, k))
}

/// A cell's index gives back its row and column, and lies in the grid.
pub proof fn lemma_cell(w: Seq<char>, k: nat, i: int, e: int)
    requires
        0 <= i <= w.len(),
        0 <= e <= k,
    ensures
        cell(k, i, e) / (k + 1) as int == i,
        cell(k, i, e) % (k + 1) as int == e,
        0 <= cell(k, i, e) < grid_size(w, k),
        i * (k + 1) <= cell(k, i, e) < (i + 1) * (k + 1),
        cell(k, i, e) + (k + 1) == cell(k, i + 1, e),
{
    lemma_fundamental_div_mod_converse(cell(k, i, e), (k + 1) as int, i, e);
    assert(0 <= i * (k + 1)) by (nonlinear_arith)
        requires
            0 <= i,
            0 <= k,
    ;
    assert((i + 1) * (k + 1) == i * (k + 1) + (k + 1)) by (nonlinear_arith);
    assert((i + 1) * (k + 1) <= (w.len() + 1) * (k + 1)) by (nonlinear_arith)
        requires
            i <= w.len(),
            0 <= k,
    ;
}

/// Table of the states of a grid by row and column.
pub open spec fn grid_ok(grid: Seq<Vec<StateId>>, k: nat) -> bool {
    forall|i: int|
        0 <= i < grid.len() ==> (#[trigger] grid[i])@.len() == k + 1 && forall|e: int|
            0 <= e <= k ==> (#[trigger] grid[i]@[e])@ == cell(k, i, e)
}

/// Allocates the states of the grid row by row.
fn allocate(automaton: &mut Automaton<NonDeterministic>, word_len: usize, k: usize) -> (states:
    Vec<Vec<StateId>>)
    requires
        old(automaton)@ == AutomatonView::empty(),
    ensures
        states@.len() == word_len + 1,
        grid_ok(states@, k as nat),
        final(automaton)@.states.len() == (word_len + 1) * (k + 1),
        final(automaton)@.finals == Set::<int>::empty(),
        forall|q: int|
            0 <= q < final(automaton)@.states.len() ==> #[trigger] final(automaton)@.states[q]
                == Seq::<Edge>::empty(),
{
    let mut states: Vec<Vec<StateId>> = Vec::new();
    assert(0 * (k + 1) == 0) by (nonlinear_arith);
    while states.len() <= word_len
        invariant
            states@.len() <= word_len + 1,
            grid_ok(states@, k as nat),
            automaton@.states.len() == states@.len() * (k + 1),
            automaton@.finals == Set::<int>::empty(),
            forall|q: int|
                0 <= q < automaton@.states.len() ==> #[trigger] automaton@.states[q]
                    == Seq::<Edge>::empty(),
        decreases word_len + 1 - states@.len(),
    {
        let ghost i = states@.len() as int;
        let mut row: Vec<StateId> = Vec::new();
        while row.len() <= k
            invariant
                i == states@.len(),
                row@.len() <= k + 1,
                forall|e: int|
                    0 <= e < row@.len() ==> (#[trigger] row@[e])@ == cell(k as nat, i, e),
                automaton@.states.len() == i * (k + 1) + row@.len(),
                    automaton@.finals == Set::<int>::empty(),
                forall|q: int|
                    0 <= q < automaton@.states.len() ==> #[trigger] automaton@.states[q]
                        == Seq::<Edge>::empty(),
            decreases k + 1 - row@.len(),
        {
            let id = automaton.add_state();
            row.push(id);
        }
        states.push(row);
        proof {
            assert((i + 1) * (k + 1) == i * (k + 1) + (k + 1)) by (nonlinear_arith);
        }
    }
    states
}

/// Gives the state in row `i` and column `e` its edges, for a row with a
/// symbol `c` of the word to match.
fn wire(
    automaton: &mut Automaton<NonDeterministic>,
    states: &Vec<Vec<StateId>>,
    i: usize,
    e: usize,
    c: char,
    k: usize,
    Ghost(w): Ghost<Seq<char>>,
)
    requires
        i < w.len(),
        e <= k,
        c == w[i as int],
        states@.len() == w.len() + 1,
        grid_ok(states@, k as nat),
        wired(old(automaton)@, w, k as nat, cell(k as nat, i as int, e as int)),
    ensures
        wired(final(automaton)@, w, k as nat, cell(k as nat, i as int, e as int) + 1),
{
    let ghost q = cell(k as nat, i as int, e as int);
    let ghost before = automaton@;
    proof {
        lemma_cell(w, k as nat, i as int, e as int);
        lemma_cell(w, k as nat, i + 1, e as int);
        if e < k {
            lemma_cell(w, k as nat, i as int, e + 1);
            lemma_cell(w, k as nat, i + 1, e + 1);
        }
        assert((i + 1) * (k + 1) <= w.len() * (k + 1)) by (nonlinear_arith)
            requires
                i + 1 <= w.len(),
        ;
    }
    let rows = states.len();
    assert(i + 1 < rows);
    let from = states[i][e];
    automaton.add_transition(from, states[i + 1][e], Transition::Is(c));
    if e < k {
        automaton.add_transition(from, states[i][e + 1], Transition::Star);
        automaton.add_transition(from, states[i + 1][e + 1], Transition::Epsilon);
        automaton.add_transition(from, states[i + 1][e + 1], Transition::Star);
    }
    proof {
        assert(automaton@.states[q] =~= grid_edges(w, k as nat, i as int, e as int));
        assert(automaton@.finals =~= Set::new(|r: int| w.len() * (k + 1) <= r < q + 1));
        assert forall|r: int| 0 <= r < q + 1 implies #[trigger] automaton@.states[r] == lev_edges(
            w,
            k as nat,
            r,
        ) by {
            if r < q {
                assert(before.states[r] == lev_edges(w, k as nat, r));
            }
        }
        assert forall|r: int|
            q + 1 <= r < automaton@.states.len() implies #[trigger] automaton@.states[r]
            == Seq::<Edge>::empty() by {
            assert(before.states[r] == Seq::<Edge>::empty());
        }
    }
}

/// Gives the state in the last row and column `e` its trailing insertion
/// and makes it final.
fn seal(
    automaton: &mut Automaton<NonDeterministic>,
    states: &Vec<Vec<StateId>>,
    e: usize,
    k: usize,
    Ghost(w): Ghost<Seq<char>>,
)
    requires
        e <= k,
        states@.len() == w.len() + 1,
        grid_ok(states@, k as nat),
        wired(old(automaton)@, w, k as nat, cell(k as nat, w.len() as int, e as int)),
    ensures
        wired(final(automaton)@, w, k as nat, cell(k as nat, w.len() as int, e as int) + 1),
{
    let ghost n = w.len() as int;
    let ghost q = cell(k as nat, n, e as int);
    let ghost before = automaton@;
    proof {
        lemma_cell(w, k as nat, n, e as int);
        if e < k {
            lemma_cell(w, k as nat, n, e + 1);
        }
    }
    let word_len = states.len() - 1;
    let from = states[word_len][e];
    if e < k {
        automaton.add_transition(from, states[word_len][e + 1], Transition::Star);
    }
    automaton.make_state_final(from);
    proof {
        assert(automaton@.states[q] =~= grid_edges(w, k as nat, n, e as int));
        assert(automaton@.finals =~= Set::new(|r: int| w.len() * (k + 1) <= r < q + 1));
        assert forall|r: int| 0 <= r < q + 1 implies #[trigger] automaton@.states[r] == lev_edges(
            w,
            k as nat,
            r,
        ) by {
            if r < q {
                assert(before.states[r] == lev_edges(w, k as nat, r));
            }
        }
        assert forall|r: int|
            q + 1 <= r < automaton@.states.len() implies #[trigger] automaton@.states[r]
            == Seq::<Edge>::empty() by {
            assert(before.states[r] == Seq::<Edge>::empty());
        }
    }
}

/// The Levenshtein automaton of `word` and `k`.
pub(crate) fn lev_nfa(word: &str, k: usize) -> (automaton: Automaton<NonDeterministic>)
    ensures
        is_lev_nfa(automaton@, word@, k as nat),
{
    let symbols = symbols_of(word);
    let word_len = symbols.len();
    let mut automaton: Automaton<NonDeterministic> = Automaton::default();
    let states = allocate(&mut automaton, word_len, k);
    let width = states[0].len();
    let ghost w = word@;
    proof {
        assert(automaton@.finals =~= Set::new(|q: int| w.len() * (k + 1) <= q < 0));
        assert(0 <= w.len() * (k + 1)) by (nonlinear_arith);
    }
    let mut i: usize = 0;
    while i < word_len
        invariant
            i <= word_len,
            word_len == w.len(),
            symbols@ == w,
            width == k + 1,
            states@.len() == w.len() + 1,
            grid_ok(states@, k as nat),
            wired(automaton@, w, k as nat, cell(k as nat, i as int, 0)),
        decreases word_len - i,
    {
        let c = symbols[i];
        let mut e: usize = 0;
        while e <= k
            invariant
                i < word_len,
                word_len == w.len(),
                c == w[i as int],
                width == k + 1,
                e <= k + 1,
                states@.len() == w.len() + 1,
                grid_ok(states@, k as nat),
                wired(automaton@, w, k as nat, cell(k as nat, i as int, e as int)),
            decreases k + 1 - e,
        {
            wire(&mut automaton, &states, i, e, c, k, Ghost(w));
            e += 1;
        }
        proof {
            assert(cell(k as nat, i as int, k + 1) == cell(k as nat, i + 1, 0))
                by (nonlinear_arith);
        }
        i += 1;
    }
    let mut e: usize = 0;
    while e <= k
        invariant
            word_len == w.len(),
            width == k + 1,
            e <= k + 1,
            states@.len() == w.len() + 1,
            grid_ok(states@, k as nat),
            wired(automaton@, w, k as nat, cell(k as nat, word_len as int, e as int)),
        decreases k + 1 - e,
    {
        seal(&mut automaton, &states, e, k, Ghost(w));
        e += 1;
    }
    proof {
        assert(cell(k as nat, word_len as int, k + 1) == grid_size(w, k as nat))
            by (nonlinear_arith)
            requires
                word_len == w.len(),
        ;
        lemma_cell(w, k as nat, 0, 0);
    }
    automaton.set_start_state(states[0][0]);
    automaton
}

} // verus!
