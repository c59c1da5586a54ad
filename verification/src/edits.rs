//! Why the grid automaton of a word `w` and a budget `k` accepts exactly
//! the words at Levenshtein distance at most `k` from `w`.
//!
//! After reading a word `t`, the state in row `i` and column `e` is active
//! only if the first `i` symbols of `w` are at distance at most `e` from
//! `t`, and the state in row `i` whose column is that distance is active
//! whenever the distance is within the budget.

use crate::distance::{distance, lemma_delete, lemma_distance_self, lemma_insert, lemma_swap};
use crate::grid::{cell, grid_edges, grid_size, is_lev_nfa, lemma_cell};
use crate::language::{AutomatonView, Edge, Label, Pick};
use vstd::prelude::*;

verus! {

/// The row of the state with index `q`.
pub open spec fn row(k: nat, q: int) -> int {
    q / (k + 1) as int
}

/// The column of the state with index `q`.
pub open spec fn column(k: nat, q: int) -> int {
    q % (k + 1) as int
}

/// The state `q` stands for a prefix of `w` that is within its column's
/// number of edits of `t`.
pub open spec fn good(w: Seq<char>, k: nat, t: Seq<char>, q: int) -> bool {
    &&& 0 <= q < grid_size(w, k)
    &&& distance(w.take(row(k, q)), t) <= column(k, q)
}

/// All states that are `good` for `t`.
pub open spec fn good_states(w: Seq<char>, k: nat, t: Seq<char>) -> Set<int> {
    Set::new(|q: int| good(w, k, t, q))
}

/// A state of the grid lies in a row and a column of the grid.
pub proof fn lemma_coords(w: Seq<char>, k: nat, q: int)
    requires
        0 <= q < grid_size(w, k),
    ensures
        0 <= row(k, q) <= w.len(),
        0 <= column(k, q) <= k,
        q == cell(k, row(k, q), column(k, q)),
{
    let d = (k + 1) as int;
    vstd::arithmetic::div_mod::lemma_fundamental_div_mod(q, d);
    vstd::arithmetic::div_mod::lemma_mod_bound(q, d);
    let i = q / d;
    assert(q == d * i + q % d);
    assert(d * i == i * d) by (nonlinear_arith);
    if i < 0 {
        assert(i * d <= -d) by (nonlinear_arith)
            requires
                i <= -1,
                d > 0,
        ;
    }
    if i > w.len() {
        assert(i * d >= (w.len() + 1) * d) by (nonlinear_arith)
            requires
                i >= w.len() + 1,
                d > 0,
        ;
    }
}

/// The edges out of a state above the last row.
proof fn lemma_row_edges(w: Seq<char>, k: nat, i: int, e: int, c: char)
    requires
        0 <= i < w.len(),
        0 <= e <= k,
        c == w[i],
    ensures
        grid_edges(w, k, i, e).len() == (if e < k {
            4int
        } else {
            1int
        }),
        grid_edges(w, k, i, e)[0] == (Edge { label: Label::Is(c), target: cell(k, i + 1, e) }),
        e < k ==> grid_edges(w, k, i, e)[1] == (Edge {
            label: Label::Star,
            target: cell(k, i, e + 1),
        }),
        e < k ==> grid_edges(w, k, i, e)[2] == (Edge {
            label: Label::Epsilon,
            target: cell(k, i + 1, e + 1),
        }),
        e < k ==> grid_edges(w, k, i, e)[3] == (Edge {
            label: Label::Star,
            target: cell(k, i + 1, e + 1),
        }),
{
    let matched = seq![Edge { label: Label::Is(c), target: cell(k, i + 1, e) }];
    let others = seq![
        Edge { label: Label::Star, target: cell(k, i, e + 1) },
        Edge { label: Label::Epsilon, target: cell(k, i + 1, e + 1) },
        Edge { label: Label::Star, target: cell(k, i + 1, e + 1) },
    ];
    assert(matched.len() == 1);
    assert(others.len() == 3);
    if e < k {
        assert(grid_edges(w, k, i, e) == matched + others);
        assert((matched + others)[0] == matched[0]);
        assert((matched + others)[1] == others[0]);
        assert((matched + others)[2] == others[1]);
        assert((matched + others)[3] == others[2]);
    } else {
        assert(grid_edges(w, k, i, e) == matched);
    }
}

/// The edges out of a state of the last row.
proof fn lemma_last_row_edges(w: Seq<char>, k: nat, e: int)
    requires
        0 <= e <= k,
    ensures
        grid_edges(w, k, w.len() as int, e).len() == (if e < k {
            1int
        } else {
            0int
        }),
        e < k ==> grid_edges(w, k, w.len() as int, e)[0] == (Edge {
            label: Label::Star,
            target: cell(k, w.len() as int, e + 1),
        }),
{
}

/// The edges of the automaton out of the state in row `i` and column `e`.
proof fn lemma_edges_at(a: AutomatonView, w: Seq<char>, k: nat, i: int, e: int)
    requires
        is_lev_nfa(a, w, k),
        0 <= i <= w.len(),
        0 <= e <= k,
    ensures
        a.has_state(cell(k, i, e)),
        a.states[cell(k, i, e)] == grid_edges(w, k, i, e),
{
    lemma_cell(w, k, i, e);
    let q = cell(k, i, e);
    assert(a.states[q] == crate::grid::lev_edges(w, k, q));
}

// ---------------------------------------------------------------------------
// No state is active without cause

/// An `Epsilon` edge leads from a good state to a good state.
proof fn lemma_good_eps(a: AutomatonView, w: Seq<char>, k: nat, t: Seq<char>, p: int, q: int)
    requires
        is_lev_nfa(a, w, k),
        good(w, k, t, p),
        a.eps_edge(p, q),
    ensures
        good(w, k, t, q),
{
    lemma_coords(w, k, p);
    let i = row(k, p);
    let e = column(k, p);
    lemma_edges_at(a, w, k, i, e);
    if i < w.len() {
        lemma_row_edges(w, k, i, e, w[i]);
        lemma_cell(w, k, i + 1, e + 1);
        assert(w.take(i).push(w[i]) =~= w.take(i + 1));
        lemma_delete(w.take(i), t, w[i]);
    } else {
        lemma_last_row_edges(w, k, e);
    }
}

/// An edge that admits `c` leads from a state good for `t` to a state good
/// for `t` followed by `c`.
proof fn lemma_good_step(
    a: AutomatonView,
    w: Seq<char>,
    k: nat,
    t: Seq<char>,
    c: char,
    p: int,
    q: int,
)
    requires
        is_lev_nfa(a, w, k),
        good(w, k, t, p),
        a.picked_edge(p, Pick::Admits(c), q),
    ensures
        good(w, k, t.push(c), q),
{
    lemma_coords(w, k, p);
    let i = row(k, p);
    let e = column(k, p);
    lemma_edges_at(a, w, k, i, e);
    let idx = choose|idx: int|
        0 <= idx < a.states[p].len() && crate::language::picks(
            Pick::Admits(c),
            (#[trigger] a.states[p][idx]).label,
        ) && a.states[p][idx].target == q;
    lemma_insert(w.take(i), t, c);
    if i < w.len() {
        lemma_row_edges(w, k, i, e, w[i]);
        lemma_cell(w, k, i + 1, e);
        assert(w.take(i).push(w[i]) =~= w.take(i + 1));
        lemma_swap(w.take(i), t, w[i], c);
        if e < k {
            lemma_cell(w, k, i, e + 1);
            lemma_cell(w, k, i + 1, e + 1);
        }
    } else {
        lemma_last_row_edges(w, k, e);
        lemma_cell(w, k, i, e + 1);
    }
}

/// Every state active after `s` is good for `s`.
proof fn lemma_active_good(a: AutomatonView, w: Seq<char>, k: nat, s: Seq<char>)
    requires
        is_lev_nfa(a, w, k),
    ensures
        a.active(s).subset_of(good_states(w, k, s)),
    decreases s.len(),
{
    let goal = good_states(w, k, s);
    assert forall|p: int, q: int|
        goal.contains(p) && #[trigger] a.eps_edge(p, q) implies goal.contains(q) by {
        lemma_good_eps(a, w, k, s, p, q);
    }
    if s.len() == 0 {
        lemma_cell(w, k, 0, 0);
        assert(w.take(0) =~= Seq::<char>::empty());
        assert(good(w, k, s, 0));
        a.lemma_closure_least(set![a.start_state()], goal);
    } else {
        let t = s.drop_last();
        let c = s.last();
        assert(t.push(c) =~= s);
        a.lemma_run_from_push(a.initial(), t, c);
        lemma_active_good(a, w, k, t);
        assert forall|q: int| a.step(a.active(t), c).contains(q) implies goal.contains(q) by {
            let p = choose|p: int|
                a.active(t).contains(p) && #[trigger] a.picked_edge(p, Pick::Admits(c), q);
            assert(good_states(w, k, t).contains(p));
            lemma_good_step(a, w, k, t, c, p, q);
        }
        a.lemma_closure_least(a.step(a.active(t), c), goal);
    }
}

// ---------------------------------------------------------------------------
// Every state with cause is active

/// The active states are closed under `Epsilon` edges.
proof fn lemma_active_closed(a: AutomatonView, t: Seq<char>, p: int, q: int)
    requires
        a.active(t).contains(p),
        a.eps_edge(p, q),
    ensures
        a.active(t).contains(q),
{
    if t.len() == 0 {
        a.lemma_closure_extends(set![a.start_state()], p, q);
    } else {
        let u = t.drop_last();
        let c = t.last();
        assert(u.push(c) =~= t);
        a.lemma_run_from_push(a.initial(), u, c);
        a.lemma_closure_extends(a.step(a.active(u), c), p, q);
    }
}

/// An edge that admits `c` leads from a state active after `t` to a state
/// active after `t` followed by `c`.
proof fn lemma_active_step(a: AutomatonView, t: Seq<char>, c: char, p: int, q: int)
    requires
        a.active(t).contains(p),
        a.picked_edge(p, Pick::Admits(c), q),
    ensures
        a.active(t.push(c)).contains(q),
{
    a.lemma_run_from_push(a.initial(), t, c);
    assert(a.step(a.active(t), c).contains(q));
    a.lemma_closure_holds(a.step(a.active(t), c), q);
}

/// From the state in row `i` and column `e < k`, reading any symbol leads
/// to the next column of the same row.
proof fn lemma_insertion_edge(a: AutomatonView, w: Seq<char>, k: nat, i: int, e: int, c: char)
    requires
        is_lev_nfa(a, w, k),
        0 <= i <= w.len(),
        0 <= e < k,
    ensures
        a.picked_edge(cell(k, i, e), Pick::Admits(c), cell(k, i, e + 1)),
{
    lemma_edges_at(a, w, k, i, e);
    let p = cell(k, i, e);
    if i < w.len() {
        lemma_row_edges(w, k, i, e, w[i]);
        assert(crate::language::picks(Pick::Admits(c), a.states[p][1].label));
    } else {
        lemma_last_row_edges(w, k, e);
        assert(crate::language::picks(Pick::Admits(c), a.states[p][0].label));
    }
}

/// From the state in row `i` and column `e`, reading the `i`-th symbol of
/// `w` leads to the same column of the next row.
proof fn lemma_match_edge(a: AutomatonView, w: Seq<char>, k: nat, i: int, e: int, c: char)
    requires
        is_lev_nfa(a, w, k),
        0 <= i < w.len(),
        0 <= e <= k,
        c == w[i],
    ensures
        a.picked_edge(cell(k, i, e), Pick::Admits(c), cell(k, i + 1, e)),
{
    lemma_edges_at(a, w, k, i, e);
    lemma_row_edges(w, k, i, e, c);
    assert(crate::language::picks(Pick::Admits(c), a.states[cell(k, i, e)][0].label));
}

/// From the state in row `i` and column `e < k`, reading any symbol leads
/// to the next column of the next row.
proof fn lemma_substitution_edge(a: AutomatonView, w: Seq<char>, k: nat, i: int, e: int, c: char)
    requires
        is_lev_nfa(a, w, k),
        0 <= i < w.len(),
        0 <= e < k,
    ensures
        a.picked_edge(cell(k, i, e), Pick::Admits(c), cell(k, i + 1, e + 1)),
{
    lemma_edges_at(a, w, k, i, e);
    lemma_row_edges(w, k, i, e, w[i]);
    assert(crate::language::picks(Pick::Admits(c), a.states[cell(k, i, e)][3].label));
}

/// From the state in row `i` and column `e < k`, an `Epsilon` edge leads
/// to the next column of the next row.
proof fn lemma_deletion_edge(a: AutomatonView, w: Seq<char>, k: nat, i: int, e: int)
    requires
        is_lev_nfa(a, w, k),
        0 <= i < w.len(),
        0 <= e < k,
    ensures
        a.eps_edge(cell(k, i, e), cell(k, i + 1, e + 1)),
{
    lemma_edges_at(a, w, k, i, e);
    lemma_row_edges(w, k, i, e, w[i]);
    assert(a.states[cell(k, i, e)][2].label is Epsilon);
}

/// After the first `j` symbols of `s`, the state in row `i` whose column
/// is the distance of the first `i` symbols of `w` from them is active,
/// where that distance is within the budget.
proof fn lemma_reached(a: AutomatonView, w: Seq<char>, k: nat, s: Seq<char>, i: int, j: int)
    requires
        is_lev_nfa(a, w, k),
        0 <= i <= w.len(),
        0 <= j <= s.len(),
        distance(w.take(i), s.take(j)) <= k,
    ensures
        a.active(s.take(j)).contains(cell(k, i, distance(w.take(i), s.take(j)) as int)),
    decreases i + j,
{
    let u = w.take(i);
    let v = s.take(j);
    let d = distance(u, v) as int;
    if i == 0 && j == 0 {
        assert(v =~= Seq::<char>::empty());
        a.lemma_closure_holds(set![a.start_state()], 0);
    } else if i == 0 {
        let v1 = s.take(j - 1);
        assert(v1.push(s[j - 1]) =~= v);
        lemma_reached(a, w, k, s, i, j - 1);
        lemma_insertion_edge(a, w, k, 0, j - 1, s[j - 1]);
        lemma_active_step(a, v1, s[j - 1], cell(k, 0, j - 1), cell(k, 0, j));
    } else if j == 0 {
        lemma_reached(a, w, k, s, i - 1, j);
        lemma_deletion_edge(a, w, k, i - 1, i - 1);
        lemma_active_closed(a, v, cell(k, i - 1, i - 1), cell(k, i, i));
    } else {
        let u1 = w.take(i - 1);
        let v1 = s.take(j - 1);
        assert(u.drop_last() =~= u1);
        assert(v.drop_last() =~= v1);
        assert(v1.push(s[j - 1]) =~= v);
        let d1 = distance(u1, v) as int;
        let d2 = distance(u, v1) as int;
        let d3 = distance(u1, v1) as int;
        if d == d1 + 1 {
            lemma_reached(a, w, k, s, i - 1, j);
            lemma_deletion_edge(a, w, k, i - 1, d1);
            lemma_active_closed(a, v, cell(k, i - 1, d1), cell(k, i, d));
        } else if d == d2 + 1 {
            lemma_reached(a, w, k, s, i, j - 1);
            lemma_insertion_edge(a, w, k, i, d2, s[j - 1]);
            lemma_active_step(a, v1, s[j - 1], cell(k, i, d2), cell(k, i, d));
        } else {
            lemma_reached(a, w, k, s, i - 1, j - 1);
            if w[i - 1] == s[j - 1] {
                lemma_match_edge(a, w, k, i - 1, d3, s[j - 1]);
            } else {
                lemma_substitution_edge(a, w, k, i - 1, d3, s[j - 1]);
            }
            lemma_active_step(a, v1, s[j - 1], cell(k, i - 1, d3), cell(k, i, d));
        }
    }
}

// ---------------------------------------------------------------------------
// The laws

/// The grid automaton of `w` and `k` accepts exactly the words at
/// Levenshtein distance at most `k` from `w`.
pub proof fn lemma_accepts_within_distance(a: AutomatonView, w: Seq<char>, k: nat, s: Seq<char>)
    requires
        is_lev_nfa(a, w, k),
    ensures
        a.nfa_accepts(s) <==> distance(w, s) <= k,
{
    let n = w.len() as int;
    lemma_cell(w, k, n, 0);
    assert(w.take(n) =~= w);
    assert(s.take(s.len() as int) =~= s);
    if a.nfa_accepts(s) {
        let q = choose|q: int| a.active(s).contains(q) && a.finals.contains(q);
        lemma_active_good(a, w, k, s);
        assert(good_states(w, k, s).contains(q));
        lemma_coords(w, k, q);
        let i = row(k, q);
        if i < n {
            lemma_cell(w, k, i, column(k, q));
            assert((i + 1) * (k + 1) <= n * (k + 1)) by (nonlinear_arith)
                requires
                    i + 1 <= n,
            ;
        }
    }
    if distance(w, s) <= k {
        let d = distance(w, s) as int;
        lemma_reached(a, w, k, s, n, s.len() as int);
        lemma_cell(w, k, n, d);
        assert(a.finals.contains(cell(k, n, d)));
    }
}

/// The grid automaton of a word accepts the word, whatever the budget.
pub proof fn lemma_accepts_own_word(a: AutomatonView, w: Seq<char>, k: nat)
    requires
        is_lev_nfa(a, w, k),
    ensures
        a.nfa_accepts(w),
{
    lemma_distance_self(w);
    lemma_accepts_within_distance(a, w, k, w);
}

/// No edge of the grid automaton carries a negated class.
pub proof fn lemma_grid_positive(a: AutomatonView, w: Seq<char>, k: nat)
    requires
        is_lev_nfa(a, w, k),
    ensures
        a.no_negated(),
        a.wf(),
{
    lemma_cell(w, k, 0, 0);
    assert forall|p: int, idx: int|
        0 <= p < a.states.len() && 0 <= idx < a.states[p].len() implies !((
    #[trigger] a.states[p][idx]).label is IsNot) && a.has_state(a.states[p][idx].target) by {
        lemma_coords(w, k, p);
        let i = row(k, p);
        let e = column(k, p);
        lemma_edges_at(a, w, k, i, e);
        if i < w.len() {
            lemma_row_edges(w, k, i, e, w[i]);
            lemma_cell(w, k, i + 1, e);
            if e < k {
                lemma_cell(w, k, i, e + 1);
                lemma_cell(w, k, i + 1, e + 1);
            }
        } else {
            lemma_last_row_edges(w, k, e);
            if e < k {
                lemma_cell(w, k, i, e + 1);
            }
        }
    }
}

/// The determinized grid automaton of `w` and `k` accepts exactly the
/// words at Levenshtein distance at most `k` from `w`.
pub proof fn lemma_dfa_accepts_within_distance(
    a: AutomatonView,
    dfa: AutomatonView,
    w: Seq<char>,
    k: nat,
    s: Seq<char>,
)
    requires
        is_lev_nfa(a, w, k),
        a.determinized_by(dfa),
    ensures
        dfa.dfa_accepts(s) <==> distance(w, s) <= k,
{
    lemma_accepts_within_distance(a, w, k, s);
    assert(dfa.dfa_accepts(s) == a.nfa_accepts(s));
}

/// The determinized grid automaton of a word accepts the word, whatever
/// the budget.
pub proof fn lemma_dfa_accepts_own_word(a: AutomatonView, dfa: AutomatonView, w: Seq<char>, k: nat)
    requires
        is_lev_nfa(a, w, k),
        a.determinized_by(dfa),
    ensures
        dfa.dfa_accepts(w),
{
    lemma_distance_self(w);
    lemma_dfa_accepts_within_distance(a, dfa, w, k, w);
}

} // verus!
