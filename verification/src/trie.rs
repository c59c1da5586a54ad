//! A dictionary as a deterministic automaton: a tree of states with one
//! `Is` edge per symbol, in which each path from the start to a final state
//! spells one word.

use crate::automaton::{Automaton, Deterministic, StateId, Transition};
use crate::language::{AutomatonView, Edge, Label};
use crate::text::texts;
use itertools::Itertools;
use vstd::prelude::*;

verus! {

/// The symbol sequences of a list of words.
pub open spec fn views(words: Seq<&str>) -> Seq<Seq<char>> {
    Seq::new(words.len(), |i: int| words[i]@)
}

/// The first symbol of a word, if it has one.
pub open spec fn head(word: Seq<char>) -> Option<char> {
    if word.len() == 0 {
        None
    } else {
        Some(word[0])
    }
}

/// `a` comes no later than `b` in the order of words: symbol by symbol by
/// code point, a proper prefix first.
pub open spec fn lex_le(a: Seq<char>, b: Seq<char>) -> bool
    decreases a.len(),
{
    if a.len() == 0 {
        true
    } else if b.len() == 0 {
        false
    } else if a[0] == b[0] {
        lex_le(a.drop_first(), b.drop_first())
    } else {
        (a[0] as u32) < (b[0] as u32)
    }
}

/// Each word comes no later than the words behind it.
pub open spec fn sorted(words: Seq<Seq<char>>) -> bool {
    forall|i: int, j: int|
        0 <= i < j < words.len() ==> lex_le(#[trigger] words[i], #[trigger] words[j])
}

/// Sorts the words.
///
/// Calls the slice method `sort`, which reorders the slice so that each
/// element compares no greater than the next; strings compare symbol by
/// symbol by code point, a proper prefix first.
#[verifier::external_body]
fn sort_words(words: &mut [&str])
    ensures
        views(final(words)@).to_multiset() == views(old(words)@).to_multiset(),
        sorted(views(final(words)@)),
{
    words.sort();
}

/// The first symbol of `word`, if it has one.
fn first_symbol(word: &str) -> (first: Option<char>)
    ensures
        first == head(word@),
{
    broadcast use vstd::string::group_string_axioms;
    broadcast use vstd::string::next_postcondition;

    let mut symbols = word.chars();
    symbols.next()
}

/// `word` without its first symbol; empty where `word` is.
fn suffix_of(word: &str) -> (suffix: &str)
    ensures
        word@.len() > 0 ==> suffix@ == word@.skip(1),
        word@.len() == 0 ==> suffix@.len() == 0,
{
    let len = word.unicode_len();
    if len == 0 {
        proof {
            reveal_strlit("");
        }
        ""
    } else {
        let suffix = word.substring_char(1, len);
        assert(word@.subrange(1, len as int) =~= word@.skip(1));
        suffix
    }
}

/// A run of consecutive words with one first symbol.
pub struct Run<'a> {
    pub key: Option<char>,
    pub words: Vec<&'a str>,
}

/// The words of the runs, in order.
pub open spec fn flatten(runs: Seq<Run>) -> Seq<&str>
    decreases runs.len(),
{
    if runs.len() == 0 {
        Seq::empty()
    } else {
        flatten(runs.drop_last()) + runs.last().words@
    }
}

/// `runs` cuts `words` into its maximal runs of words with one first symbol.
pub open spec fn is_chunking(words: Seq<&str>, runs: Seq<Run>) -> bool {
    &&& flatten(runs) == words
    &&& forall|g: int| 0 <= g < runs.len() ==> (#[trigger] runs[g]).words@.len() > 0
    &&& forall|g: int, i: int|
        0 <= g < runs.len() && 0 <= i < runs[g].words@.len() ==> head(
            (#[trigger] runs[g].words@[i])@,
        ) == runs[g].key
    &&& forall|g: int| 0 <= g < runs.len() - 1 ==> (#[trigger] runs[g]).key != runs[g + 1].key
}

/// Cuts `words` into runs by first symbol.
///
/// Calls `Itertools::chunk_by`, which assigns consecutive elements that map
/// to the same key to the same group, and yields the groups in order, each
/// with its key.
#[verifier::external_body]
fn chunk_by_first_symbol<'a>(words: &[&'a str]) -> (runs: Vec<Run<'a>>)
    ensures
        is_chunking(words@, runs@),
{
    words
        .iter()
        .chunk_by(|w| first_symbol(w))
        .into_iter()
        .map(|(key, group)| Run { key, words: group.copied().collect() })
        .collect()
}

// ---------------------------------------------------------------------------
// Runs of sorted words

/// Some run among the first `upto` holds a word that reads `x`.
pub open spec fn spelled(runs: Seq<Run>, upto: int, x: Seq<char>) -> bool {
    exists|g: int, i: int|
        0 <= g < upto && 0 <= i < runs[g].words@.len() && (#[trigger] runs[g].words@[i])@ == x
}

/// The position of a first symbol in the order of words: none first, then
/// by code point.
pub open spec fn rank(key: Option<char>) -> int {
    match key {
        None => -1,
        Some(c) => c as u32 as int,
    }
}

/// The words of `runs` are those of its runs.
proof fn lemma_flatten_holds(runs: Seq<Run>, word: &str)
    ensures
        flatten(runs).contains(word) <==> exists|g: int, i: int|
            0 <= g < runs.len() && 0 <= i < runs[g].words@.len() && #[trigger] runs[g].words@[i]
                == word,
    decreases runs.len(),
{
    if runs.len() > 0 {
        let front = runs.drop_last();
        let last = runs.last().words@;
        lemma_flatten_holds(front, word);
        let whole = flatten(runs);
        if whole.contains(word) {
            let t = choose|t: int| 0 <= t < whole.len() && whole[t] == word;
            if t < flatten(front).len() {
                assert(flatten(front)[t] == word);
                assert(flatten(front).contains(word));
                let (g, i) = choose|g: int, i: int|
                    0 <= g < front.len() && 0 <= i < front[g].words@.len()
                        && #[trigger] front[g].words@[i] == word;
                assert(runs[g].words@[i] == word);
            } else {
                let i = t - flatten(front).len();
                assert(runs[runs.len() - 1].words@[i] == word);
            }
        }
        if exists|g: int, i: int|
            0 <= g < runs.len() && 0 <= i < runs[g].words@.len() && #[trigger] runs[g].words@[i]
                == word {
            let (g, i) = choose|g: int, i: int|
                0 <= g < runs.len() && 0 <= i < runs[g].words@.len()
                    && #[trigger] runs[g].words@[i] == word;
            if g < front.len() {
                assert(front[g].words@[i] == word);
                assert(flatten(front).contains(word));
                let t = choose|t: int| 0 <= t < flatten(front).len() && flatten(front)[t] == word;
                assert(whole[t] == word);
            } else {
                assert(whole[flatten(front).len() + i] == word);
            }
        }
    }
}

/// There are no more runs than words.
proof fn lemma_flatten_len(runs: Seq<Run>)
    requires
        forall|g: int| 0 <= g < runs.len() ==> (#[trigger] runs[g]).words@.len() > 0,
    ensures
        flatten(runs).len() >= runs.len(),
    decreases runs.len(),
{
    if runs.len() > 0 {
        let front = runs.drop_last();
        assert forall|g: int| 0 <= g < front.len() implies (#[trigger] front[g]).words@.len()
            > 0 by {
            assert(front[g] == runs[g]);
        }
        lemma_flatten_len(front);
        assert(runs.last() == runs[runs.len() - 1]);
    }
}

/// In sorted words, a word of an earlier run comes no later than a word
/// of a later run.
proof fn lemma_runs_ordered(runs: Seq<Run>, g: int, i: int, h: int, j: int)
    requires
        sorted(views(flatten(runs))),
        0 <= g < h < runs.len(),
        0 <= i < runs[g].words@.len(),
        0 <= j < runs[h].words@.len(),
    ensures
        lex_le(runs[g].words@[i]@, runs[h].words@[j]@),
    decreases runs.len(),
{
    let front = runs.drop_last();
    let whole = flatten(runs);
    let cut = flatten(front).len() as int;
    assert forall|a: int, b: int| 0 <= a < b < cut implies lex_le(
        #[trigger] views(flatten(front))[a],
        #[trigger] views(flatten(front))[b],
    ) by {
        assert(views(whole)[a] == flatten(front)[a]@);
        assert(views(whole)[b] == flatten(front)[b]@);
    }
    if h < runs.len() - 1 {
        assert(front[g] == runs[g]);
        assert(front[h] == runs[h]);
        lemma_runs_ordered(front, g, i, h, j);
    } else {
        let u = runs[g].words@[i];
        assert(front[g].words@[i] == u);
        lemma_flatten_holds(front, u);
        let t = choose|t: int| 0 <= t < cut && flatten(front)[t] == u;
        assert(views(whole)[t] == u@);
        assert(views(whole)[cut + j] == runs[h].words@[j]@);
    }
}

/// A word that comes no later than another has no later first symbol.
proof fn lemma_head_rank(a: Seq<char>, b: Seq<char>)
    requires
        lex_le(a, b),
    ensures
        rank(head(a)) <= rank(head(b)),
{
}

/// Symbols with one code point are one symbol.
proof fn lemma_rank_injective(c: char, d: char)
    requires
        c as u32 == d as u32,
    ensures
        c == d,
{
    vstd::utf8::char_u32_cast(c, c as u32);
    vstd::utf8::char_u32_cast(d, d as u32);
}

/// The runs of sorted words have first symbols in strictly rising order.
proof fn lemma_keys_rise(words: Seq<&str>, runs: Seq<Run>, g: int, h: int)
    requires
        is_chunking(words, runs),
        sorted(views(words)),
        0 <= g < h < runs.len(),
    ensures
        rank(runs[g].key) < rank(runs[h].key),
        runs[g].key != runs[h].key,
    decreases h - g,
{
    let u = runs[h - 1].words@[0];
    let v = runs[h].words@[0];
    lemma_runs_ordered(runs, h - 1, 0, h, 0);
    lemma_head_rank(u@, v@);
    assert(runs[h - 1].key != runs[h].key);
    if rank(runs[h - 1].key) == rank(runs[h].key) {
        match (runs[h - 1].key, runs[h].key) {
            (Some(c), Some(d)) => {
                lemma_rank_injective(c, d);
            },
            _ => {},
        }
    }
    if g < h - 1 {
        lemma_keys_rise(words, runs, g, h - 1);
    }
}

// ---------------------------------------------------------------------------
// Trees of states

impl AutomatonView {
    /// Every edge leads to a state allocated after its source.
    pub open spec fn forward(self) -> bool {
        forall|p: int, k: int|
            0 <= p < self.states.len() && 0 <= k < self.states[p].len() ==> (
            #[trigger] self.states[p][k]).target > p
    }

    /// The shape of a trie: out of each state at most one edge per symbol,
    /// each naming its symbol and leading to a state allocated later.
    pub open spec fn tree_shaped(self) -> bool {
        &&& self.wf()
        &&& self.deterministic()
        &&& self.explicit()
        &&& self.forward()
    }
}

impl AutomatonView {
    /// Where every edge leads forward, no cycle exists.
    pub proof fn lemma_forward_acyclic(self)
        requires
            self.wf(),
            self.forward(),
        ensures
            self.acyclic(),
    {
        let n = self.states.len();
        let rank = Seq::new(n, |p: int| (n - p) as nat);
        assert forall|p: int, i: int|
            0 <= p < self.states.len() && 0 <= i < self.states[p].len() implies rank[(
        #[trigger] self.states[p][i]).target] < rank[p] by {
            assert(self.has_state(self.states[p][i].target));
        }
        assert(self.ranked_by(rank));
    }
}

/// `b` has the states of `a` from `lo` on, with their edges and finality.
pub open spec fn kept_from(a: AutomatonView, b: AutomatonView, lo: int) -> bool {
    &&& b.states.len() >= a.states.len()
    &&& forall|p: int| lo <= p < a.states.len() ==> #[trigger] b.states[p] == a.states[p]
    &&& forall|p: int|
        lo <= p < a.states.len() ==> (#[trigger] b.finals.contains(p)) == a.finals.contains(p)
}

/// What is accepted from a state depends only on the states allocated
/// after it, where edges lead forward.
proof fn lemma_frame(a: AutomatonView, b: AutomatonView, lo: int, p: int, x: Seq<char>)
    requires
        a.wf(),
        a.forward(),
        kept_from(a, b, lo),
        lo <= p < a.states.len(),
        0 <= lo,
    ensures
        a.accepts_from(p, x) == b.accepts_from(p, x),
    decreases x.len(),
{
    if x.len() > 0 {
        assert(b.states[p] == a.states[p]);
        match a.next(p, x[0]) {
            Some(q) => {
                crate::language::lemma_first_match_some(a.states[p], x[0]);
                let k = choose|k: int|
                    0 <= k < a.states[p].len() && (#[trigger] a.states[p][k]).label.allows(x[0])
                        && crate::language::first_match(a.states[p], x[0]) == Some(
                        a.states[p][k].target,
                    );
                assert(a.has_state(a.states[p][k].target));
                lemma_frame(a, b, lo, q, x.drop_first());
            },
            None => {},
        }
    } else {
        assert(b.finals.contains(p) == a.finals.contains(p));
    }
}

/// An edge that does not admit a symbol does not change which edge is the
/// first to admit it.
proof fn lemma_first_match_push(edges: Seq<Edge>, e: Edge, c: char)
    requires
        !e.label.allows(c),
    ensures
        crate::language::first_match(edges.push(e), c) == crate::language::first_match(edges, c),
    decreases edges.len(),
{
    reveal_with_fuel(crate::language::first_match, 2);
    if edges.len() == 0 {
        assert(edges.push(e).drop_first() =~= Seq::<Edge>::empty());
    } else {
        assert(edges.push(e).drop_first() =~= edges.drop_first().push(e));
        lemma_first_match_push(edges.drop_first(), e, c);
    }
}

/// `label` names the first symbol of one of the first `upto` runs.
pub open spec fn keyed(runs: Seq<Run>, upto: int, label: Label) -> bool {
    exists|j: int| 0 <= j < upto && label is Is && (#[trigger] runs[j]).key == Some(label->Is_0)
}

/// What `a` has grown into from `old` once the words of `dict` hang below
/// the state `s`: a trie again, with `old`'s other states as they were, that
/// accepts from `s` the nonempty words of `dict`.
pub open spec fn sprouted(
    old: AutomatonView,
    a: AutomatonView,
    s: int,
    dict: Seq<Seq<char>>,
) -> bool {
    &&& a.tree_shaped()
    &&& a.states.len() >= old.states.len()
    &&& a.start == old.start
    &&& forall|p: int|
        0 <= p < old.states.len() && p != s ==> #[trigger] a.states[p] == old.states[p]
    &&& forall|p: int|
        0 <= p < old.states.len() ==> (#[trigger] a.finals.contains(p)) == old.finals.contains(p)
    &&& forall|k: int|
        0 <= k < a.states[s].len() ==> (#[trigger] a.states[s][k]).target >= old.states.len()
    &&& forall|x: Seq<char>| x.len() > 0 ==> (#[trigger] a.accepts_from(s, x) <==> dict.contains(x))
}

/// As `sprouted`, with the first `g` runs hanging below `s`.
pub open spec fn growing(
    old: AutomatonView,
    a: AutomatonView,
    s: int,
    runs: Seq<Run>,
    g: int,
) -> bool {
    &&& a.tree_shaped()
    &&& a.states.len() >= old.states.len()
    &&& a.start == old.start
    &&& forall|p: int|
        0 <= p < old.states.len() && p != s ==> #[trigger] a.states[p] == old.states[p]
    &&& forall|p: int|
        0 <= p < old.states.len() ==> (#[trigger] a.finals.contains(p)) == old.finals.contains(p)
    &&& forall|k: int|
        0 <= k < a.states[s].len() ==> (#[trigger] a.states[s][k]).target >= old.states.len()
            && keyed(runs, g, a.states[s][k].label)
    &&& forall|x: Seq<char>|
        x.len() > 0 ==> (#[trigger] a.accepts_from(s, x) <==> spelled(runs, g, x))
}

/// `a` with one more state, an `Is(c)` edge from `s` to it, and the new
/// state final where `accepting` says so.
pub open spec fn budded(a: AutomatonView, s: int, c: char, accepting: bool) -> AutomatonView {
    let t = a.states.len() as int;
    AutomatonView {
        states: a.states.push(Seq::empty()).update(
            s,
            a.states[s].push(Edge { label: Label::Is(c), target: t }),
        ),
        start: a.start,
        finals: if accepting {
            a.finals.insert(t)
        } else {
            a.finals
        },
    }
}

/// Before any run hangs below a state without edges, nothing does.
proof fn lemma_growing_start(old: AutomatonView, s: int, runs: Seq<Run>)
    requires
        old.tree_shaped(),
        old.has_state(s),
        old.states[s].len() == 0,
    ensures
        growing(old, old, s, runs, 0),
{
}

/// A run of empty words adds nothing.
proof fn lemma_skip(old: AutomatonView, a: AutomatonView, s: int, runs: Seq<Run>, g: int)
    requires
        growing(old, a, s, runs, g),
        0 <= g < runs.len(),
        runs[g].key is None,
        forall|i: int|
            0 <= i < runs[g].words@.len() ==> head((#[trigger] runs[g].words@[i])@) is None,
    ensures
        growing(old, a, s, runs, g + 1),
{
    assert forall|k: int| 0 <= k < a.states[s].len() implies keyed(
        runs,
        g + 1,
        (#[trigger] a.states[s][k]).label,
    ) by {
        let label = a.states[s][k].label;
        assert(keyed(runs, g, label));
        let j = choose|j: int|
            0 <= j < g && label is Is && (#[trigger] runs[j]).key == Some(label->Is_0);
        assert(runs[j].key == Some(label->Is_0));
    }
    assert forall|x: Seq<char>| x.len() > 0 implies (#[trigger] a.accepts_from(s, x) <==> spelled(
        runs,
        g + 1,
        x,
    )) by {
        if spelled(runs, g + 1, x) {
            let (h, i) = choose|h: int, i: int|
                0 <= h < g + 1 && 0 <= i < runs[h].words@.len() && (#[trigger] runs[h].words@[i])@
                    == x;
            if h == g {
                assert(head(runs[g].words@[i]@) is None);
            }
            assert(spelled(runs, g, x));
        }
        if spelled(runs, g, x) {
            let (h, i) = choose|h: int, i: int|
                0 <= h < g && 0 <= i < runs[h].words@.len() && (#[trigger] runs[h].words@[i])@
                    == x;
            assert(runs[h].words@[i]@ == x);
        }
    }
}

/// Once all runs hang below `s`, all words do.
proof fn lemma_grown(old: AutomatonView, a: AutomatonView, s: int, words: Seq<&str>, runs: Seq<Run>)
    requires
        growing(old, a, s, runs, runs.len() as int),
        flatten(runs) == words,
    ensures
        sprouted(old, a, s, views(words)),
{
    let dict = views(words);
    assert forall|x: Seq<char>| x.len() > 0 implies (#[trigger] a.accepts_from(s, x)
        <==> dict.contains(x)) by {
        if spelled(runs, runs.len() as int, x) {
            let (h, i) = choose|h: int, i: int|
                0 <= h < runs.len() && 0 <= i < runs[h].words@.len() && (
                #[trigger] runs[h].words@[i])@ == x;
            let word = runs[h].words@[i];
            lemma_flatten_holds(runs, word);
            let t = choose|t: int| 0 <= t < words.len() && words[t] == word;
            assert(dict[t] == x);
        }
        if dict.contains(x) {
            let t = choose|t: int| 0 <= t < dict.len() && dict[t] == x;
            let word = words[t];
            assert(flatten(runs).contains(word));
            lemma_flatten_holds(runs, word);
            let (h, i) = choose|h: int, i: int|
                0 <= h < runs.len() && 0 <= i < runs[h].words@.len() && #[trigger] runs[h].words@[i]
                    == word;
            assert(runs[h].words@[i]@ == x);
        }
    }
}

/// `a` with one more state that has no edges.
pub open spec fn with_state(a: AutomatonView) -> AutomatonView {
    AutomatonView { states: a.states.push(Seq::empty()), ..a }
}

/// The edge into a new state for the next run clashes with no edge below
/// `s`, and the automaton stays a trie.
proof fn lemma_bud(
    old: AutomatonView,
    a: AutomatonView,
    s: int,
    c: char,
    accepting: bool,
    runs: Seq<Run>,
    g: int,
)
    requires
        growing(old, a, s, runs, g),
        old.has_state(s),
        0 <= g < runs.len(),
        runs[g].key == Some(c),
        forall|j: int| 0 <= j < g ==> (#[trigger] runs[j]).key != runs[g].key,
    ensures
        !with_state(a).clashes(s, Label::Is(c)),
        with_state(a).with_edge(s, Label::Is(c), a.states.len() as int) == budded(a, s, c, false),
        budded(a, s, c, accepting).tree_shaped(),
        budded(a, s, c, accepting).states.len() == a.states.len() + 1,
        budded(a, s, c, accepting).states[a.states.len() as int].len() == 0,
{
    let t = a.states.len() as int;
    let edges = a.states[s];
    let label = Label::Is(c);
    let b = budded(a, s, c, accepting);
    assert(with_state(a).states[s] == edges);
    assert forall|k: int| 0 <= k < edges.len() implies !(#[trigger] edges[k]).label.overlaps(
        label,
    ) by {
        assert(keyed(runs, g, edges[k].label));
    }
    assert(with_state(a).with_edge(s, label, t).states =~= budded(a, s, c, false).states);
    assert forall|p: int, k: int|
        0 <= p < b.states.len() && 0 <= k < b.states[p].len() implies b.has_state(
        (#[trigger] b.states[p][k]).target,
    ) && b.states[p][k].target > p && b.states[p][k].label is Is by {
        if p == s && k == edges.len() {
        } else {
            assert(b.states[p][k] == a.states[p][k]);
            assert(a.has_state(a.states[p][k].target));
        }
    }
    assert(b.wf()) by {
        assert forall|q: int| b.finals.contains(q) implies b.has_state(q) by {
            if q != t {
                assert(a.finals.contains(q));
                assert(a.has_state(q));
            }
        }
    }
    assert(b.explicit());
    assert(b.forward());
    assert forall|p: int, i: int, j: int|
        0 <= p < b.states.len() && 0 <= i < b.states[p].len() && 0 <= j < b.states[p].len() && i
            != j implies !(#[trigger] b.states[p][i]).label.overlaps(
        (#[trigger] b.states[p][j]).label,
    ) by {
        if p == s {
            if i < edges.len() && j < edges.len() {
                assert(b.states[p][i] == a.states[p][i]);
                assert(b.states[p][j] == a.states[p][j]);
            } else if i < edges.len() {
                assert(b.states[p][i] == edges[i]);
                assert(!edges[i].label.overlaps(label));
            } else {
                assert(b.states[p][j] == edges[j]);
                assert(!edges[j].label.overlaps(label));
                if label.overlaps(edges[j].label) {
                    let x = choose|x: char| label.allows(x) && edges[j].label.allows(x);
                    assert(edges[j].label.allows(x) && label.allows(x));
                }
            }
        } else {
            assert(b.states[p][i] == a.states[p][i]);
            assert(b.states[p][j] == a.states[p][j]);
        }
    }
}

/// Once the suffixes of a run hang below its new state, the run hangs
/// below `s`.
proof fn lemma_branch(
    old: AutomatonView,
    a0: AutomatonView,
    a4: AutomatonView,
    s: int,
    c: char,
    accepting: bool,
    runs: Seq<Run>,
    g: int,
    suffixes: Seq<Seq<char>>,
)
    requires
        growing(old, a0, s, runs, g),
        old.has_state(s),
        0 <= g < runs.len(),
        runs[g].key == Some(c),
        forall|j: int| 0 <= j < g ==> (#[trigger] runs[j]).key != runs[g].key,
        forall|h: int, i: int|
            0 <= h <= g && 0 <= i < runs[h].words@.len() ==> head((#[trigger] runs[h].words@[i])@)
                == runs[h].key,
        suffixes.len() == runs[g].words@.len(),
        forall|i: int|
            0 <= i < suffixes.len() ==> #[trigger] suffixes[i] == runs[g].words@[i]@.skip(1),
        accepting <==> exists|i: int|
            0 <= i < suffixes.len() && (#[trigger] suffixes[i]).len() == 0,
        sprouted(budded(a0, s, c, accepting), a4, a0.states.len() as int, suffixes),
    ensures
        growing(old, a4, s, runs, g + 1),
{
    let t = a0.states.len() as int;
    let a3 = budded(a0, s, c, accepting);
    let edges0 = a0.states[s];
    let edge = Edge { label: Label::Is(c), target: t };
    let edges4 = a4.states[s];
    assert(a3.states[s] == edges0.push(edge));
    assert(edges4 == edges0.push(edge));
    assert forall|p: int| 0 <= p < old.states.len() && p != s implies #[trigger] a4.states[p]
        == old.states[p] by {
        assert(a4.states[p] == a3.states[p]);
        assert(a0.states[p] == old.states[p]);
    }
    assert forall|p: int| 0 <= p < old.states.len() implies (#[trigger] a4.finals.contains(p))
        == old.finals.contains(p) by {
        assert(a4.finals.contains(p) == a3.finals.contains(p));
        assert(a0.finals.contains(p) == old.finals.contains(p));
    }
    assert forall|k: int| 0 <= k < edges4.len() implies (#[trigger] a4.states[s][k]).target
        >= old.states.len() && keyed(runs, g + 1, a4.states[s][k].label) by {
        if k < edges0.len() {
            let label = edges0[k].label;
            assert(keyed(runs, g, label));
            let j = choose|j: int|
                0 <= j < g && label is Is && (#[trigger] runs[j]).key == Some(label->Is_0);
            assert(runs[j].key == Some(label->Is_0));
        } else {
            assert(runs[g].key == Some(c));
        }
    }
    assert(kept_from(a0, a4, old.states.len() as int)) by {
        assert forall|p: int|
            old.states.len() <= p < a0.states.len() implies #[trigger] a4.states[p]
            == a0.states[p] by {
            assert(a4.states[p] == a3.states[p]);
        }
        assert forall|p: int| old.states.len() <= p < a0.states.len() implies (
        #[trigger] a4.finals.contains(p)) == a0.finals.contains(p) by {
            assert(a4.finals.contains(p) == a3.finals.contains(p));
        }
    }
    assert forall|x: Seq<char>| x.len() > 0 implies (#[trigger] a4.accepts_from(s, x) <==> spelled(
        runs,
        g + 1,
        x,
    )) by {
        lemma_branch_word(old, a0, a4, s, c, accepting, runs, g, suffixes, x);
    }
}

/// Words with one first symbol and one rest are one word.
proof fn lemma_same_word(a: Seq<char>, b: Seq<char>)
    requires
        a.len() > 0,
        b.len() > 0,
        a[0] == b[0],
        a.skip(1) =~= b.skip(1),
    ensures
        a == b,
{
    assert(a.len() == b.len()) by {
        assert(a.skip(1).len() == a.len() - 1);
        assert(b.skip(1).len() == b.len() - 1);
    }
    assert forall|i: int| 0 <= i < a.len() implies a[i] == b[i] by {
        if i > 0 {
            assert(a.skip(1)[i - 1] == a[i]);
            assert(b.skip(1)[i - 1] == b[i]);
        }
    }
    assert(a =~= b);
}

/// The part of `lemma_branch` that speaks of one word.
proof fn lemma_branch_word(
    old: AutomatonView,
    a0: AutomatonView,
    a4: AutomatonView,
    s: int,
    c: char,
    accepting: bool,
    runs: Seq<Run>,
    g: int,
    suffixes: Seq<Seq<char>>,
    x: Seq<char>,
)
    requires
        growing(old, a0, s, runs, g),
        old.has_state(s),
        0 <= g < runs.len(),
        runs[g].key == Some(c),
        forall|j: int| 0 <= j < g ==> (#[trigger] runs[j]).key != runs[g].key,
        forall|h: int, i: int|
            0 <= h <= g && 0 <= i < runs[h].words@.len() ==> head((#[trigger] runs[h].words@[i])@)
                == runs[h].key,
        suffixes.len() == runs[g].words@.len(),
        forall|i: int|
            0 <= i < suffixes.len() ==> #[trigger] suffixes[i] == runs[g].words@[i]@.skip(1),
        accepting <==> exists|i: int|
            0 <= i < suffixes.len() && (#[trigger] suffixes[i]).len() == 0,
        sprouted(budded(a0, s, c, accepting), a4, a0.states.len() as int, suffixes),
        a4.states[s] == a0.states[s].push(
            Edge { label: Label::Is(c), target: a0.states.len() as int },
        ),
        kept_from(a0, a4, old.states.len() as int),
        x.len() > 0,
    ensures
        a4.accepts_from(s, x) <==> spelled(runs, g + 1, x),
{
    let t = a0.states.len() as int;
    let a3 = budded(a0, s, c, accepting);
    let edges0 = a0.states[s];
    let edge = Edge { label: Label::Is(c), target: t };
    let edges4 = a4.states[s];
    let y = x.drop_first();
    if x[0] == c {
        assert(edges4[edges0.len() as int] == edge);
        crate::language::lemma_first_match_unique(edges4, c, edges0.len() as int);
        assert(a4.accepts_from(s, x) == a4.accepts_from(t, y));
        let here = exists|i: int|
            0 <= i < runs[g].words@.len() && (#[trigger] runs[g].words@[i])@ == x;
        // what hangs below the new state is the run without its first symbol
        assert(x.skip(1) =~= y);
        if y.len() > 0 {
            assert(a4.accepts_from(t, y) <==> suffixes.contains(y));
            if suffixes.contains(y) {
                let i = choose|i: int| 0 <= i < suffixes.len() && suffixes[i] == y;
                let word = runs[g].words@[i]@;
                assert(head(word) == Some(c));
                assert(suffixes[i] == word.skip(1));
                lemma_same_word(word, x);
                assert(here);
            }
            if here {
                let i = choose|i: int|
                    0 <= i < runs[g].words@.len() && (#[trigger] runs[g].words@[i])@ == x;
                assert(suffixes[i] == x.skip(1));
                assert(x.skip(1) =~= y);
            }
        } else {
            assert(a4.accepts_from(t, y) == a4.finals.contains(t));
            assert(a4.finals.contains(t) == a3.finals.contains(t));
            assert(!a0.finals.contains(t)) by {
                if a0.finals.contains(t) {
                    assert(a0.has_state(t));
                }
            }
            assert(a3.finals.contains(t) == accepting);
            if accepting {
                let i = choose|i: int|
                    0 <= i < suffixes.len() && (#[trigger] suffixes[i]).len() == 0;
                let word = runs[g].words@[i]@;
                assert(head(word) == Some(c));
                assert(suffixes[i] == word.skip(1));
                assert(x.skip(1) =~= y);
                lemma_same_word(word, x);
                assert(here);
            }
            if here {
                let i = choose|i: int|
                    0 <= i < runs[g].words@.len() && (#[trigger] runs[g].words@[i])@ == x;
                assert(suffixes[i] == x.skip(1));
                assert(suffixes[i].len() == 0);
            }
        }
        // no earlier run holds a word that starts with this symbol
        if spelled(runs, g + 1, x) {
            let (h, i) = choose|h: int, i: int|
                0 <= h < g + 1 && 0 <= i < runs[h].words@.len() && (#[trigger] runs[h].words@[i])@
                    == x;
            assert(head(runs[h].words@[i]@) == runs[h].key);
            assert(h == g);
        }
    } else {
        lemma_first_match_push(edges0, edge, x[0]);
        assert(a4.next(s, x[0]) == a0.next(s, x[0]));
        match a0.next(s, x[0]) {
            Some(q) => {
                crate::language::lemma_first_match_some(edges0, x[0]);
                let k = choose|k: int|
                    0 <= k < edges0.len() && (#[trigger] edges0[k]).label.allows(x[0])
                        && crate::language::first_match(edges0, x[0]) == Some(edges0[k].target);
                assert(a0.has_state(a0.states[s][k].target));
                lemma_frame(a0, a4, old.states.len() as int, q, y);
            },
            None => {},
        }
        assert(a4.accepts_from(s, x) == a0.accepts_from(s, x));
        if spelled(runs, g + 1, x) {
            let (h, i) = choose|h: int, i: int|
                0 <= h < g + 1 && 0 <= i < runs[h].words@.len() && (#[trigger] runs[h].words@[i])@
                    == x;
            assert(head(runs[h].words@[i]@) == runs[h].key);
            assert(h != g);
            assert(spelled(runs, g, x));
        }
        if spelled(runs, g, x) {
            let (h, i) = choose|h: int, i: int|
                0 <= h < g && 0 <= i < runs[h].words@.len() && (#[trigger] runs[h].words@[i])@
                    == x;
            assert(runs[h].words@[i]@ == x);
        }
    }
}

// ---------------------------------------------------------------------------
// The trie

/// The length of the longest of `words`.
pub open spec fn longest(words: Seq<&str>) -> nat
    decreases words.len(),
{
    if words.len() == 0 {
        0
    } else {
        let rest = longest(words.drop_last());
        if words.last()@.len() > rest {
            words.last()@.len()
        } else {
            rest
        }
    }
}

proof fn lemma_longest(words: Seq<&str>, i: int)
    requires
        0 <= i < words.len(),
    ensures
        words[i]@.len() <= longest(words),
    decreases words.len(),
{
    if i < words.len() - 1 {
        lemma_longest(words.drop_last(), i);
    }
}

/// The words without their first symbols.
fn suffixes_of<'a>(words: &Vec<&'a str>) -> (suffixes: Vec<&'a str>)
    ensures
        suffixes@.len() == words@.len(),
        forall|i: int|
            0 <= i < words@.len() && words@[i]@.len() > 0 ==> (#[trigger] suffixes@[i])@
                == words@[i]@.skip(1),
        forall|i: int|
            0 <= i < words@.len() && words@[i]@.len() == 0
                ==> (#[trigger] suffixes@[i])@.len() == 0,
{
    let mut suffixes: Vec<&str> = Vec::new();
    let mut i: usize = 0;
    while i < words.len()
        invariant
            i <= words@.len(),
            suffixes@.len() == i,
            forall|j: int|
                0 <= j < i && words@[j]@.len() > 0 ==> (#[trigger] suffixes@[j])@
                    == words@[j]@.skip(1),
            forall|j: int|
                0 <= j < i && words@[j]@.len() == 0 ==> (#[trigger] suffixes@[j])@.len() == 0,
        decreases words@.len() - i,
    {
        suffixes.push(suffix_of(words[i]));
        i += 1;
    }
    suffixes
}

/// Whether one of the words is empty.
fn any_empty(words: &Vec<&str>) -> (found: bool)
    ensures
        found <==> exists|i: int| 0 <= i < words@.len() && (#[trigger] words@[i])@.len() == 0,
{
    let mut i: usize = 0;
    while i < words.len()
        invariant
            i <= words@.len(),
            forall|j: int| 0 <= j < i ==> (#[trigger] words@[j])@.len() != 0,
        decreases words@.len() - i,
    {
        if words[i].is_empty() {
            return true;
        }
        i += 1;
    }
    false
}

/// A dictionary: the deterministic automaton that accepts its words.
#[derive(Debug)]
pub struct Trie(Automaton<Deterministic>);

impl View for Trie {
    type V = AutomatonView;

    closed spec fn view(&self) -> AutomatonView {
        self.0@
    }
}

impl Clone for Trie {
    fn clone(&self) -> (copy: Self)
        ensures
            copy@ == self@,
    {
        proof {
            use_type_invariant(self);
        }
        Trie(self.0.clone())
    }
}

impl Trie {
    /// The automaton is a tree with a start state: this holds of every trie.
    #[verifier::type_invariant]
    pub closed spec fn wf(&self) -> bool {
        &&& self.0@.tree_shaped()
        &&& self.0@.states.len() > 0
        &&& !self.0@.finals.contains(self.0@.start_state())
    }

    /// Whether `word` is in the dictionary.
    pub open spec fn holds(&self, word: Seq<char>) -> bool {
        self@.dfa_accepts(word)
    }

    /// The trie of `words`, which are sorted on the way: it holds exactly
    /// the nonempty ones. Of no words it is a start state alone, not final.
    pub fn new(words: &mut [&str]) -> (trie: Self)
        ensures
            old(words)@.len() == 0 ==> trie@ == (AutomatonView {
                states: seq![Seq::<Edge>::empty()],
                start: None,
                finals: Set::<int>::empty(),
            }),
            forall|word: Seq<char>|
                #[trigger] trie.holds(word) <==> word.len() > 0 && views(old(words)@).contains(
                    word,
                ),
            views(final(words)@).to_multiset() == views(old(words)@).to_multiset(),
            sorted(views(final(words)@)),
    {
        sort_words(words);
        let mut automaton: Automaton<Deterministic> = Automaton::default();
        let start_state = automaton.add_state();
        let ghost dict = views(words@);
        proof {
            use_type_invariant(&automaton);
            assert forall|i: int| 0 <= i < words@.len() implies (#[trigger] words@[i])@.len()
                <= longest(words@) by {
                lemma_longest(words@, i);
            }
        }
        let ghost seed = automaton@;
        Self::add_trie_states(&mut automaton, start_state, words, Ghost(longest(words@)));
        proof {
            assert(seed.states =~= seq![Seq::<Edge>::empty()]);
            assert(views(words@).to_multiset().len() == views(old(words)@).to_multiset().len());
            vstd::seq_lib::to_multiset_len(views(words@));
            vstd::seq_lib::to_multiset_len(views(old(words)@));
            assert forall|word: Seq<char>|
                #[trigger] automaton@.dfa_accepts(word) <==> word.len() > 0 && views(
                    old(words)@,
                ).contains(word) by {
                vstd::seq_lib::to_multiset_contains(dict, word);
                vstd::seq_lib::to_multiset_contains(views(old(words)@), word);
                if word.len() == 0 {
                    assert(!seed.finals.contains(0));
                }
            }
        }
        Self(automaton)
    }

    /// Hangs `words` below `start_state`, one new state per distinct first
    /// symbol, final where a word ends there, with the rests of the words
    /// hung below it in turn.
    fn add_trie_states(
        automaton: &mut Automaton<Deterministic>,
        start_state: StateId,
        words: &[&str],
        Ghost(bound): Ghost<nat>,
    )
        requires
            old(automaton)@.tree_shaped(),
            old(automaton)@.has_state(start_state@),
            old(automaton)@.states[start_state@].len() == 0,
            sorted(views(words@)),
            forall|i: int| 0 <= i < words@.len() ==> (#[trigger] words@[i])@.len() <= bound,
        ensures
            sprouted(old(automaton)@, final(automaton)@, start_state@, views(words@)),
            words@.len() == 0 ==> final(automaton)@ == old(automaton)@,
        decreases bound,
    {
        let runs = chunk_by_first_symbol(words);
        let ghost before = automaton@;
        let ghost s = start_state@;
        proof {
            lemma_growing_start(before, s, runs@);
            lemma_flatten_len(runs@);
        }
        let mut g: usize = 0;
        while g < runs.len()
            invariant
                g <= runs@.len(),
                s == start_state@,
                before.has_state(s),
                is_chunking(words@, runs@),
                sorted(views(words@)),
                forall|i: int| 0 <= i < words@.len() ==> (#[trigger] words@[i])@.len() <= bound,
                growing(before, automaton@, s, runs@, g as int),
                runs@.len() == 0 ==> automaton@ == before,
            decreases runs@.len() - g,
        {
            let run = &runs[g];
            proof {
                assert forall|j: int| 0 <= j < g implies (#[trigger] runs@[j]).key
                    != runs@[g as int].key by {
                    lemma_keys_rise(words@, runs@, j, g as int);
                }
            }
            match run.key {
                Some(c) => {
                    let ghost a0 = automaton@;
                    let new_state = automaton.add_state();
                    proof {
                        lemma_bud(before, a0, s, c, false, runs@, g as int);
                    }
                    let transition_added = automaton.add_transition(
                        start_state,
                        new_state,
                        Transition::Is(c),
                    );
                    assert(transition_added);
                    let suffixes = suffixes_of(&run.words);
                    let accepting = any_empty(&suffixes);
                    if accepting {
                        automaton.make_state_final(new_state);
                    }
                    proof {
                        let first = run.words@[0];
                        assert(head(first@) == Some(c));
                        lemma_flatten_holds(runs@, first);
                        let t = choose|t: int| 0 <= t < words@.len() && words@[t] == first;
                        assert(words@[t]@.len() <= bound);
                        lemma_bud(before, a0, s, c, accepting, runs@, g as int);
                        assert(automaton@ == budded(a0, s, c, accepting));
                        lemma_suffixes_sorted(words@, runs@, g as int, suffixes@, bound);
                    }
                    Self::add_trie_states(
                        automaton,
                        new_state,
                        suffixes.as_slice(),
                        Ghost((bound - 1) as nat),
                    );
                    proof {
                        assert forall|i: int| 0 <= i < suffixes@.len() implies #[trigger] views(
                            suffixes@,
                        )[i] == run.words@[i]@.skip(1) by {
                            assert(head(run.words@[i]@) == Some(c));
                        }
                        assert(accepting <==> exists|i: int|
                            0 <= i < suffixes@.len() && (#[trigger] views(suffixes@)[i]).len()
                                == 0) by {
                            if accepting {
                                let i = choose|i: int|
                                    0 <= i < suffixes@.len() && (#[trigger] suffixes@[i])@.len()
                                        == 0;
                                assert(views(suffixes@)[i].len() == 0);
                            }
                            if exists|i: int|
                                0 <= i < suffixes@.len() && (#[trigger] views(suffixes@)[i]).len()
                                    == 0 {
                                let i = choose|i: int|
                                    0 <= i < suffixes@.len() && (#[trigger] views(
                                        suffixes@,
                                    )[i]).len() == 0;
                                assert(suffixes@[i]@.len() == 0);
                            }
                        }
                        lemma_branch(
                            before,
                            a0,
                            automaton@,
                            s,
                            c,
                            accepting,
                            runs@,
                            g as int,
                            views(suffixes@),
                        );
                    }
                },
                None => {
                    proof {
                        lemma_skip(before, automaton@, s, runs@, g as int);
                    }
                },
            }
            g += 1;
        }
        proof {
            lemma_grown(before, automaton@, s, words@, runs@);
        }
    }

    /// Whether `word` is in the dictionary.
    pub fn contains(&self, word: &str) -> (found: bool)
        ensures
            found == self.holds(word@),
    {
        self.0.run(word)
    }

    /// The automaton of the dictionary: a tree whose start state is not final.
    pub fn get_automaton(&self) -> (automaton: &Automaton<Deterministic>)
        ensures
            automaton@ == self@,
            automaton@.tree_shaped(),
            automaton@.acyclic(),
            automaton@.states.len() > 0,
            !self.holds(Seq::empty()),
    {
        proof {
            use_type_invariant(self);
            self.0@.lemma_forward_acyclic();
        }
        &self.0
    }

    /// The words of the dictionary that `automata` accepts, each once, in
    /// no particular order.
    pub fn filter(&self, automata: &Automaton<Deterministic>) -> (words: Vec<String>)
        requires
            automata@.deterministic(),
        ensures
            texts(words@).no_duplicates(),
            forall|x: Seq<char>| #[trigger]
                texts(words@).contains(x) <==> automata@.dfa_accepts(x) && self.holds(x),
    {
        proof {
            use_type_invariant(self);
            self.0@.lemma_forward_acyclic();
        }
        automata.intersect(&self.0)
    }
}

/// The rests of the words of a run of sorted words are sorted, and shorter
/// than the words.
proof fn lemma_suffixes_sorted(
    words: Seq<&str>,
    runs: Seq<Run>,
    g: int,
    suffixes: Seq<&str>,
    bound: nat,
)
    requires
        is_chunking(words, runs),
        sorted(views(words)),
        0 <= g < runs.len(),
        runs[g].key is Some,
        suffixes.len() == runs[g].words@.len(),
        forall|i: int|
            0 <= i < suffixes.len() && runs[g].words@[i]@.len() > 0 ==> (#[trigger] suffixes[i])@
                == runs[g].words@[i]@.skip(1),
        forall|i: int| 0 <= i < words.len() ==> (#[trigger] words[i])@.len() <= bound,
    ensures
        sorted(views(suffixes)),
        bound > 0,
        forall|i: int| 0 <= i < suffixes.len() ==> (#[trigger] suffixes[i])@.len() <= bound - 1,
{
    let run = runs[g].words@;
    assert forall|i: int| 0 <= i < run.len() implies (#[trigger] run[i])@.len() > 0 && run[i]@.len()
        <= bound by {
        assert(head(run[i]@) == runs[g].key);
        lemma_flatten_holds(runs, run[i]);
        let t = choose|t: int| 0 <= t < words.len() && words[t] == run[i];
        assert(words[t]@.len() <= bound);
    }
    assert(run[0]@.len() > 0);
    assert forall|i: int| 0 <= i < suffixes.len() implies (#[trigger] suffixes[i])@.len() <= bound
        - 1 by {
        assert(run[i]@.len() > 0);
        assert(run[i]@.skip(1).len() == run[i]@.len() - 1);
    }
    assert forall|i: int, j: int| 0 <= i < j < suffixes.len() implies lex_le(
        #[trigger] views(suffixes)[i],
        #[trigger] views(suffixes)[j],
    ) by {
        lemma_run_ordered(words, runs, g, i, j);
        let a = run[i]@;
        let b = run[j]@;
        assert(head(a) == runs[g].key);
        assert(head(b) == runs[g].key);
        assert(a.drop_first() =~= a.skip(1));
        assert(b.drop_first() =~= b.skip(1));
        assert(suffixes[i]@ == a.skip(1));
        assert(suffixes[j]@ == b.skip(1));
    }
}

/// In sorted words, a run's words are in order.
proof fn lemma_run_ordered(words: Seq<&str>, runs: Seq<Run>, g: int, i: int, j: int)
    requires
        flatten(runs) == words,
        sorted(views(words)),
        0 <= g < runs.len(),
        0 <= i < j < runs[g].words@.len(),
    ensures
        lex_le(runs[g].words@[i]@, runs[g].words@[j]@),
    decreases runs.len(),
{
    let front = runs.drop_last();
    let cut = flatten(front).len() as int;
    if g < runs.len() - 1 {
        assert forall|a: int, b: int| 0 <= a < b < cut implies lex_le(
            #[trigger] views(flatten(front))[a],
            #[trigger] views(flatten(front))[b],
        ) by {
            assert(views(words)[a] == flatten(front)[a]@);
            assert(views(words)[b] == flatten(front)[b]@);
        }
        assert(front[g] == runs[g]);
        lemma_run_ordered(flatten(front), front, g, i, j);
    } else {
        assert(views(words)[cut + i] == runs[g].words@[i]@);
        assert(views(words)[cut + j] == runs[g].words@[j]@);
    }
}

} // verus!
