//! The walk over two deterministic automata at once that lists the words
//! both accept.

use crate::automaton::{Automaton, Deterministic};
use crate::language::{
    first_match, lemma_first_match_some, lemma_first_match_unique, AutomatonView, Edge, Label,
};
use crate::text::{texts, word_of};
use vstd::prelude::*;

verus! {

/// Both automata accept `z`, the one from `p`, the other from `q`.
pub open spec fn below(a: AutomatonView, b: AutomatonView, p: int, q: int, z: Seq<char>) -> bool {
    a.accepts_from(p, z) && b.accepts_from(q, z)
}

/// The symbol read along the `i`-th edge out of `p` and the `j`-th out of `q`.
pub open spec fn merged(
    a: AutomatonView,
    b: AutomatonView,
    p: int,
    q: int,
    i: int,
    j: int,
) -> Option<char> {
    a.states[p][i].label.merge(b.states[q][j].label)
}

/// `y` is read from `p` and `q` first along the edges `i` and `j`, and is
/// then accepted by both.
pub open spec fn hit(
    a: AutomatonView,
    b: AutomatonView,
    p: int,
    q: int,
    i: int,
    j: int,
    y: Seq<char>,
) -> bool {
    &&& 0 <= i < a.states[p].len()
    &&& 0 <= j < b.states[q].len()
    &&& y.len() > 0
    &&& merged(a, b, p, q, i, j) == Some(y[0])
    &&& below(a, b, a.states[p][i].target, b.states[q][j].target, y.drop_first())
}

/// The pair of edges `(i2, j2)` comes before `(i, j)` in the walk.
pub open spec fn earlier(i2: int, j2: int, i: int, j: int) -> bool {
    i2 < i || (i2 == i && j2 < j)
}

/// `x` is `prefix` followed by at least one symbol.
pub open spec fn extends(prefix: Seq<char>, x: Seq<char>) -> bool {
    x.len() > prefix.len() && x.take(prefix.len() as int) == prefix
}

/// A word accepted by both from `p` and `q` is read first along a pair of
/// edges that merge to its first symbol.
proof fn lemma_split(a: AutomatonView, b: AutomatonView, p: int, q: int, y: Seq<char>)
    requires
        a.has_state(p),
        b.has_state(q),
        b.explicit(),
        y.len() > 0,
        below(a, b, p, q, y),
    ensures
        exists|i: int, j: int| #[trigger] hit(a, b, p, q, i, j, y),
{
    let c = y[0];
    lemma_first_match_some(a.states[p], c);
    lemma_first_match_some(b.states[q], c);
    let i = choose|i: int|
        0 <= i < a.states[p].len() && (#[trigger] a.states[p][i]).label.allows(c) && first_match(
            a.states[p],
            c,
        ) == Some(a.states[p][i].target);
    let j = choose|j: int|
        0 <= j < b.states[q].len() && (#[trigger] b.states[q][j]).label.allows(c) && first_match(
            b.states[q],
            c,
        ) == Some(b.states[q][j].target);
    assert(b.states[q][j].label is Is);
    assert(hit(a, b, p, q, i, j, y));
}

/// A word read first along a pair of edges and then accepted by both is
/// accepted by both, and no other pair of edges reads its first symbol.
proof fn lemma_join(
    a: AutomatonView,
    b: AutomatonView,
    p: int,
    q: int,
    i: int,
    j: int,
    y: Seq<char>,
)
    requires
        a.has_state(p),
        b.has_state(q),
        a.deterministic(),
        b.deterministic(),
        b.explicit(),
        hit(a, b, p, q, i, j, y),
    ensures
        below(a, b, p, q, y),
        forall|i2: int, j2: int| #[trigger] hit(a, b, p, q, i2, j2, y) ==> i2 == i && j2 == j,
{
    let c = y[0];
    assert(b.states[q][j].label is Is);
    lemma_first_match_unique(a.states[p], c, i);
    lemma_first_match_unique(b.states[q], c, j);
    assert forall|i2: int, j2: int| #[trigger] hit(a, b, p, q, i2, j2, y) implies i2 == i && j2
        == j by {
        assert(b.states[q][j2].label is Is);
        if i2 != i {
            assert(a.states[p][i2].label.allows(c) && a.states[p][i].label.allows(c));
            assert(a.states[p][i2].label.overlaps(a.states[p][i].label));
        }
        if j2 != j {
            assert(b.states[q][j2].label.allows(c) && b.states[q][j].label.allows(c));
            assert(b.states[q][j2].label.overlaps(b.states[q][j].label));
        }
    }
}

/// No two pairs of edges read one symbol.
proof fn lemma_merged_unique(
    a: AutomatonView,
    b: AutomatonView,
    p: int,
    q: int,
    i: int,
    j: int,
    i2: int,
    j2: int,
    c: char,
)
    requires
        a.has_state(p),
        b.has_state(q),
        a.deterministic(),
        b.deterministic(),
        b.explicit(),
        0 <= i < a.states[p].len(),
        0 <= j < b.states[q].len(),
        0 <= i2 < a.states[p].len(),
        0 <= j2 < b.states[q].len(),
        merged(a, b, p, q, i, j) == Some(c),
        merged(a, b, p, q, i2, j2) == Some(c),
    ensures
        i2 == i,
        j2 == j,
{
    assert(b.states[q][j].label is Is);
    assert(b.states[q][j2].label is Is);
    if i2 != i {
        assert(a.states[p][i2].label.allows(c) && a.states[p][i].label.allows(c));
        assert(a.states[p][i2].label.overlaps(a.states[p][i].label));
    }
    if j2 != j {
        assert(b.states[q][j2].label.allows(c) && b.states[q][j].label.allows(c));
        assert(b.states[q][j2].label.overlaps(b.states[q][j].label));
    }
}

/// `after` holds `before` and, behind it, what was found since.
pub open spec fn kept(before: Seq<String>, after: Seq<String>) -> bool {
    &&& after.len() >= before.len()
    &&& forall|k: int| 0 <= k < before.len() ==> #[trigger] after[k] == before[k]
}

/// What was found since `before`.
pub open spec fn fresh(before: Seq<String>, after: Seq<String>) -> Seq<Seq<char>> {
    texts(after).skip(before.len() as int)
}

/// `found` lists, each once, the words that extend `prefix` by a word that
/// both automata accept from `p` and `q`.
pub open spec fn complete(
    a: AutomatonView,
    b: AutomatonView,
    p: int,
    q: int,
    prefix: Seq<char>,
    found: Seq<Seq<char>>,
) -> bool {
    &&& found.no_duplicates()
    &&& forall|x: Seq<char>| #[trigger]
        found.contains(x) <==> extends(prefix, x) && below(a, b, p, q, x.skip(prefix.len() as int))
}

/// `found` lists, each once, the words that extend `prefix` by a word read
/// first along a pair of edges before `(i, j)`.
pub open spec fn swept(
    a: AutomatonView,
    b: AutomatonView,
    p: int,
    q: int,
    prefix: Seq<char>,
    found: Seq<Seq<char>>,
    i: int,
    j: int,
) -> bool {
    &&& found.no_duplicates()
    &&& forall|x: Seq<char>| #[trigger]
        found.contains(x) <==> extends(prefix, x) && exists|i2: int, j2: int|
            earlier(i2, j2, i, j) && #[trigger] hit(
                a,
                b,
                p,
                q,
                i2,
                j2,
                x.skip(prefix.len() as int),
            )
}

/// A pair of edges that merges to no symbol adds nothing.
proof fn lemma_pair_idle(
    a: AutomatonView,
    b: AutomatonView,
    p: int,
    q: int,
    prefix: Seq<char>,
    found: Seq<Seq<char>>,
    i: int,
    j: int,
)
    requires
        swept(a, b, p, q, prefix, found, i, j),
        merged(a, b, p, q, i, j) is None,
    ensures
        swept(a, b, p, q, prefix, found, i, j + 1),
{
    assert forall|x: Seq<char>| #[trigger]
        found.contains(x) <==> extends(prefix, x) && exists|i2: int, j2: int|
            earlier(i2, j2, i, j + 1) && #[trigger] hit(
                a,
                b,
                p,
                q,
                i2,
                j2,
                x.skip(prefix.len() as int),
            ) by {
        let y = x.skip(prefix.len() as int);
        if found.contains(x) {
            let (i2, j2) = choose|i2: int, j2: int|
                earlier(i2, j2, i, j) && #[trigger] hit(a, b, p, q, i2, j2, y);
            assert(earlier(i2, j2, i, j + 1) && hit(a, b, p, q, i2, j2, y));
        }
        if extends(prefix, x) && exists|i2: int, j2: int|
            earlier(i2, j2, i, j + 1) && #[trigger] hit(a, b, p, q, i2, j2, y) {
            let (i2, j2) = choose|i2: int, j2: int|
                earlier(i2, j2, i, j + 1) && #[trigger] hit(a, b, p, q, i2, j2, y);
            assert(earlier(i2, j2, i, j) && hit(a, b, p, q, i2, j2, y));
        }
    }
}

/// After the last edge of one automaton the walk goes on with the next
/// edge of the other.
proof fn lemma_row_done(
    a: AutomatonView,
    b: AutomatonView,
    p: int,
    q: int,
    prefix: Seq<char>,
    found: Seq<Seq<char>>,
    i: int,
)
    requires
        swept(a, b, p, q, prefix, found, i, b.states[q].len() as int),
    ensures
        swept(a, b, p, q, prefix, found, i + 1, 0),
{
    let m = b.states[q].len() as int;
    assert forall|x: Seq<char>| #[trigger]
        found.contains(x) <==> extends(prefix, x) && exists|i2: int, j2: int|
            earlier(i2, j2, i + 1, 0) && #[trigger] hit(
                a,
                b,
                p,
                q,
                i2,
                j2,
                x.skip(prefix.len() as int),
            ) by {
        let y = x.skip(prefix.len() as int);
        if found.contains(x) {
            let (i2, j2) = choose|i2: int, j2: int|
                earlier(i2, j2, i, m) && #[trigger] hit(a, b, p, q, i2, j2, y);
            assert(earlier(i2, j2, i + 1, 0) && hit(a, b, p, q, i2, j2, y));
        }
        if extends(prefix, x) && exists|i2: int, j2: int|
            earlier(i2, j2, i + 1, 0) && #[trigger] hit(a, b, p, q, i2, j2, y) {
            let (i2, j2) = choose|i2: int, j2: int|
                earlier(i2, j2, i + 1, 0) && #[trigger] hit(a, b, p, q, i2, j2, y);
            assert(earlier(i2, j2, i, m) && hit(a, b, p, q, i2, j2, y));
        }
    }
}

/// Once all pairs of edges are done, all words are found.
proof fn lemma_all_done(
    a: AutomatonView,
    b: AutomatonView,
    p: int,
    q: int,
    prefix: Seq<char>,
    found: Seq<Seq<char>>,
)
    requires
        a.has_state(p),
        b.has_state(q),
        a.deterministic(),
        b.deterministic(),
        b.explicit(),
        swept(a, b, p, q, prefix, found, a.states[p].len() as int, 0),
    ensures
        complete(a, b, p, q, prefix, found),
{
    let n = a.states[p].len() as int;
    assert forall|x: Seq<char>| #[trigger]
        found.contains(x) <==> extends(prefix, x) && below(
            a,
            b,
            p,
            q,
            x.skip(prefix.len() as int),
        ) by {
        let y = x.skip(prefix.len() as int);
        if found.contains(x) {
            let (i2, j2) = choose|i2: int, j2: int|
                earlier(i2, j2, n, 0) && #[trigger] hit(a, b, p, q, i2, j2, y);
            lemma_join(a, b, p, q, i2, j2, y);
        }
        if extends(prefix, x) && below(a, b, p, q, y) {
            lemma_split(a, b, p, q, y);
            let (i2, j2) = choose|i2: int, j2: int| #[trigger] hit(a, b, p, q, i2, j2, y);
            assert(earlier(i2, j2, n, 0) && hit(a, b, p, q, i2, j2, y));
        }
    }
}

/// A pair of edges that merges to `c` adds the prefix grown by `c`, where
/// both targets are final, and what is found below the targets.
proof fn lemma_pair_done(
    a: AutomatonView,
    b: AutomatonView,
    p: int,
    q: int,
    prefix: Seq<char>,
    c: char,
    found: Seq<Seq<char>>,
    deeper: Seq<Seq<char>>,
    i: int,
    j: int,
)
    requires
        a.has_state(p),
        b.has_state(q),
        a.deterministic(),
        b.deterministic(),
        b.explicit(),
        0 <= i < a.states[p].len(),
        0 <= j < b.states[q].len(),
        swept(a, b, p, q, prefix, found, i, j),
        merged(a, b, p, q, i, j) == Some(c),
        complete(a, b, a.states[p][i].target, b.states[q][j].target, prefix.push(c), deeper),
    ensures
        below(a, b, a.states[p][i].target, b.states[q][j].target, Seq::empty()) ==> swept(
            a,
            b,
            p,
            q,
            prefix,
            found.push(prefix.push(c)) + deeper,
            i,
            j + 1,
        ),
        !below(a, b, a.states[p][i].target, b.states[q][j].target, Seq::empty()) ==> swept(
            a,
            b,
            p,
            q,
            prefix,
            found + deeper,
            i,
            j + 1,
        ),
{
    let p2 = a.states[p][i].target;
    let q2 = b.states[q][j].target;
    let grown = prefix.push(c);
    let n = prefix.len() as int;
    let both = below(a, b, p2, q2, Seq::empty());
    let middle = if both {
        found.push(grown)
    } else {
        found
    };
    let all = middle + deeper;
    // what this pair contributes
    assert forall|x: Seq<char>| both && x == grown implies extends(prefix, x) && hit(
        a,
        b,
        p,
        q,
        i,
        j,
        #[trigger] x.skip(n),
    ) by {
        let y = x.skip(n);
        assert(x.take(n) =~= prefix);
        assert(y[0] == c);
        assert(y.drop_first() =~= Seq::<char>::empty());
    }
    assert forall|x: Seq<char>| #[trigger] deeper.contains(x) implies extends(prefix, x) && hit(
        a,
        b,
        p,
        q,
        i,
        j,
        x.skip(n),
    ) by {
        let y = x.skip(n);
        assert(extends(grown, x));
        assert(x.take(n) =~= x.take(n + 1).take(n));
        assert(grown.take(n) =~= prefix);
        assert(x.take(n + 1)[n] == c);
        assert(y[0] == c);
        assert(y.drop_first() =~= x.skip(n + 1));
    }
    assert forall|x: Seq<char>|
        extends(prefix, x) && #[trigger] hit(a, b, p, q, i, j, x.skip(n)) implies (both && x
        == grown) || deeper.contains(x) by {
        let y = x.skip(n);
        assert(x.take(n + 1) =~= grown) by {
            assert(x.take(n) == prefix);
            assert forall|k: int| 0 <= k < n + 1 implies x.take(n + 1)[k] == grown[k] by {
                if k < n {
                    assert(x.take(n)[k] == prefix[k]);
                } else {
                    assert(y[0] == x[n]);
                }
            }
        }
        assert(y.drop_first() =~= x.skip(n + 1));
        if y.len() == 1 {
            assert(y.drop_first() =~= Seq::<char>::empty());
            assert(x =~= grown);
        } else {
            assert(extends(grown, x));
            assert(deeper.contains(x));
        }
    }
    // what came before differs in the symbol behind the prefix
    assert forall|x: Seq<char>| found.contains(x) implies !((both && x == grown)
        || deeper.contains(x)) by {
        let y = x.skip(n);
        let (i2, j2) = choose|i2: int, j2: int|
            earlier(i2, j2, i, j) && #[trigger] hit(a, b, p, q, i2, j2, y);
        if hit(a, b, p, q, i, j, y) {
            lemma_merged_unique(a, b, p, q, i, j, i2, j2, y[0]);
        }
    }
    assert(!deeper.contains(grown)) by {
        if deeper.contains(grown) {
            assert(extends(grown, grown));
        }
    }
    assert(middle.no_duplicates()) by {
        if both {
            assert forall|k: int, l: int| 0 <= k < middle.len() && 0 <= l < middle.len() && k
                != l implies middle[k] != middle[l] by {
                if k < found.len() && l < found.len() {
                } else if k < found.len() {
                    assert(found.contains(found[k]));
                } else {
                    assert(found.contains(found[l]));
                }
            }
        }
    }
    assert forall|x: Seq<char>|
        middle.contains(x) <==> found.contains(x) || (both && x == grown) by {
        if middle.contains(x) {
            let k = choose|k: int| 0 <= k < middle.len() && middle[k] == x;
            if k < found.len() {
                assert(found[k] == x);
            }
        }
        if found.contains(x) {
            let k = choose|k: int| 0 <= k < found.len() && found[k] == x;
            assert(middle[k] == x);
        }
        if both && x == grown {
            assert(middle[found.len() as int] == x);
        }
    }
    assert forall|k: int, l: int| 0 <= k < middle.len() && 0 <= l < deeper.len() implies middle[k]
        != deeper[l] by {
        assert(middle.contains(middle[k]));
        assert(deeper.contains(deeper[l]));
    }
    vstd::seq_lib::lemma_no_dup_in_concat(middle, deeper);
    assert forall|x: Seq<char>| all.contains(x) <==> middle.contains(x) || deeper.contains(x) by {
        if all.contains(x) {
            let k = choose|k: int| 0 <= k < all.len() && all[k] == x;
            if k < middle.len() {
                assert(middle[k] == x);
            } else {
                assert(deeper[k - middle.len()] == x);
            }
        }
        if middle.contains(x) {
            let k = choose|k: int| 0 <= k < middle.len() && middle[k] == x;
            assert(all[k] == x);
        }
        if deeper.contains(x) {
            let k = choose|k: int| 0 <= k < deeper.len() && deeper[k] == x;
            assert(all[middle.len() + k] == x);
        }
    }
    assert forall|x: Seq<char>| #[trigger]
        all.contains(x) <==> extends(prefix, x) && exists|i2: int, j2: int|
            earlier(i2, j2, i, j + 1) && #[trigger] hit(a, b, p, q, i2, j2, x.skip(n)) by {
        let y = x.skip(n);
        if all.contains(x) {
            if found.contains(x) {
                let (i2, j2) = choose|i2: int, j2: int|
                    earlier(i2, j2, i, j) && #[trigger] hit(a, b, p, q, i2, j2, y);
                assert(earlier(i2, j2, i, j + 1) && hit(a, b, p, q, i2, j2, y));
            } else {
                assert(earlier(i, j, i, j + 1) && hit(a, b, p, q, i, j, y));
            }
        }
        if extends(prefix, x) && exists|i2: int, j2: int|
            earlier(i2, j2, i, j + 1) && #[trigger] hit(a, b, p, q, i2, j2, y) {
            let (i2, j2) = choose|i2: int, j2: int|
                earlier(i2, j2, i, j + 1) && #[trigger] hit(a, b, p, q, i2, j2, y);
            if i2 == i && j2 == j {
            } else {
                assert(earlier(i2, j2, i, j) && hit(a, b, p, q, i2, j2, y));
            }
        }
    }
}

/// What was found since `before` is what was found up to `middle` and
/// then what was found since.
proof fn lemma_fresh_concat(before: Seq<String>, middle: Seq<String>, after: Seq<String>)
    requires
        kept(before, middle),
        kept(middle, after),
    ensures
        kept(before, after),
        fresh(before, after) == fresh(before, middle) + fresh(middle, after),
{
    assert(fresh(before, after) =~= fresh(before, middle) + fresh(middle, after));
}

impl Automaton<Deterministic> {
    /// Adds to `found` every word that extends `prefix` by a word that both
    /// automata accept, this one from `p` and `other` from `q`.
    fn walk(
        &self,
        other: &Automaton<Deterministic>,
        p: usize,
        q: usize,
        prefix: &mut Vec<char>,
        found: &mut Vec<String>,
        Ghost(rank): Ghost<Seq<nat>>,
    )
        requires
            self@.has_state(p as int),
            other@.has_state(q as int),
            self@.deterministic(),
            other@.deterministic(),
            other@.explicit(),
            other@.ranked_by(rank),
        ensures
            final(prefix)@ == old(prefix)@,
            kept(old(found)@, final(found)@),
            complete(
                self@,
                other@,
                p as int,
                q as int,
                old(prefix)@,
                fresh(old(found)@, final(found)@),
            ),
        decreases rank[q as int],
    {
        let ghost a = self@;
        let ghost b = other@;
        let ghost pre = prefix@;
        let ghost start = found@;
        let n = self.edge_count(p);
        let m = other.edge_count(q);
        let mut i: usize = 0;
        assert(fresh(start, found@) =~= Seq::<Seq<char>>::empty());
        while i < n
            invariant
                a == self@,
                b == other@,
                a.has_state(p as int),
                b.has_state(q as int),
                a.deterministic(),
                b.deterministic(),
                b.explicit(),
                b.ranked_by(rank),
                n == a.states[p as int].len(),
                m == b.states[q as int].len(),
                i <= n,
                prefix@ == pre,
                kept(start, found@),
                swept(a, b, p as int, q as int, pre, fresh(start, found@), i as int, 0),
            decreases n - i,
        {
            let mut j: usize = 0;
            while j < m
                invariant
                    a == self@,
                    b == other@,
                    a.has_state(p as int),
                    b.has_state(q as int),
                    a.deterministic(),
                    b.deterministic(),
                    b.explicit(),
                    b.ranked_by(rank),
                    n == a.states[p as int].len(),
                    m == b.states[q as int].len(),
                    i < n,
                    j <= m,
                    prefix@ == pre,
                    kept(start, found@),
                    swept(a, b, p as int, q as int, pre, fresh(start, found@), i as int, j as int),
                decreases m - j,
            {
                match self.edge_label(p, i).merge(other.edge_label(q, j)) {
                    Some(c) => {
                        let next_p = self.edge_target(p, i);
                        let next_q = other.edge_target(q, j);
                        let ghost before = found@;
                        prefix.push(c);
                        let both = self.is_final(next_p) && other.is_final(next_q);
                        if both {
                            found.push(word_of(prefix));
                        }
                        let ghost middle = found@;
                        self.walk(other, next_p, next_q, prefix, found, Ghost(rank));
                        prefix.pop();
                        proof {
                            assert(prefix@ =~= pre);
                            lemma_fresh_concat(start, middle, found@);
                            if both {
                                assert(fresh(start, middle) =~= fresh(start, before).push(
                                    pre.push(c),
                                ));
                            } else {
                                assert(fresh(start, middle) =~= fresh(start, before));
                            }
                            lemma_pair_done(
                                a,
                                b,
                                p as int,
                                q as int,
                                pre,
                                c,
                                fresh(start, before),
                                fresh(middle, found@),
                                i as int,
                                j as int,
                            );
                        }
                    },
                    None => {
                        proof {
                            lemma_pair_idle(
                                a,
                                b,
                                p as int,
                                q as int,
                                pre,
                                fresh(start, found@),
                                i as int,
                                j as int,
                            );
                        }
                    },
                }
                j += 1;
            }
            proof {
                lemma_row_done(a, b, p as int, q as int, pre, fresh(start, found@), i as int);
            }
            i += 1;
        }
        proof {
            lemma_all_done(a, b, p as int, q as int, pre, fresh(start, found@));
        }
    }

    /// The words that both automata accept, each once, in no particular
    /// order; the empty word is never among them.
    ///
    /// `other` is to name one symbol on each edge and to have no cycle, as a
    /// trie does, and neither automaton may have two edges out of one state
    /// that share a symbol.
    pub fn intersect(&self, other: &Automaton<Deterministic>) -> (words: Vec<String>)
        requires
            self@.deterministic(),
            other@.deterministic(),
            other@.explicit(),
            other@.acyclic(),
        ensures
            texts(words@).no_duplicates(),
            forall|x: Seq<char>| #[trigger]
                texts(words@).contains(x) <==> x.len() > 0 && self@.dfa_accepts(x)
                    && other@.dfa_accepts(x),
    {
        let mut words: Vec<String> = Vec::new();
        if self.state_count() == 0 || other.state_count() == 0 {
            return words;
        }
        let ghost rank = choose|rank: Seq<nat>| other@.ranked_by(rank);
        let mut prefix: Vec<char> = Vec::new();
        let ghost seed = words@;
        self.walk(
            other,
            self.start_index(),
            other.start_index(),
            &mut prefix,
            &mut words,
            Ghost(rank),
        );
        proof {
            assert(fresh(seed, words@) =~= texts(words@));
            assert forall|x: Seq<char>| #[trigger]
                texts(words@).contains(x) <==> x.len() > 0 && self@.dfa_accepts(x)
                    && other@.dfa_accepts(x) by {
                assert(x.skip(0) =~= x);
                assert(x.take(0) =~= Seq::<char>::empty());
            }
        }
        words
    }
}

} // verus!
