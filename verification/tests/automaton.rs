use lev_automaton::automaton::{Automaton, Deterministic, NonDeterministic, Transition};

#[test]
fn transition_allows() {
    assert!(Transition::Is('a').allows('a'));
    assert!(!Transition::Is('a').allows('b'));
    assert!(Transition::IsNot(vec!['a', 'b']).allows('c'));
    assert!(!Transition::IsNot(vec!['a', 'b']).allows('a'));
    assert!(!Transition::IsNot(vec!['a', 'b']).allows('b'));
    assert!(Transition::IsNot(vec![]).allows('x'));
    assert!(Transition::Star.allows('a'));
    assert!(Transition::Star.allows('é'));
    assert!(!Transition::Epsilon.allows('a'));
}

#[test]
fn transition_kinds() {
    assert!(Transition::Epsilon.is_epsilon());
    assert!(!Transition::Star.is_epsilon());
    assert!(!Transition::Is('a').is_epsilon());
    assert!(Transition::Star.is_star());
    assert!(!Transition::Epsilon.is_star());
    assert!(!Transition::IsNot(vec![]).is_star());
}

#[test]
fn transition_merge() {
    let is_a = Transition::Is('a');
    let is_b = Transition::Is('b');
    let not_a = Transition::IsNot(vec!['a']);
    let not_b = Transition::IsNot(vec!['b']);

    assert_eq!(is_a.merge(&is_a), Some('a'));
    assert_eq!(is_a.merge(&is_b), None);
    assert_eq!(is_a.merge(&not_b), Some('a'));
    assert_eq!(not_b.merge(&is_a), Some('a'));
    assert_eq!(is_a.merge(&not_a), None);
    assert_eq!(not_a.merge(&is_a), None);
    assert_eq!(is_a.merge(&Transition::Star), Some('a'));
    assert_eq!(Transition::Star.merge(&is_a), Some('a'));
    assert_eq!(Transition::Star.merge(&Transition::Star), None);
    assert_eq!(not_a.merge(&not_b), None);
    assert_eq!(not_a.merge(&Transition::Star), None);
    assert_eq!(is_a.merge(&Transition::Epsilon), None);
    assert_eq!(Transition::Epsilon.merge(&is_a), None);
    assert_eq!(Transition::Epsilon.merge(&Transition::Epsilon), None);
}

#[test]
fn transition_overlaps() {
    let is_a = Transition::Is('a');
    let is_b = Transition::Is('b');
    let not_a = Transition::IsNot(vec!['a']);
    let not_ab = Transition::IsNot(vec!['a', 'b']);

    assert!(is_a.overlaps(&is_a));
    assert!(!is_a.overlaps(&is_b));
    assert!(!is_a.overlaps(&not_a));
    assert!(!not_a.overlaps(&is_a));
    assert!(is_b.overlaps(&not_a));
    assert!(!is_b.overlaps(&not_ab));
    assert!(is_a.overlaps(&Transition::Star));
    assert!(Transition::Star.overlaps(&is_a));
    assert!(Transition::Star.overlaps(&Transition::Star));
    assert!(not_a.overlaps(&not_ab));
    assert!(not_a.overlaps(&Transition::Star));
    assert!(Transition::Star.overlaps(&not_ab));
    assert!(!Transition::Epsilon.overlaps(&Transition::Star));
    assert!(!Transition::Star.overlaps(&Transition::Epsilon));
    assert!(!Transition::Epsilon.overlaps(&Transition::Epsilon));
    assert!(!is_a.overlaps(&Transition::Epsilon));
}

#[test]
fn negated_classes_overlap_in_the_first_symbol_both_leave_out() {
    // the symbols with code points 0, 1 and 2 are listed: the first shared one is 3
    let low = Transition::IsNot(vec!['\u{0}', '\u{1}']);
    let high = Transition::IsNot(vec!['\u{2}']);
    assert!(low.overlaps(&high));
    assert!(high.overlaps(&low));
    assert!(low.allows('\u{2}'));
    assert!(!high.allows('\u{2}'));
    assert!(low.allows('\u{3}') && high.allows('\u{3}'));
}

#[test]
fn empty_automata_accept_nothing() {
    let nfa: Automaton<NonDeterministic> = Automaton::default();
    assert!(!nfa.run(""));
    assert!(!nfa.run("a"));

    let dfa: Automaton<Deterministic> = Automaton::default();
    assert!(!dfa.run(""));
    assert!(!dfa.run("a"));

    let determinized: Automaton<Deterministic> = nfa.into();
    assert!(!determinized.run(""));
    assert!(!determinized.run("a"));
}

#[test]
fn run_starts_in_the_first_state_unless_told_otherwise() {
    let mut nfa: Automaton<NonDeterministic> = Automaton::default();
    let first = nfa.add_state();
    let second = nfa.add_state();
    nfa.add_transition(first, second, Transition::Is('a'));
    nfa.make_state_final(second);
    assert!(nfa.run("a"));
    assert!(!nfa.run(""));

    nfa.set_start_state(second);
    assert!(nfa.run(""));
    assert!(!nfa.run("a"));
}

#[test]
fn make_state_final_twice_is_as_once() {
    let mut dfa: Automaton<Deterministic> = Automaton::default();
    let only = dfa.add_state();
    assert!(!dfa.run(""));
    dfa.make_state_final(only);
    assert!(dfa.run(""));
    dfa.make_state_final(only);
    assert!(dfa.run(""));
    assert!(!dfa.run("a"));
}

#[test]
fn deterministic_insertion_rejects_overlap() {
    let mut dfa: Automaton<Deterministic> = Automaton::default();
    let start = dfa.add_state();
    let a = dfa.add_state();
    let b = dfa.add_state();
    let other = dfa.add_state();
    dfa.make_state_final(a);
    dfa.make_state_final(other);

    assert!(dfa.add_transition(start, a, Transition::Is('a')));
    // the same symbol again, whatever the target
    assert!(!dfa.add_transition(start, b, Transition::Is('a')));
    assert!(!dfa.add_transition(start, a, Transition::Is('a')));
    // a class that admits 'a'
    assert!(!dfa.add_transition(start, b, Transition::Star));
    assert!(!dfa.add_transition(start, b, Transition::IsNot(vec!['b'])));
    // the complement of what is there
    assert!(dfa.add_transition(start, other, Transition::IsNot(vec!['a'])));
    assert!(!dfa.add_transition(start, b, Transition::Is('c')));

    assert!(dfa.run("a"));
    assert!(dfa.run("b"));
    assert!(dfa.run("z"));
    assert!(!dfa.run(""));
    assert!(!dfa.run("ab"));
}

#[test]
fn nondeterministic_run_follows_epsilon_edges_and_cycles() {
    let mut nfa: Automaton<NonDeterministic> = Automaton::default();
    let s0 = nfa.add_state();
    let s1 = nfa.add_state();
    let s2 = nfa.add_state();
    let s3 = nfa.add_state();
    // an epsilon cycle between s0 and s1, and on to s2
    nfa.add_transition(s0, s1, Transition::Epsilon);
    nfa.add_transition(s1, s0, Transition::Epsilon);
    nfa.add_transition(s1, s2, Transition::Epsilon);
    nfa.add_transition(s2, s3, Transition::Is('x'));
    nfa.add_transition(s0, s0, Transition::Is('y'));
    nfa.make_state_final(s3);

    assert!(nfa.run("x"));
    assert!(nfa.run("yx"));
    assert!(nfa.run("yyyx"));
    assert!(!nfa.run(""));
    assert!(!nfa.run("y"));
    assert!(!nfa.run("xx"));
    assert!(!nfa.run("xy"));
}

#[test]
fn determinized_automaton_accepts_the_same_words() {
    let mut nfa: Automaton<NonDeterministic> = Automaton::default();
    let s0 = nfa.add_state();
    let s1 = nfa.add_state();
    let s2 = nfa.add_state();
    let s3 = nfa.add_state();
    nfa.add_transition(s0, s1, Transition::Epsilon);
    nfa.add_transition(s1, s0, Transition::Epsilon);
    nfa.add_transition(s0, s0, Transition::Star);
    nfa.add_transition(s0, s2, Transition::Is('a'));
    nfa.add_transition(s1, s2, Transition::Is('b'));
    nfa.add_transition(s2, s3, Transition::Is('b'));
    nfa.add_transition(s2, s3, Transition::Epsilon);
    nfa.make_state_final(s3);

    let alphabet = ['a', 'b', 'c'];
    let mut words: Vec<String> = vec![String::new()];
    let mut layer: Vec<String> = vec![String::new()];
    for _ in 0..5 {
        let mut next = Vec::new();
        for prefix in &layer {
            for c in alphabet {
                let mut word = prefix.clone();
                word.push(c);
                next.push(word);
            }
        }
        words.extend(next.iter().cloned());
        layer = next;
    }
    let expected: Vec<bool> = words.iter().map(|w| nfa.run(w)).collect();
    assert!(nfa.run("a"));
    assert!(nfa.run("cab"));
    assert!(!nfa.run(""));
    assert!(!nfa.run("c"));

    let dfa: Automaton<Deterministic> = nfa.into();
    for (word, accepted) in words.iter().zip(expected) {
        assert_eq!(dfa.run(word), accepted, "{word:?}");
    }
}

#[test]
fn determinize_keeps_the_source() {
    let mut nfa: Automaton<NonDeterministic> = Automaton::default();
    let s0 = nfa.add_state();
    let s1 = nfa.add_state();
    nfa.add_transition(s0, s1, Transition::Is('a'));
    nfa.add_transition(s0, s1, Transition::Is('a'));
    nfa.add_transition(s1, s1, Transition::Star);
    nfa.make_state_final(s1);

    let dfa = nfa.determinize();
    for word in ["a", "ab", "abc", "aaa"] {
        assert!(nfa.run(word));
        assert!(dfa.run(word));
    }
    for word in ["", "b", "ba"] {
        assert!(!nfa.run(word));
        assert!(!dfa.run(word));
    }
}

#[test]
fn intersect_lists_common_words_once() {
    // left: every word over any symbols of length one to three that ends in 'c' or is "a"
    let mut left: Automaton<Deterministic> = Automaton::default();
    let l0 = left.add_state();
    let l1 = left.add_state();
    let l2 = left.add_state();
    assert!(left.add_transition(l0, l1, Transition::Is('a')));
    assert!(left.add_transition(l0, l0, Transition::IsNot(vec!['a', 'c'])));
    assert!(left.add_transition(l0, l2, Transition::Is('c')));
    assert!(left.add_transition(l1, l2, Transition::Is('c')));
    assert!(left.add_transition(l1, l0, Transition::IsNot(vec!['c'])));
    left.make_state_final(l1);
    left.make_state_final(l2);

    // right: the tree of "a", "ab", "abc", "ac", "bc", "c"
    let mut right: Automaton<Deterministic> = Automaton::default();
    let r0 = right.add_state();
    let ra = right.add_state();
    let rab = right.add_state();
    let rabc = right.add_state();
    let rac = right.add_state();
    let rb = right.add_state();
    let rbc = right.add_state();
    let rc = right.add_state();
    assert!(right.add_transition(r0, ra, Transition::Is('a')));
    assert!(right.add_transition(ra, rab, Transition::Is('b')));
    assert!(right.add_transition(rab, rabc, Transition::Is('c')));
    assert!(right.add_transition(ra, rac, Transition::Is('c')));
    assert!(right.add_transition(r0, rb, Transition::Is('b')));
    assert!(right.add_transition(rb, rbc, Transition::Is('c')));
    assert!(right.add_transition(r0, rc, Transition::Is('c')));
    for state in [ra, rab, rabc, rac, rbc, rc] {
        right.make_state_final(state);
    }

    let mut found = left.intersect(&right);
    found.sort();
    let expected: Vec<String> =
        ["a", "abc", "ac", "bc", "c"].iter().map(|w| w.to_string()).collect();
    assert_eq!(found, expected);
    for word in &found {
        assert!(left.run(word) && right.run(word));
    }
    assert!(right.run("ab") && !left.run("ab"));
}

#[test]
fn intersect_never_lists_the_empty_word() {
    let mut left: Automaton<Deterministic> = Automaton::default();
    let l0 = left.add_state();
    left.make_state_final(l0);
    let mut right: Automaton<Deterministic> = Automaton::default();
    let r0 = right.add_state();
    right.make_state_final(r0);

    assert!(left.run("") && right.run(""));
    assert!(left.intersect(&right).is_empty());

    let none: Automaton<Deterministic> = Automaton::default();
    assert!(left.intersect(&none).is_empty());
    assert!(none.intersect(&right).is_empty());
}

#[test]
fn determinize_passes_over_negated_classes() {
    let mut nfa: Automaton<NonDeterministic> = Automaton::default();
    let s0 = nfa.add_state();
    let s1 = nfa.add_state();
    let s2 = nfa.add_state();
    nfa.add_transition(s0, s1, Transition::Is('a'));
    nfa.add_transition(s0, s2, Transition::IsNot(vec!['a']));
    nfa.add_transition(s1, s2, Transition::Star);
    nfa.make_state_final(s2);

    assert!(nfa.run("b"));
    assert!(nfa.run("ab"));
    assert!(!nfa.run("a"));

    let dfa = nfa.determinize();
    assert!(dfa.run("ab"));
    assert!(dfa.run("aa"));
    assert!(!dfa.run("a"));
    assert!(!dfa.run("b"));
    assert!(!dfa.run(""));
}

#[test]
fn cloned_automaton_accepts_the_same_words() {
    let mut nfa: Automaton<NonDeterministic> = Automaton::default();
    let s0 = nfa.add_state();
    let s1 = nfa.add_state();
    nfa.add_transition(s0, s1, Transition::IsNot(vec!['x', 'y']));
    nfa.add_transition(s1, s1, Transition::Is('z'));
    nfa.add_transition(s1, s0, Transition::Epsilon);
    nfa.make_state_final(s1);
    nfa.set_start_state(s0);

    let copy = nfa.clone();
    nfa.add_transition(s0, s1, Transition::Star);
    for word in ["a", "az", "azz", "ab", "zz"] {
        assert!(copy.run(word), "{word}");
    }
    for word in ["", "x", "y", "ax", "xa"] {
        assert!(!copy.run(word), "{word}");
    }
    assert!(nfa.run("x"));
}
