use lev_automaton::automaton::{Automaton, Deterministic, Transition};
use lev_automaton::trie::Trie;

#[test]
fn test_trie() {
    let mut words: Vec<&str> = vec!["asd", "bin", "bing", "bong"];
    let trie = Trie::new(words.as_mut_slice());

    assert!(trie.contains("bing"));
    assert!(trie.contains("bong"));
    assert!(trie.contains("bin"));
    assert!(trie.contains("asd"));
    assert!(!trie.contains("asdf"));
    assert!(!trie.contains("bi"));
    assert!(!trie.contains(""));
}

#[test]
fn trie_of_no_words_holds_nothing() {
    let mut words: Vec<&str> = vec![];
    let trie = Trie::new(words.as_mut_slice());

    assert!(!trie.contains(""));
    assert!(!trie.contains("a"));
    assert!(!trie.contains("food"));
    assert!(!trie.get_automaton().run(""));
}

#[test]
fn trie_sorts_its_words() {
    let mut words: Vec<&str> = vec!["pear", "apple", "fig", "apple", "figs", "fi"];
    let trie = Trie::new(words.as_mut_slice());

    assert_eq!(words, vec!["apple", "apple", "fi", "fig", "figs", "pear"]);
    for word in ["pear", "apple", "fig", "figs", "fi"] {
        assert!(trie.contains(word));
    }
    for word in ["", "p", "pea", "pears", "f", "appl", "apples", "gif"] {
        assert!(!trie.contains(word));
    }
}

#[test]
fn trie_holds_exactly_its_nonempty_words() {
    let dictionary = ["", "a", "ab", "abc", "b", "ba"];
    let mut words: Vec<&str> = dictionary.to_vec();
    let trie = Trie::new(words.as_mut_slice());

    let alphabet = ['a', 'b', 'c'];
    let mut candidates: Vec<String> = vec![String::new()];
    let mut layer: Vec<String> = vec![String::new()];
    for _ in 0..4 {
        let mut next = Vec::new();
        for prefix in &layer {
            for c in alphabet {
                let mut word = prefix.clone();
                word.push(c);
                next.push(word);
            }
        }
        candidates.extend(next.iter().cloned());
        layer = next;
    }
    for candidate in candidates {
        let expected = !candidate.is_empty() && dictionary.contains(&candidate.as_str());
        assert_eq!(trie.contains(&candidate), expected, "{candidate:?}");
    }
}

#[test]
fn trie_splits_words_at_symbols_not_bytes() {
    let mut words: Vec<&str> = vec!["über", "café", "cafés", "naïve", "日本", "日本語"];
    let trie = Trie::new(words.as_mut_slice());

    for word in ["über", "café", "cafés", "naïve", "日本", "日本語"] {
        assert!(trie.contains(word));
    }
    for word in ["uber", "cafe", "caf", "日", "日本語語", "naive"] {
        assert!(!trie.contains(word));
    }
}

#[test]
fn trie_filter_lists_the_words_an_automaton_accepts() {
    let mut words: Vec<&str> = vec!["a", "ab", "abc", "b", "ba"];
    let trie = Trie::new(words.as_mut_slice());

    // accepts every word of one or two symbols that starts with 'a'
    let mut automaton: Automaton<Deterministic> = Automaton::default();
    let start = automaton.add_state();
    let one = automaton.add_state();
    let two = automaton.add_state();
    assert!(automaton.add_transition(start, one, Transition::Is('a')));
    assert!(automaton.add_transition(one, two, Transition::Star));
    automaton.make_state_final(one);
    automaton.make_state_final(two);

    let mut found = trie.filter(&automaton);
    found.sort();
    assert_eq!(found, vec!["a".to_string(), "ab".to_string()]);
}

#[test]
fn cloned_trie_holds_the_same_words() {
    let mut words: Vec<&str> = vec!["asd", "bin", "bing", "bong"];
    let trie = Trie::new(words.as_mut_slice());
    let copy = trie.clone();
    drop(trie);

    for word in ["asd", "bin", "bing", "bong"] {
        assert!(copy.contains(word));
    }
    for word in ["", "a", "bi", "bingo", "bon"] {
        assert!(!copy.contains(word));
    }
}
