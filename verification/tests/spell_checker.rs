use lev_automaton::automaton::Deterministic;
use lev_automaton::levenshtein_automaton::LevenshteinAutomaton;
use lev_automaton::spell_checker::{within_distance, SpellChecker};
use lev_automaton::trie::Trie;

fn sorted(mut words: Vec<String>) -> Vec<String> {
    words.sort();
    words
}

fn strings(words: &[&str]) -> Vec<String> {
    words.iter().map(|w| w.to_string()).collect()
}

/// The Levenshtein distance by the textbook table.
fn levenshtein(a: &str, b: &str) -> usize {
    let a: Vec<char> = a.chars().collect();
    let b: Vec<char> = b.chars().collect();
    let mut previous: Vec<usize> = (0..=b.len()).collect();
    for i in 1..=a.len() {
        let mut current = vec![i; b.len() + 1];
        for j in 1..=b.len() {
            let swap = previous[j - 1] + if a[i - 1] == b[j - 1] { 0 } else { 1 };
            current[j] = swap.min(previous[j] + 1).min(current[j - 1] + 1);
        }
        previous = current;
    }
    previous[b.len()]
}

#[test]
fn check_word_finds_the_neighbours_of_cab() {
    let mut words: Vec<&str> = vec!["cat", "car", "bat"];
    let trie = Trie::new(words.as_mut_slice());
    let checker = SpellChecker::new(trie, |word: &str, trie: &Trie| within_distance(word, trie, 1));

    let outcome = checker.check_word("cab");
    assert_eq!(outcome.map_err(sorted), Err(strings(&["car", "cat"])));
}

#[test]
fn check_word_of_the_empty_word() {
    let mut words: Vec<&str> = vec!["a"];
    let trie = Trie::new(words.as_mut_slice());
    let checker = SpellChecker::new(trie, |word: &str, trie: &Trie| within_distance(word, trie, 1));

    assert_eq!(checker.check_word(""), Err(strings(&["a"])));
    assert_eq!(checker.check_word("a"), Ok(()));
}

#[test]
fn check_word_accepts_dictionary_words_and_corrects_others() {
    let mut words: Vec<&str> =
        vec!["donkey", "monkey", "food", "foot", "fool", "good", "zebra", "don", "key"];
    let trie = Trie::new(words.as_mut_slice());
    let checker = SpellChecker::new(trie, |word: &str, trie: &Trie| within_distance(word, trie, 1));

    assert_eq!(checker.check_word("food"), Ok(()));
    assert_eq!(checker.check_word("donkey"), Ok(()));
    let corrections = checker.check_word("donkep").unwrap_err();
    assert!(corrections.iter().any(|c| c == "donkey"));
    assert_eq!(sorted(corrections), strings(&["donkey"]));
    assert_eq!(
        checker.check_word("food.").map_err(sorted),
        Err(strings(&["food"]))
    );
    assert_eq!(
        checker.check_word("foo").map_err(sorted),
        Err(strings(&["food", "fool", "foot"]))
    );
    assert_eq!(checker.check_word("giraffe"), Err(vec![]));
}

#[test]
fn check_word_returns_what_the_strategy_proposes() {
    let mut words: Vec<&str> = vec!["left", "right"];
    let trie = Trie::new(words.as_mut_slice());
    let checker = SpellChecker::new(trie, |word: &str, _trie: &Trie| {
        vec![word.to_uppercase(), "right".to_string()]
    });

    assert_eq!(checker.check_word("left"), Ok(()));
    assert_eq!(checker.check_word("lift"), Err(strings(&["LIFT", "right"])));
}

#[test]
fn empty_query_against_short_words() {
    let mut words: Vec<&str> = vec!["a", "ab", "abc", "abcd"];
    let trie = Trie::new(words.as_mut_slice());

    let aut: LevenshteinAutomaton<Deterministic> = LevenshteinAutomaton::new("", 2).into();
    assert!(aut.get_automaton().run(""));
    let found = sorted(aut.get_automaton().intersect(trie.get_automaton()));
    assert_eq!(found, strings(&["a", "ab"]));
    assert_eq!(sorted(within_distance("", &trie, 2)), strings(&["a", "ab"]));
    assert_eq!(sorted(within_distance("", &trie, 0)), strings(&[]));
    assert_eq!(sorted(within_distance("", &trie, 4)), strings(&["a", "ab", "abc", "abcd"]));
}

#[test]
fn unicode_query() {
    // "cafx" turns into "café" by one substitution, as "cafe" does
    let accepted = ["café", "cafe", "caf", "cafés", "cafx"];
    let rejected = ["cafxx", "ca", "cafeés", "coffee"];

    let nfa = LevenshteinAutomaton::new("café", 1);
    for word in accepted {
        assert!(nfa.get_automaton().run(word), "{word}");
    }
    for word in rejected {
        assert!(!nfa.get_automaton().run(word), "{word}");
    }
    for word in accepted {
        assert!(levenshtein("café", word) <= 1, "{word}");
    }
    for word in rejected {
        assert!(levenshtein("café", word) > 1, "{word}");
    }

    let dfa: LevenshteinAutomaton<Deterministic> = nfa.into();
    for word in accepted {
        assert!(dfa.get_automaton().run(word), "{word}");
    }
    for word in rejected {
        assert!(!dfa.get_automaton().run(word), "{word}");
    }
}

#[test]
fn automata_agree_with_the_distance_table() {
    let alphabet = ['f', 'o', 'd', 'x'];
    let mut words: Vec<String> = vec![String::new()];
    let mut layer: Vec<String> = vec![String::new()];
    for _ in 0..5 {
        let mut next = Vec::new();
        for prefix in &layer {
            for c in alphabet {
                let mut word = prefix.clone();
                word.push(c);
                next.push(word);
            }
        }
        words.extend(next.iter().cloned());
        layer = next;
    }
    for target in ["", "f", "fo", "food", "dood"] {
        for k in 0..3 {
            let nfa = LevenshteinAutomaton::new(target, k);
            assert!(nfa.get_automaton().run(target));
            let expected: Vec<bool> = words.iter().map(|w| levenshtein(target, w) <= k).collect();
            for (word, within) in words.iter().zip(&expected) {
                assert_eq!(nfa.get_automaton().run(word), *within, "{target:?} {k} {word:?}");
            }
            let dfa: LevenshteinAutomaton<Deterministic> = nfa.into();
            assert!(dfa.get_automaton().run(target));
            for (word, within) in words.iter().zip(&expected) {
                assert_eq!(dfa.get_automaton().run(word), *within, "{target:?} {k} {word:?}");
            }
        }
    }
}

#[test]
fn within_distance_lists_the_dictionary_words_in_reach() {
    let dictionary = [
        "", "bat", "bath", "car", "card", "care", "cart", "cat", "cats", "chat", "coat", "cot",
        "at", "a", "scat",
    ];
    let mut words: Vec<&str> = dictionary.to_vec();
    let trie = Trie::new(words.as_mut_slice());

    for query in ["cat", "cab", "", "a", "xyz", "cart", "chats"] {
        for k in 0..4 {
            let mut expected: Vec<String> = dictionary
                .iter()
                .filter(|d| !d.is_empty() && levenshtein(query, d) <= k)
                .map(|d| d.to_string())
                .collect();
            expected.sort();
            let found = within_distance(query, &trie, k);
            assert_eq!(sorted(found), expected, "{query:?} {k}");
        }
    }
}

#[test]
fn check_word_takes_the_fast_path_for_every_dictionary_word() {
    let dictionary = ["bat", "bath", "car", "card", "cat"];
    let mut words: Vec<&str> = dictionary.to_vec();
    let trie = Trie::new(words.as_mut_slice());
    let checker = SpellChecker::new(trie, |word: &str, trie: &Trie| within_distance(word, trie, 2));

    for word in dictionary {
        assert_eq!(checker.check_word(word), Ok(()));
    }
    for word in ["ba", "cart", "dog", ""] {
        let mut expected: Vec<String> = dictionary
            .iter()
            .filter(|d| levenshtein(word, d) <= 2)
            .map(|d| d.to_string())
            .collect();
        expected.sort();
        assert_eq!(checker.check_word(word).map_err(sorted), Err(expected));
    }
}
