use lev_automaton::automaton::Deterministic;
use lev_automaton::levenshtein_automaton::LevenshteinAutomaton;

const FOOD: &str = "food";

const FOOD_LEV_1: [&str; 12] = [
    "foo", "foo.d", "food.", "fo*d", "foo*", "fo.od", "fod", "f*od", "ood", ".food", "f.ood",
    "*ood",
];

const FOOD_LEV_2: [&str; 50] = [
    "oo*", "f*od.", "f.o*d", "fo.od.", "f*.od", "fo*", "f..ood", "*oo.d", "*.ood", "fod.",
    ".fod", "foo.d.", ".f*od", "*o*d", "fo.o.d", ".foo.d", "..food", "oo", "fo*d.", "o*d",
    "*oo*", "fo.*d", ".fo*d", "fd", "f.oo.d", ".food.", "*od", "*ood.", "food..", "**od",
    ".f.ood", "fo*.d", "f*o", "*oo", "f*o*", "fo.o*", "o.od", "f**d", ".foo", "fo..od",
    "f*o.d", "*o.od", "od", ".foo*", "oo.d", "f.oo", "f.o.od", "fo.o", "f.*od", "fo",
];

const FOOD_LEV_3: [&str; 10] = [
    "*o", "f*.", "f.o*d.", "f..od.", "f*.o", "fo**.", "f...ood", "*.d", "f", "o",
];

const FOOD_LEV_4: [&str; 6] = ["", "****", "f***.", "***.d", "***d.", "**o*."];

#[test]
fn test_0th_degree_lev_automata() {
    let lev_aut = LevenshteinAutomaton::new(FOOD, 0);

    assert!(lev_aut.get_automaton().run(FOOD));

    for word in FOOD_LEV_1 {
        assert!(!lev_aut.get_automaton().run(word))
    }
}

#[test]
fn test_1st_degree_lev_automata() {
    let lev_aut = LevenshteinAutomaton::new(FOOD, 1);

    assert!(lev_aut.get_automaton().run(FOOD));

    for word in FOOD_LEV_1 {
        assert!(lev_aut.get_automaton().run(word))
    }

    for word in FOOD_LEV_2 {
        assert!(!lev_aut.get_automaton().run(word))
    }
}

#[test]
fn test_2nd_degree_lev_automata() {
    let lev_aut = LevenshteinAutomaton::new(FOOD, 2);

    assert!(lev_aut.get_automaton().run(FOOD));

    for word in FOOD_LEV_1 {
        assert!(lev_aut.get_automaton().run(word))
    }

    for word in FOOD_LEV_2 {
        assert!(lev_aut.get_automaton().run(word))
    }

    for word in FOOD_LEV_3 {
        assert!(!lev_aut.get_automaton().run(word))
    }
}

#[test]
fn test_3rd_degree_lev_automata() {
    let lev_aut = LevenshteinAutomaton::new(FOOD, 3);

    assert!(lev_aut.get_automaton().run(FOOD));

    for word in FOOD_LEV_1 {
        assert!(lev_aut.get_automaton().run(word))
    }

    for word in FOOD_LEV_2 {
        assert!(lev_aut.get_automaton().run(word))
    }

    for word in FOOD_LEV_3 {
        assert!(lev_aut.get_automaton().run(word))
    }

    for word in FOOD_LEV_4 {
        assert!(!lev_aut.get_automaton().run(word))
    }
}

#[test]
fn test_0th_degree_det_lev_automata() {
    let lev_aut: LevenshteinAutomaton<Deterministic> = LevenshteinAutomaton::new(FOOD, 0).into();

    assert!(lev_aut.get_automaton().run(FOOD));

    for word in FOOD_LEV_1 {
        assert!(!lev_aut.get_automaton().run(word))
    }
}

#[test]
fn test_1st_degree_det_lev_automata() {
    let lev_aut: LevenshteinAutomaton<Deterministic> = LevenshteinAutomaton::new(FOOD, 1).into();

    assert!(lev_aut.get_automaton().run(FOOD));

    for word in FOOD_LEV_1 {
        assert!(lev_aut.get_automaton().run(word))
    }

    for word in FOOD_LEV_2 {
        assert!(!lev_aut.get_automaton().run(word))
    }
}

#[test]
fn test_2nd_degree_det_lev_automata() {
    let lev_aut: LevenshteinAutomaton<Deterministic> = LevenshteinAutomaton::new(FOOD, 2).into();

    assert!(lev_aut.get_automaton().run(FOOD));

    for word in FOOD_LEV_1 {
        assert!(lev_aut.get_automaton().run(word))
    }

    for word in FOOD_LEV_2 {
        assert!(lev_aut.get_automaton().run(word))
    }

    for word in FOOD_LEV_3 {
        assert!(!lev_aut.get_automaton().run(word))
    }
}

#[test]
fn test_3rd_degree_det_lev_automata() {
    let lev_aut: LevenshteinAutomaton<Deterministic> = LevenshteinAutomaton::new(FOOD, 3).into();

    assert!(lev_aut.get_automaton().run(FOOD));

    for word in FOOD_LEV_1 {
        assert!(lev_aut.get_automaton().run(word))
    }

    for word in FOOD_LEV_2 {
        assert!(lev_aut.get_automaton().run(word))
    }

    for word in FOOD_LEV_3 {
        assert!(lev_aut.get_automaton().run(word))
    }

    for word in FOOD_LEV_4 {
        assert!(!lev_aut.get_automaton().run(word))
    }
}

#[test]
fn budget_one_accepts_single_edits() {
    let nfa = LevenshteinAutomaton::new("food", 1);
    for word in [
        "food", "foo", "food.", "fo*d", "foo*", "fo.od", "fod", "f*od", "ood", ".food", "f.ood",
        "*ood",
    ] {
        assert!(nfa.get_automaton().run(word), "{word}");
    }
    for word in ["oo*", "fd", "f*od."] {
        assert!(!nfa.get_automaton().run(word), "{word}");
    }
}

#[test]
fn budget_two_accepts_double_edits() {
    let nfa = LevenshteinAutomaton::new("food", 2);
    for word in [
        "food", "foo", "food.", "fo*d", "foo*", "fo.od", "fod", "f*od", "ood", ".food", "f.ood",
        "*ood", "oo", "fd", "f*od.", "food..", "**od", "od",
    ] {
        assert!(nfa.get_automaton().run(word), "{word}");
    }
    for word in ["*o", "f", "o", "f*."] {
        assert!(!nfa.get_automaton().run(word), "{word}");
    }
}

#[test]
fn budget_zero_accepts_the_word_alone() {
    for target in ["", "a", "food", "café"] {
        let nfa = LevenshteinAutomaton::new(target, 0);
        assert!(nfa.get_automaton().run(target));
        let dfa: LevenshteinAutomaton<Deterministic> = nfa.into();
        assert!(dfa.get_automaton().run(target));
        assert!(!dfa.get_automaton().run("foodx"));
        assert!(!dfa.get_automaton().run("x"));
    }
}
