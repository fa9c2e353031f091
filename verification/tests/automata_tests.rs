use sheaf_automata::automata::{Dfa, Nfa};
use sheaf_automata::sheaf::Stalk;

fn simple_dfa() -> Dfa {
    let mut dfa = Dfa::new(
        vec!["q0".into(), "q1".into()],
        vec!["a".into(), "b".into()],
        0,
        vec![false, true],
    );
    dfa.add_transition(0, 0, 1); // q0 --a--> q1
    dfa.add_transition(0, 1, 0); // q0 --b--> q0
    dfa.add_transition(1, 0, 0); // q1 --a--> q0
    dfa.add_transition(1, 1, 1); // q1 --b--> q1
    dfa
}

#[test]
fn test_dfa_run() {
    let dfa = simple_dfa();
    assert_eq!(dfa.run(&[0]), Some(1)); // "a" → q1
    assert_eq!(dfa.run(&[1]), Some(0)); // "b" → q0
}

#[test]
fn test_dfa_accepts() {
    let dfa = simple_dfa();
    assert!(dfa.accepts(&[0])); // "a"
    assert!(!dfa.accepts(&[])); // ε
    assert!(dfa.accepts(&[0, 1])); // "ab"
}

#[test]
fn test_dfa_to_stalk() {
    let dfa = simple_dfa();
    let stalk = dfa.to_stalk();
    assert_eq!(stalk.dimension(), 2);
}

#[test]
fn test_nfa_run() {
    let mut nfa = Nfa::new(
        vec!["q0".into(), "q1".into()],
        vec!["a".into()],
        0,
        vec![false, true],
    );
    nfa.add_transition(0, 0, 0);
    nfa.add_transition(0, 0, 1);
    nfa.add_transition(1, 0, 1);

    let result = nfa.run(&[0]);
    assert!(result.contains(&0));
    assert!(result.contains(&1));
}

#[test]
fn test_nfa_accepts() {
    let mut nfa = Nfa::new(
        vec!["q0".into(), "q1".into()],
        vec!["a".into()],
        0,
        vec![false, true],
    );
    nfa.add_transition(0, 0, 1);
    assert!(nfa.accepts(&[0]));
}

#[test]
fn test_nfa_to_dfa() {
    let mut nfa = Nfa::new(
        vec!["q0".into(), "q1".into()],
        vec!["a".into()],
        0,
        vec![false, true],
    );
    nfa.add_transition(0, 0, 0);
    nfa.add_transition(0, 0, 1);
    nfa.add_transition(1, 0, 1);

    let dfa = nfa.to_dfa();
    assert!(dfa.accepts(&[0])); // "a" should be accepted
}

#[test]
fn dfa_gets_stuck_on_missing_transition() {
    let mut dfa = Dfa::new(vec!["p".into(), "q".into()], vec!["x".into(), "y".into()], 0, vec![true, false]);
    dfa.add_transition(0, 0, 1);
    assert_eq!(dfa.run(&[0, 0]), None);
    assert!(!dfa.accepts(&[0, 0]));
    assert_eq!(dfa.run(&[]), Some(0));
    assert!(dfa.accepts(&[]));
}

#[test]
fn dfa_state_without_accepting_mark_rejects() {
    let mut dfa = Dfa::new(vec!["p".into()], vec!["x".into()], 0, vec![true]);
    dfa.add_transition(0, 0, 5);
    assert_eq!(dfa.run(&[0]), Some(5));
    assert!(!dfa.accepts(&[0]));
}

#[test]
fn dfa_later_transition_replaces_earlier() {
    let mut dfa = Dfa::new(vec!["p".into(), "q".into()], vec!["x".into()], 0, vec![false, true]);
    dfa.add_transition(0, 0, 0);
    dfa.add_transition(0, 0, 1);
    assert_eq!(dfa.transitions.len(), 1);
    assert_eq!(dfa.run(&[0]), Some(1));
}

#[test]
fn dfa_run_on_concatenation_continues_from_prefix() {
    let dfa = simple_dfa();
    let u = [0usize, 1, 0];
    let v = [1usize, 1, 0];
    let uv: Vec<usize> = u.iter().chain(v.iter()).copied().collect();
    let mid = dfa.run(&u).unwrap();
    let mut from_mid = dfa.clone();
    from_mid.initial = mid;
    assert_eq!(dfa.run(&uv), from_mid.run(&v));
}

#[test]
fn stalks_of_automata_list_states_and_marks() {
    let dfa = simple_dfa();
    match dfa.to_stalk() {
        Stalk::AutomatonState { states, accepting } => {
            assert_eq!(states, vec![0, 1]);
            assert_eq!(accepting, vec![false, true]);
        }
        _ => panic!("an automaton gives an automaton stalk"),
    }
    let nfa = Nfa::new(vec!["a".into(), "b".into(), "c".into()], vec![], 2, vec![true]);
    assert_eq!(nfa.to_stalk().dimension(), 3);
}

#[test]
fn nfa_add_transition_accumulates_targets() {
    let mut nfa = Nfa::new(vec!["q0".into(), "q1".into(), "q2".into()], vec!["a".into()], 0, vec![false, false, true]);
    nfa.add_transition(0, 0, 2);
    nfa.add_transition(0, 0, 1);
    nfa.add_transition(0, 0, 2);
    let targets: Vec<usize> = nfa.transitions[&(0, 0)].iter().copied().collect();
    assert_eq!(targets, vec![1, 2]);
    let reached: Vec<usize> = nfa.run(&[0]).into_iter().collect();
    assert_eq!(reached, vec![1, 2]);
    assert!(nfa.run(&[0, 0]).is_empty());
    assert!(!nfa.accepts(&[0, 0]));
    assert!(nfa.accepts(&[0]));
}

#[test]
fn nfa_empty_word_reaches_initial_state() {
    let nfa = Nfa::new(vec!["q0".into(), "q1".into()], vec!["a".into()], 1, vec![false, true]);
    let reached: Vec<usize> = nfa.run(&[]).into_iter().collect();
    assert_eq!(reached, vec![1]);
    assert!(nfa.accepts(&[]));
}

fn branching_nfa() -> Nfa {
    // Accepts words over {a, b} whose second-to-last symbol is `a`.
    let mut nfa = Nfa::new(
        vec!["s".into(), "t".into(), "u".into()],
        vec!["a".into(), "b".into()],
        0,
        vec![false, false, true],
    );
    nfa.add_transition(0, 0, 0);
    nfa.add_transition(0, 1, 0);
    nfa.add_transition(0, 0, 1);
    nfa.add_transition(1, 0, 2);
    nfa.add_transition(1, 1, 2);
    nfa
}

#[test]
fn subset_construction_names_and_numbers_states_depth_first() {
    let dfa = branching_nfa().to_dfa();
    assert_eq!(dfa.initial, 0);
    assert_eq!(dfa.alphabet, vec!["a".to_string(), "b".to_string()]);
    assert_eq!(
        dfa.states,
        vec!["{0}".to_string(), "{0, 1}".to_string(), "{0, 1, 2}".to_string(), "{0, 2}".to_string()]
    );
    assert_eq!(dfa.accepting, vec![false, false, true, true]);
    assert_eq!(dfa.transitions.len(), 8);
    assert_eq!(dfa.transitions[&(0, 0)], 1);
    assert_eq!(dfa.transitions[&(0, 1)], 0);
    assert_eq!(dfa.transitions[&(1, 0)], 2);
    assert_eq!(dfa.transitions[&(1, 1)], 3);
    assert_eq!(dfa.transitions[&(3, 0)], 1);
    assert_eq!(dfa.transitions[&(2, 1)], 3);
}

#[test]
fn subset_construction_accepts_the_same_words() {
    let nfa = branching_nfa();
    let dfa = nfa.to_dfa();
    let mut words: Vec<Vec<usize>> = vec![vec![]];
    for _ in 0..5 {
        let mut longer = vec![];
        for w in &words {
            for s in 0..2 {
                let mut x = w.clone();
                x.push(s);
                longer.push(x);
            }
        }
        words.extend(longer);
        words.sort();
        words.dedup();
    }
    for w in &words {
        assert_eq!(dfa.accepts(w), nfa.accepts(w), "word {:?}", w);
    }
}

#[test]
fn subset_construction_omits_empty_successor_sets() {
    let mut nfa = Nfa::new(vec!["p".into(), "q".into()], vec!["a".into(), "b".into()], 0, vec![false, true]);
    nfa.add_transition(0, 0, 1);
    let dfa = nfa.to_dfa();
    assert_eq!(dfa.states, vec!["{0}".to_string(), "{1}".to_string()]);
    assert_eq!(dfa.transitions.len(), 1);
    assert_eq!(dfa.run(&[1]), None);
    assert!(!dfa.accepts(&[0, 0]));
    assert!(dfa.accepts(&[0]));
}

#[test]
fn subset_construction_ignores_symbols_outside_the_alphabet() {
    let mut nfa = Nfa::new(vec!["p".into(), "q".into()], vec!["a".into()], 0, vec![false, true]);
    nfa.add_transition(0, 1, 1);
    assert!(nfa.accepts(&[1]));
    let dfa = nfa.to_dfa();
    assert!(!dfa.accepts(&[1]));
    assert_eq!(dfa.states.len(), 1);
}

#[test]
fn subset_construction_renders_multi_digit_states() {
    let mut nfa = Nfa::new(vec![], vec!["a".into()], 10, vec![]);
    nfa.add_transition(10, 0, 123);
    nfa.add_transition(10, 0, 7);
    let dfa = nfa.to_dfa();
    assert_eq!(dfa.states, vec!["{10}".to_string(), "{7, 123}".to_string()]);
}
