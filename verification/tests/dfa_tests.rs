use automata::Transition;
use automata::DFA;

#[test]
fn new() {
    let mut dfa = DFA::new(false);
    let c0 = dfa.get_start_mut();
    let c1 = c0.add_state(&mut dfa, '/', false);
    let c2 = c1.add_state(&mut dfa, '/', true);
    let c2 = c2.add_self_loop(&mut dfa, ' ');
    let _c3 = c2.add_state(&mut dfa, '\n', true);

    let inputs: Vec<char> = "//   ".chars().collect();
    assert!(dfa.traverse(&inputs).is_some_and(|x| *x.value()));
}

#[test]
fn dfa_traversal_matches_and_misses() {
    let mut dfa = DFA::new(false);
    let c0 = dfa.get_start_mut();
    let c1 = c0.add_state(&mut dfa, '/', false);
    let c2 = c1.add_state(&mut dfa, '/', true);
    let c2 = c2.add_self_loop(&mut dfa, ' ');
    let _c3 = c2.add_state(&mut dfa, '\n', true);

    let comment: Vec<char> = "// ".chars().collect();
    assert_eq!(*dfa.traverse(&comment).unwrap().value(), true);

    let slash: Vec<char> = "/".chars().collect();
    assert_eq!(*dfa.traverse(&slash).unwrap().value(), false);

    let other: Vec<char> = "x".chars().collect();
    assert!(dfa.traverse(&other).is_none());
}

#[test]
fn dfa_set_transition_overwrites() {
    let mut dfa = DFA::new(0u32);
    dfa.add_state(1u32);
    dfa.add_state(2u32);

    let c0 = dfa.get_start_mut();
    let c0 = c0.set_transition(&mut dfa, 'x', 1);
    c0.set_transition(&mut dfa, 'x', 2);

    let inputs = vec!['x'];
    assert_eq!(*dfa.traverse(&inputs).unwrap().value(), 2u32);
}

#[test]
fn dfa_get_state_bounds() {
    let mut dfa: DFA<char, i32> = DFA::new(7);
    assert!(dfa.get_state(0).is_some());
    assert!(dfa.get_state(1).is_none());
    assert!(dfa.get_state_mut(0).is_some());
    assert!(dfa.get_state_mut(1).is_none());
    assert_eq!(*dfa.get_start().value(), 7);
}

#[test]
fn dfa_extend_splices_states() {
    let mut sub = DFA::new(10u32);
    let s0 = sub.get_start_mut();
    s0.add_state(&mut sub, 'b', 11u32);

    let mut dfa = DFA::new(0u32);
    let c0 = dfa.get_start_mut();
    c0.extend(&mut dfa, 'a', sub);

    let inputs = vec!['a'];
    assert_eq!(*dfa.traverse(&inputs).unwrap().value(), 10u32);
    let inputs = vec!['a', 'b'];
    assert_eq!(*dfa.traverse(&inputs).unwrap().value(), 11u32);
}

#[test]
fn dfa_trait_next_chaining() {
    let mut dfa = DFA::new(0u32);
    let c0 = dfa.get_start_mut();
    c0.add_state(&mut dfa, 'a', 1u32);

    let start = dfa.get_start();
    let one = start.next(&'a');
    assert_eq!(*one.as_ref().unwrap().value(), 1u32);
    let dead = one.next(&'z');
    assert!(dead.is_none());
}
