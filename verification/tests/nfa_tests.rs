use automata::nfa::{NFABuilder, NFABuilderError};
use automata::state::State;
use automata::transition::RealTransition;

#[test]
fn test_nfa_traverse() {
    let mut nfa = NFABuilder::default();
    let mut start = State::new(false, 0);
    let mut x = State::new(false, 1);
    let mut y = State::new(false, 2);
    let z = State::new(true, 3);

    start.add_transition(RealTransition::new('a', 1));
    start.add_transition(RealTransition::new('a', 2));

    x.add_transition(RealTransition::new('b', 3));
    y.add_transition(RealTransition::new('c', 3));

    nfa.add_state(start).add_state(x).add_state(y).add_state(z);

    nfa.set_start(0);

    let nfa = nfa.build().unwrap();

    assert!(
        nfa.traverse(&vec!['a'])
            .iter()
            .map(|st| st.data)
            .collect::<Vec<_>>()
            == vec![1, 2]
    );
    assert!(nfa.traverse(&vec!['a', 'b']).first().unwrap().data == 3);
}

#[test]
fn nfa_builder_rejects_missing_start() {
    let mut b: NFABuilder<char, i32> = NFABuilder::default();
    b.add_state(State::new(true, 0));
    match b.build() {
        Err(e) => assert_eq!(e, NFABuilderError::MissingStartIndex),
        Ok(_) => panic!("expected a build error"),
    }
}

#[test]
fn nfa_builder_rejects_missing_states() {
    let mut b: NFABuilder<char, i32> = NFABuilder::default();
    b.set_start(0);
    match b.build() {
        Err(e) => assert_eq!(e, NFABuilderError::MissingStates),
        Ok(_) => panic!("expected a build error"),
    }
}

#[test]
fn nfa_builder_rejects_missing_finish() {
    let mut b: NFABuilder<char, i32> = NFABuilder::default();
    b.set_start(0);
    b.add_state(State::new(false, 0));
    match b.build() {
        Err(e) => assert_eq!(e, NFABuilderError::MissingFinish),
        Ok(_) => panic!("expected a build error"),
    }
}

#[test]
fn nfa_builder_rejects_invalid_start() {
    let mut b: NFABuilder<char, i32> = NFABuilder::default();
    b.set_start(2);
    b.add_state(State::new(true, 0));
    match b.build() {
        Err(e) => assert_eq!(e, NFABuilderError::InvalidStartIndex),
        Ok(_) => panic!("expected a build error"),
    }
}

#[test]
fn nfa_builder_accepts_valid_machine() {
    let mut b: NFABuilder<char, i32> = NFABuilder::default();
    b.set_start(1);
    b.add_state(State::new(false, 0)).add_state(State::new(true, 1));
    let nfa = b.build().unwrap();
    assert_eq!(nfa.get_start().data, 1);
    assert!(nfa.get_state(0).is_some());
    assert!(nfa.get_state(1).is_some());
    assert!(nfa.get_state(2).is_none());
}

#[test]
fn nfa_traverse_from_missing_state_is_empty() {
    let mut b: NFABuilder<char, i32> = NFABuilder::default();
    b.set_start(0);
    b.add_state(State::new(true, 0));
    let nfa = b.build().unwrap();
    assert!(nfa.traverse_from(5, &vec!['a']).is_empty());
}

#[test]
fn nfa_into_builder_round_trip() {
    let mut b: NFABuilder<char, i32> = NFABuilder::default();
    b.set_start(0);
    b.add_state(State::new(true, 9));
    let nfa = b.build().unwrap();
    let b2 = nfa.into_builder();
    assert_eq!(b2.start, Some(0));
    let nfa2 = b2.build().unwrap();
    assert_eq!(nfa2.get_start().data, 9);
}

#[test]
fn state_next_collects_matching_dests() {
    let mut st: State<i32, RealTransition<char>> = State::new(false, 0);
    st.add_transition(RealTransition::new('a', 1));
    st.add_transition(RealTransition::new('b', 2));
    st.add_transition(RealTransition::new('a', 3));
    assert_eq!(st.next(&'a'), vec![1, 3]);
    assert_eq!(st.next(&'b'), vec![2]);
    assert!(st.next(&'c').is_empty());
    assert!(!st.is_finish());
}

#[test]
fn state_add_transitions_keeps_order() {
    let mut st: State<i32, RealTransition<char>> = State::new(true, 0);
    st.add_transitions(vec![
        RealTransition::new('a', 1),
        RealTransition::new('a', 2),
    ]);
    assert_eq!(st.next(&'a'), vec![1, 2]);
    assert!(st.is_finish());
}
