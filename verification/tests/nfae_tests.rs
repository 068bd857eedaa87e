use automata::nfae::NFAeBuilder;
use automata::state::State;
use automata::transition::{MaybeEpsilonTransition, RealTransition};

#[test]
fn test_nfae_builder() {
    let mut builder = NFAeBuilder::default();

    let mut start = State::new(false, ());
    let finish = State::new(true, ());

    builder.set_start(0);

    start.add_transition(MaybeEpsilonTransition::from_real(RealTransition::new('a', 1)));

    builder.add_state(start).add_state(finish);

    builder.build().unwrap();
}

#[test]
fn test_convert_to_nfa() {
    let mut builder = NFAeBuilder::default();
    let mut start = State::new(false, ());
    let mut a = State::new(false, ());
    let mut b = State::new(false, ());
    let mut c = State::new(false, ());
    let d = State::new(true, ());

    start.add_transition(MaybeEpsilonTransition::from_real(RealTransition::new('a', 1)));
    start.add_transition(MaybeEpsilonTransition::from_real(RealTransition::new('b', 2)));
    a.add_transition(MaybeEpsilonTransition::new_epsilon(3));
    b.add_transition(MaybeEpsilonTransition::new_epsilon(3));
    c.add_transition(MaybeEpsilonTransition::new_epsilon(4));

    builder
        .add_state(start)
        .add_state(a)
        .add_state(b)
        .add_state(c)
        .add_state(d);

    builder.set_start(0);

    let mut nfae = builder.build().unwrap();

    assert!(nfae.epsilon_closure(0).len() == 1);
    assert!(nfae.epsilon_closure(1).len() == 3);
    assert!(nfae.epsilon_closure(2).len() == 3);
    assert!(nfae.epsilon_closure(3).len() == 2);
    assert!(nfae.epsilon_closure(4).len() == 1);

    nfae.epsilon_simplify_all();

    assert!(!nfae.get_state(0).unwrap().is_finish());
    assert!(nfae.get_state(1).unwrap().is_finish());
    assert!(nfae.get_state(2).unwrap().is_finish());
    assert!(nfae.get_state(3).unwrap().is_finish());
    assert!(nfae.get_state(4).unwrap().is_finish());

    assert!(nfae.get_states().len() == 5);

    nfae.remove_orphan_states();

    assert_eq!(nfae.get_states().len(), 3);

    let _ = nfae.into_nfa();
}

#[test]
fn orphan_removal_keeps_dests_valid() {
    let mut builder = NFAeBuilder::default();
    let mut start = State::new(false, ());
    let mut a = State::new(false, ());
    let mut b = State::new(false, ());
    let mut c = State::new(false, ());
    let d = State::new(true, ());

    start.add_transition(MaybeEpsilonTransition::from_real(RealTransition::new('a', 1)));
    start.add_transition(MaybeEpsilonTransition::from_real(RealTransition::new('b', 2)));
    a.add_transition(MaybeEpsilonTransition::new_epsilon(3));
    b.add_transition(MaybeEpsilonTransition::new_epsilon(3));
    c.add_transition(MaybeEpsilonTransition::new_epsilon(4));

    builder
        .add_state(start)
        .add_state(a)
        .add_state(b)
        .add_state(c)
        .add_state(d);
    builder.set_start(0);

    let mut nfae = builder.build().unwrap();
    nfae.epsilon_simplify_all();
    nfae.remove_orphan_states();

    let n = nfae.get_states().len();
    assert_eq!(n, 3);
    for st in nfae.get_states() {
        for tr in &st.transitions {
            assert!(tr.dest() < n);
            assert!(!tr.is_epsilon());
        }
    }
}

#[test]
fn epsilon_free_conversion_preserves_machine() {
    let mut builder = NFAeBuilder::default();
    let mut start = State::new(false, 0);
    let mut mid = State::new(false, 1);
    let finish = State::new(true, 2);

    start.add_transition(MaybeEpsilonTransition::new_symbol('a', 1));
    mid.add_transition(MaybeEpsilonTransition::new_symbol('b', 2));
    mid.add_transition(MaybeEpsilonTransition::new_symbol('a', 0));

    builder.add_state(start).add_state(mid).add_state(finish);
    builder.set_start(0);

    let nfae = builder.build().unwrap();
    let nfa = nfae.into_nfa();

    assert!(nfa.get_state(0).is_some());
    assert!(nfa.get_state(1).is_some());
    assert!(nfa.get_state(2).is_some());
    assert!(nfa.get_state(3).is_none());
    assert_eq!(nfa.get_start().data, 0);
    assert!(!nfa.get_state(0).unwrap().is_finish());
    assert!(!nfa.get_state(1).unwrap().is_finish());
    assert!(nfa.get_state(2).unwrap().is_finish());
    assert_eq!(nfa.get_state(0).unwrap().next(&'a'), vec![1]);
    assert_eq!(nfa.get_state(1).unwrap().next(&'b'), vec![2]);
    assert_eq!(nfa.get_state(1).unwrap().next(&'a'), vec![0]);

    let ends = nfa.traverse(&vec!['a', 'b']);
    assert_eq!(ends.len(), 1);
    assert!(ends[0].is_finish());
}

#[test]
fn nfae_get_state_mut_edits_in_place() {
    let mut builder: NFAeBuilder<char, i32> = NFAeBuilder::default();
    builder.set_start(0);
    builder.add_state(State::new(true, 5));
    let mut nfae = builder.build().unwrap();

    assert!(nfae.get_state_mut(3).is_none());
    let st = nfae.get_state_mut(0).unwrap();
    st.data = 6;
    assert_eq!(nfae.get_state(0).unwrap().data, 6);
}

#[test]
fn nfae_into_builder_round_trip() {
    let mut builder: NFAeBuilder<char, i32> = NFAeBuilder::default();
    builder.set_start(0);
    builder.add_state(State::new(true, 5));
    let nfae = builder.build().unwrap();
    let b2 = nfae.into_builder();
    assert_eq!(b2.start, Some(0));
    let nfae2 = b2.build().unwrap();
    assert_eq!(nfae2.get_start().data, 5);
}

#[test]
fn epsilon_cycle_closure_terminates() {
    let mut builder: NFAeBuilder<char, ()> = NFAeBuilder::default();
    let mut a = State::new(false, ());
    let mut b = State::new(true, ());

    a.add_transition(MaybeEpsilonTransition::new_epsilon(1));
    b.add_transition(MaybeEpsilonTransition::new_epsilon(0));

    builder.add_state(a).add_state(b);
    builder.set_start(0);

    let nfae = builder.build().unwrap();
    assert_eq!(nfae.epsilon_closure(0).len(), 2);
    assert_eq!(nfae.epsilon_closure(1).len(), 2);
    assert!(nfae.epsilon_closure(9).is_empty());
}

#[test]
fn transition_conversions() {
    let t = MaybeEpsilonTransition::new_symbol('q', 4);
    assert!(!t.is_epsilon());
    assert_eq!(t.symbol(), Some(&'q'));
    assert_eq!(t.dest(), 4);

    let real = t.to_real().unwrap();
    assert_eq!(*real.symbol(), 'q');
    assert_eq!(real.dest(), 4);

    let mut e: MaybeEpsilonTransition<char> = MaybeEpsilonTransition::new_epsilon(2);
    assert!(e.is_epsilon());
    assert!(e.symbol().is_none());
    e.set_dest(7);
    assert_eq!(e.dest(), 7);
    match e.to_real() {
        Err(msg) => assert_eq!(msg, "transition must have a symbol"),
        Ok(_) => panic!("expected an epsilon transition to fail conversion"),
    }

    let back = MaybeEpsilonTransition::from_real(RealTransition::new('z', 3));
    assert!(!back.is_epsilon());
    assert_eq!(back.dest(), 3);
    assert_eq!(back.symbol(), Some(&'z'));
}
