use pushy_automata::binary_string::{
    accepts, input_to_string, run, state_to_string, transition, transition0, ONE, ZERO,
};
use pushy_automata::magic_door::{self, Input, State};

const INPUTS: [bool; 7] = [ONE, ZERO, ZERO, ZERO, ZERO, ONE, ONE];

#[test]
fn table_accepts_the_sample_input() {
    assert_eq!(run(&INPUTS), Some(4));
    assert!(accepts(&INPUTS));
}

#[test]
fn table_rejects_and_gets_stuck() {
    assert_eq!(run(&[ZERO]), None);
    assert!(!accepts(&[ZERO, ONE]));
    assert!(!accepts(&[ONE, ZERO, ZERO]));
    assert!(accepts(&[ONE, ZERO, ZERO, ONE]));
    assert!(!accepts(&[]));
    assert_eq!(run(&[]), Some(0));
}

#[test]
fn table_entries() {
    assert_eq!(transition(0, ONE), Some(1));
    assert_eq!(transition(0, ZERO), None);
    assert_eq!(transition(1, ZERO), Some(2));
    assert_eq!(transition(2, ZERO), Some(3));
    assert_eq!(transition(3, ZERO), Some(3));
    assert_eq!(transition(3, ONE), Some(4));
    assert_eq!(transition(4, ONE), Some(4));
    assert_eq!(transition(4, ZERO), None);
    assert_eq!(transition(9, ONE), None);
}

#[test]
fn implicit_state_agrees_with_table() {
    assert!(transition0(&INPUTS));
    for n in 0..8usize {
        for bits in 0..(1u32 << n) {
            let w: Vec<bool> = (0..n).map(|i| (bits >> i) & 1 == 1).collect();
            assert_eq!(transition0(&w), accepts(&w), "word {:?}", w);
        }
    }
}

#[test]
fn texts_of_bits_and_states() {
    assert_eq!(input_to_string(ONE), "1");
    assert_eq!(input_to_string(ZERO), "0");
    assert_eq!(state_to_string(None), "STUCK");
    assert_eq!(state_to_string(Some(0)), "q0");
    assert_eq!(state_to_string(Some(4)), "q4");
    assert_eq!(state_to_string(Some(42)), "q42");
    assert_eq!(state_to_string(Some(205)), "q205");
}

#[test]
fn magic_door_follows_the_last_input() {
    let inputs = [Input::Front, Input::Front, Input::Both, Input::Back, Input::Neither];
    assert_eq!(magic_door::run(magic_door::START, &inputs), State::Closed);
    assert_eq!(magic_door::run(State::Closed, &inputs[..2]), State::Open);
    assert_eq!(magic_door::transition(State::Open, Input::Both), State::Closed);
    assert_eq!(magic_door::transition(State::Closed, Input::Front), State::Open);
    assert_eq!(magic_door::run(State::Open, &[]), State::Open);
}
