use pushy_automata::bottom_up;
use pushy_automata::config::Configuration;
use pushy_automata::grammar::{binary_palindrome, RulePart, S};
use pushy_automata::grammar_driven::{self, GrammarDriven};
use pushy_automata::pda::{close, simulate, Pda};
use pushy_automata::simple;

const LONG: [u8; 16] = [0, 0, 1, 0, 1, 0, 1, 1, 1, 1, 0, 1, 0, 1, 0, 0];

fn all_three(w: &[u8]) -> (bool, bool, bool) {
    (
        bottom_up::recognize(w),
        GrammarDriven::palindromes().recognize(w),
        simple::recognize(w),
    )
}

#[test]
fn empty_input_is_accepted() {
    assert_eq!(all_three(&[]), (true, true, true));
}

#[test]
fn single_symbol_is_rejected_as_odd_length() {
    // The grammar S -> 0 S 0 | 1 S 1 | epsilon only derives even-length words.
    assert_eq!(all_three(&[0]), (false, false, false));
    assert_eq!(all_three(&[0, 1, 0]), (false, false, false));
}

#[test]
fn non_palindrome_is_rejected() {
    assert_eq!(all_three(&[0, 1]), (false, false, false));
    assert_eq!(all_three(&[0, 1, 1, 1]), (false, false, false));
}

#[test]
fn short_palindromes_are_accepted() {
    assert_eq!(all_three(&[0, 0]), (true, true, true));
    assert_eq!(all_three(&[0, 1, 1, 0]), (true, true, true));
}

#[test]
fn long_palindrome_is_accepted() {
    assert_eq!(all_three(&LONG), (true, true, true));
    let mut broken = LONG;
    broken[3] = 1;
    assert_eq!(all_three(&broken), (false, false, false));
}

#[test]
fn recognisers_agree_on_all_short_words() {
    for n in 0..9usize {
        for bits in 0..(1u32 << n) {
            let w: Vec<u8> = (0..n).map(|i| ((bits >> i) & 1) as u8).collect();
            let rev: Vec<u8> = w.iter().rev().cloned().collect();
            let expected = w == rev && n % 2 == 0;
            assert_eq!(all_three(&w), (expected, expected, expected), "word {:?}", w);
        }
    }
}

#[test]
fn bottom_up_transition_branches_on_a_match() {
    assert_eq!(bottom_up::transition(0, 1, vec![2]), vec![(1, vec![2, 1])]);
    assert_eq!(bottom_up::transition(1, 0, vec![2, 0]), vec![(1, vec![2, 0, 0]), (2, vec![2])]);
    assert_eq!(bottom_up::transition(1, 1, vec![2, 0]), vec![(1, vec![2, 0, 1])]);
    assert_eq!(bottom_up::transition(1, 1, vec![]), vec![]);
    assert_eq!(bottom_up::transition(2, 1, vec![2, 1]), vec![(2, vec![2])]);
    assert_eq!(bottom_up::transition(2, 0, vec![2, 1]), vec![]);
    assert_eq!(bottom_up::transition(3, 0, vec![2, 0]), vec![]);
}

#[test]
fn bottom_up_epsilon_pops_the_sentinel() {
    assert_eq!(bottom_up::epsilon_transition(2, vec![2]), vec![(3, vec![])]);
    assert_eq!(bottom_up::epsilon_transition(2, vec![2, 0]), vec![]);
    assert_eq!(bottom_up::epsilon_transition(1, vec![2]), vec![]);
}

#[test]
fn grammar_transition_expands_and_matches() {
    assert_eq!(
        grammar_driven::transition(0, 0, vec![2, S]),
        vec![(0, vec![2, 0, S]), (0, vec![2, 0])]
    );
    assert_eq!(
        grammar_driven::transition(0, 1, vec![2, 0, S]),
        vec![(0, vec![2, 0, 1, S]), (0, vec![2, 0, 1])]
    );
    assert_eq!(grammar_driven::transition(0, 1, vec![2, 1]), vec![(0, vec![2])]);
    assert_eq!(grammar_driven::transition(0, 0, vec![2, 1]), vec![]);
    assert_eq!(grammar_driven::transition(1, 0, vec![]), vec![]);
    assert_eq!(grammar_driven::epsilon_transition(0, vec![2]), vec![(1, vec![])]);
    assert_eq!(grammar_driven::epsilon_transition(0, vec![2, S]), vec![]);
}

#[test]
fn palindrome_grammar_literal() {
    let g = binary_palindrome();
    assert_eq!(g.productions.len(), 3);
    assert!(g.productions.iter().all(|p| p.variable == S));
    assert_eq!(g.productions[0].body, vec![RulePart::Lit(0), RulePart::Var(S), RulePart::Lit(0)]);
    assert_eq!(g.productions[1].body, vec![RulePart::Lit(1), RulePart::Var(S), RulePart::Lit(1)]);
    assert_eq!(g.productions[2].body, vec![RulePart::Epsilon]);
    assert!(g.is_nullable(S));
    assert!(!g.is_nullable(0));
}

#[test]
fn simple_transition_pushes_on_both_states() {
    assert_eq!(simple::transition(0, vec![], 1), vec![(0, vec![1]), (1, vec![1])]);
    assert_eq!(simple::transition(1, vec![0, 1], 1), vec![(1, vec![0])]);
    assert_eq!(simple::transition(1, vec![0, 1], 0), vec![]);
}

#[test]
fn epsilon_successors_have_no_epsilon_successors() {
    for (state, stack) in bottom_up::epsilon_transition(2, vec![2]) {
        assert!(bottom_up::epsilon_transition(state, stack).is_empty());
    }
    for (state, stack) in grammar_driven::epsilon_transition(0, vec![2]) {
        assert!(grammar_driven::epsilon_transition(state, stack).is_empty());
    }
}

#[test]
fn epsilon_rounds_are_bounded_by_depth() {
    let deep: Vec<u8> = vec![2; 40];
    let configs = vec![Configuration::new(2, deep.clone()), Configuration::new(1, vec![2, 0, 1])];
    let (accepted, rounds) = close(&bottom_up::BottomUp, configs);
    assert!(accepted);
    assert_eq!(rounds, 1);
    assert!(rounds <= deep.len());

    let stuck = vec![Configuration::new(1, vec![2; 25]), Configuration::new(2, vec![0; 30])];
    assert_eq!(close(&bottom_up::BottomUp, stuck), (false, 0));

    let none: Vec<Configuration> = Vec::new();
    assert_eq!(close(&bottom_up::BottomUp, none), (false, 0));
}

#[test]
fn siblings_do_not_share_a_stack() {
    let c = Configuration::new(1, vec![2, 0]);
    let succ = bottom_up::BottomUp.step(&c, 0);
    assert_eq!(succ.len(), 2);
    let before = succ[1].duplicate();
    let (popped, top) = succ[0].pop(2).unwrap();
    assert_eq!(top, 0);
    assert_eq!(popped.stack, vec![2, 0]);
    let pushed = popped.push(1, 1);
    assert_eq!(pushed.stack, vec![2, 0, 1]);
    assert!(succ[1].same_as(&before));
    assert_eq!(succ[1].stack, vec![2]);
    assert_eq!(succ[0].stack, vec![2, 0, 0]);
    assert_eq!(c.stack, vec![2, 0]);
}

#[test]
fn starvation_on_the_first_symbol_stops_reading() {
    let p = GrammarDriven::palindromes();
    let out = simulate(&p, p.initial(), &[5, 0, 0, 1, 1, 0, 0]);
    assert!(!out.accepted);
    assert_eq!(out.consumed, 1);
    assert_eq!(out.epsilon_rounds, 0);

    let out = simulate(&p, p.initial(), &[0, 1, 1, 0]);
    assert!(out.accepted);
    assert_eq!(out.consumed, 4);
    assert_eq!(out.epsilon_rounds, 1);
}

#[test]
fn configuration_stack_operations() {
    let c = Configuration::new(0, vec![]);
    assert_eq!(c.peek(), None);
    assert!(c.pop(0).is_none());
    let d = c.push(1, 7);
    assert_eq!(d.peek(), Some(7));
    assert_eq!(d.depth(), 1);
    assert_eq!(c.depth(), 0);
    assert!(!c.same_as(&d));
    assert!(d.same_as(&Configuration::new(1, vec![7])));
}

#[test]
fn pairs_round_trip_through_configurations() {
    let pairs = vec![(0u8, vec![2u8, 3]), (1, vec![])];
    let configs = pushy_automata::config::from_pairs(&pairs);
    assert_eq!(configs.len(), 2);
    assert_eq!(configs[0].state, 0);
    assert_eq!(configs[0].stack, vec![2, 3]);
    assert_eq!(pushy_automata::config::into_pairs(&configs), pairs);
}

#[test]
fn bottom_up_outcome_counts_rounds() {
    let out = simulate(&bottom_up::BottomUp, bottom_up::initial(), &[0, 1, 1, 0]);
    assert!(out.accepted);
    assert_eq!(out.consumed, 4);
    assert_eq!(out.epsilon_rounds, 1);

    let out = simulate(&bottom_up::BottomUp, bottom_up::initial(), &[]);
    assert!(out.accepted);
    assert_eq!(out.epsilon_rounds, 0);

    let out = simulate(&bottom_up::BottomUp, bottom_up::initial(), &[0, 1]);
    assert!(!out.accepted);
    assert_eq!(out.consumed, 2);
    assert_eq!(out.epsilon_rounds, 0);
}

#[test]
fn grammar_rejects_symbols_outside_the_grammar() {
    let p = GrammarDriven::palindromes();
    assert!(!p.recognize(&[2, 2]));
    assert!(!p.recognize(&[0, 7, 0]));
}
