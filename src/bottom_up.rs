//! A pushdown automaton for even-length binary palindromes that pushes the
//! first half of its input and pops the second half against it.
//!
//! States: 0 reads the first symbol, 1 pushes (and guesses the middle), 2 pops
//! matching symbols, 3 is reached by popping the end-of-stack sentinel.
//! Accepting states are 0 and 3.
use vstd::prelude::*;
use crate::config::{
    into_pairs, pair_models, popped, pushed, top_of, views, ConfigModel, Configuration, State,
    Symbol, EOS,
};
use crate::pda::{accepts, accepts_spec, Pda};

verus! {

/// The automaton.
pub struct BottomUp;

/// The consuming relation.
pub open spec fn step_model(c: ConfigModel, a: Symbol) -> Seq<ConfigModel> {
    let push = ConfigModel { state: 1, stack: pushed(c.stack, a) };
    if c.state == 0 {
        seq![push]
    } else if c.state == 1 {
        match top_of(c.stack) {
            None => seq![],
            Some(t) => if t == a {
                seq![push, ConfigModel { state: 2, stack: popped(c.stack) }]
            } else {
                seq![push]
            },
        }
    } else if c.state == 2 && top_of(c.stack) == Some(a) {
        seq![ConfigModel { state: 2, stack: popped(c.stack) }]
    } else {
        seq![]
    }
}

/// The epsilon relation: from state 2, popping the sentinel leads to state 3.
pub open spec fn epsilon_model(c: ConfigModel) -> Seq<ConfigModel> {
    if c.state == 2 && top_of(c.stack) == Some(EOS) {
        seq![ConfigModel { state: 3, stack: popped(c.stack) }]
    } else {
        seq![]
    }
}

/// Epsilon closure reaches its fixed point after one round: no epsilon
/// successor has an epsilon successor of its own.
pub proof fn lemma_epsilon_idempotent(c: ConfigModel)
    ensures
        forall|i: int|
            0 <= i < epsilon_model(c).len() ==> (#[trigger] epsilon_model(epsilon_model(c)[i])).len() == 0,
{
}

/// The accepting states.
pub open spec fn final_model(c: ConfigModel) -> bool {
    c.state == 0 || c.state == 3
}

/// The initial configuration set: state 0 over the sentinel alone.
pub open spec fn initial_model() -> Seq<ConfigModel> {
    seq![ConfigModel { state: 0, stack: seq![EOS] }]
}

impl Pda for BottomUp {
    open spec fn step_spec(&self, c: ConfigModel, a: Symbol) -> Seq<ConfigModel> {
        step_model(c, a)
    }

    open spec fn epsilon_spec(&self, c: ConfigModel) -> Seq<ConfigModel> {
        epsilon_model(c)
    }

    open spec fn final_spec(&self, c: ConfigModel) -> bool {
        final_model(c)
    }

    proof fn lemma_epsilon_pops(&self, c: ConfigModel) {
    }

    fn step(&self, c: &Configuration, a: Symbol) -> (r: Vec<Configuration>) {
        let mut r: Vec<Configuration> = Vec::new();
        if c.state == 0 {
            r.push(c.push(1, a));
        } else if c.state == 1 {
            match c.peek() {
                None => {},
                Some(t) => {
                    r.push(c.push(1, a));
                    if t == a {
                        match c.pop(2) {
                            Some((d, _)) => r.push(d),
                            None => {},
                        }
                    }
                },
            }
        } else if c.state == 2 && c.peek() == Some(a) {
            match c.pop(2) {
                Some((d, _)) => r.push(d),
                None => {},
            }
        }
        assert(views(r@) =~= step_model(c@, a));
        r
    }

    fn epsilon(&self, c: &Configuration) -> (r: Vec<Configuration>) {
        let mut r: Vec<Configuration> = Vec::new();
        if c.state == 2 && c.peek() == Some(EOS) {
            match c.pop(3) {
                Some((d, _)) => r.push(d),
                None => {},
            }
        }
        assert(views(r@) =~= epsilon_model(c@));
        r
    }

    fn is_final(&self, c: &Configuration) -> (r: bool) {
        c.state == 0 || c.state == 3
    }
}

/// The consuming transition from `(state, stack)` on `input`, as
/// `(state, stack)` pairs.
pub fn transition(state: State, input: Symbol, stack: Vec<Symbol>) -> (r: Vec<(State, Vec<Symbol>)>)
    ensures
        pair_models(r@) == step_model(ConfigModel { state, stack: stack@ }, input),
{
    let c = Configuration::new(state, stack);
    into_pairs(&BottomUp.step(&c, input))
}

/// The epsilon transition from `(state, stack)`, as `(state, stack)` pairs.
pub fn epsilon_transition(state: State, stack: Vec<Symbol>) -> (r: Vec<(State, Vec<Symbol>)>)
    ensures
        pair_models(r@) == epsilon_model(ConfigModel { state, stack: stack@ }),
{
    let c = Configuration::new(state, stack);
    into_pairs(&BottomUp.epsilon(&c))
}

/// The initial configuration set.
pub fn initial() -> (r: Vec<Configuration>)
    ensures
        views(r@) == initial_model(),
{
    let mut stack: Vec<Symbol> = Vec::new();
    stack.push(EOS);
    assert(stack@ =~= seq![EOS]);
    let mut r: Vec<Configuration> = Vec::new();
    r.push(Configuration::new(0, stack));
    assert(views(r@) =~= initial_model());
    r
}

/// Whether the automaton accepts `input`.
pub fn recognize(input: &[Symbol]) -> (r: bool)
    ensures
        r == accepts_spec(BottomUp, initial_model(), input@),
{
    accepts(&BottomUp, initial(), input)
}

} // verus!
