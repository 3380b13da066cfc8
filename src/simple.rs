//! The smallest palindrome automaton: state 0 pushes every symbol and may at
//! any point switch to state 1, which pops matching symbols. There is no
//! sentinel and no epsilon rule; a branch accepts in state 1 with an empty
//! stack.
use vstd::prelude::*;
use crate::config::{
    into_pairs, pair_models, popped, pushed, top_of, views, ConfigModel, Configuration, State,
    Symbol,
};
use crate::pda::{accepts, accepts_spec, Pda};

verus! {

/// The automaton.
pub struct Simple;

/// The consuming relation.
pub open spec fn step_model(c: ConfigModel, a: Symbol) -> Seq<ConfigModel> {
    if c.state == 0 {
        seq![
            ConfigModel { state: 0, stack: pushed(c.stack, a) },
            ConfigModel { state: 1, stack: pushed(c.stack, a) },
        ]
    } else if c.state == 1 && top_of(c.stack) == Some(a) {
        seq![ConfigModel { state: 1, stack: popped(c.stack) }]
    } else {
        seq![]
    }
}

/// Accepting: state 1 with nothing left on the stack.
pub open spec fn final_model(c: ConfigModel) -> bool {
    c.state == 1 && c.stack.len() == 0
}

/// The initial configuration set: both states over an empty stack.
pub open spec fn initial_model() -> Seq<ConfigModel> {
    seq![ConfigModel { state: 0, stack: seq![] }, ConfigModel { state: 1, stack: seq![] }]
}

impl Pda for Simple {
    open spec fn step_spec(&self, c: ConfigModel, a: Symbol) -> Seq<ConfigModel> {
        step_model(c, a)
    }

    open spec fn epsilon_spec(&self, c: ConfigModel) -> Seq<ConfigModel> {
        seq![]
    }

    open spec fn final_spec(&self, c: ConfigModel) -> bool {
        final_model(c)
    }

    proof fn lemma_epsilon_pops(&self, c: ConfigModel) {
    }

    fn step(&self, c: &Configuration, a: Symbol) -> (r: Vec<Configuration>) {
        let mut r: Vec<Configuration> = Vec::new();
        if c.state == 0 {
            r.push(c.push(0, a));
            r.push(c.push(1, a));
        } else if c.state == 1 && c.peek() == Some(a) {
            match c.pop(1) {
                Some((d, _)) => r.push(d),
                None => {},
            }
        }
        assert(views(r@) =~= step_model(c@, a));
        r
    }

    fn epsilon(&self, c: &Configuration) -> (r: Vec<Configuration>) {
        let r: Vec<Configuration> = Vec::new();
        assert(views(r@) =~= seq![]);
        r
    }

    fn is_final(&self, c: &Configuration) -> (r: bool) {
        c.state == 1 && c.stack.len() == 0
    }
}

/// The consuming transition from `(state, stack)` on `input`, as
/// `(state, stack)` pairs.
pub fn transition(state: State, stack: Vec<Symbol>, input: Symbol) -> (r: Vec<(State, Vec<Symbol>)>)
    ensures
        pair_models(r@) == step_model(ConfigModel { state, stack: stack@ }, input),
{
    let c = Configuration::new(state, stack);
    into_pairs(&Simple.step(&c, input))
}

/// The initial configuration set.
pub fn initial() -> (r: Vec<Configuration>)
    ensures
        views(r@) == initial_model(),
{
    let mut r: Vec<Configuration> = Vec::new();
    r.push(Configuration::new(0, Vec::new()));
    r.push(Configuration::new(1, Vec::new()));
    assert(views(r@)[0].stack =~= Seq::<Symbol>::empty());
    assert(views(r@)[1].stack =~= Seq::<Symbol>::empty());
    assert(views(r@) =~= initial_model());
    r
}

/// Whether the automaton accepts `input`.
pub fn recognize(input: &[Symbol]) -> (r: bool)
    ensures
        r == accepts_spec(Simple, initial_model(), input@),
{
    accepts(&Simple, initial(), input)
}

} // verus!
