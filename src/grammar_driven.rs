//! A pushdown automaton that recognises the language of a grammar top-down:
//! a variable marker on top of the stack is rewritten by one of its
//! alternatives, and a terminal on top is matched against the input.
//!
//! States: 0 works through the input, 1 is reached by popping the
//! end-of-stack sentinel and is the only accepting state.
use vstd::prelude::*;
use crate::config::{
    copy_stack, into_pairs, pair_models, popped, top_of, views, ConfigModel, Configuration, State,
    Symbol, EOS,
};
use crate::grammar::{
    binary_palindrome, nullable, palindrome_model, push_body, rev_symbols, Grammar, GrammarModel,
    Production, RulePart, Variable, S,
};
use crate::pda::{accepts, accepts_spec, Pda};

verus! {

/// The automaton for the language of `grammar`, started at `start`.
pub struct GrammarDriven {
    pub grammar: Grammar,
    pub start: Variable,
}

/// The successors that the production `p` of the grammar `g` offers when the
/// variable `v` was popped off, leaving `base`, and the input is `a`: its body,
/// if it starts with `a`, is pushed without that first symbol; if the new top
/// is a variable with an epsilon alternative, erasing it is offered as well.
pub open spec fn expand_one(
    g: GrammarModel,
    p: (Variable, Seq<RulePart>),
    base: Seq<Symbol>,
    a: Symbol,
    v: Variable,
) -> Seq<ConfigModel> {
    if p.0 == v && p.1.len() > 0 && p.1[0] == RulePart::Lit(a) {
        let s1 = base + rev_symbols(p.1.drop_first());
        if s1.len() > 0 && nullable(g, s1.last()) {
            seq![ConfigModel { state: 0, stack: s1 }, ConfigModel { state: 0, stack: s1.drop_last() }]
        } else {
            seq![ConfigModel { state: 0, stack: s1 }]
        }
    } else {
        seq![]
    }
}

/// The successors offered by the productions `ps` of `g`, in order.
pub open spec fn expansions(
    g: GrammarModel,
    ps: Seq<(Variable, Seq<RulePart>)>,
    base: Seq<Symbol>,
    a: Symbol,
    v: Variable,
) -> Seq<ConfigModel>
    decreases ps.len(),
{
    if ps.len() == 0 {
        seq![]
    } else {
        expansions(g, ps.drop_last(), base, a, v) + expand_one(g, ps.last(), base, a, v)
    }
}

/// The consuming relation: a matching terminal on top is popped; otherwise the
/// top is expanded by the alternatives of the variable it marks.
pub open spec fn step_model(g: GrammarModel, c: ConfigModel, a: Symbol) -> Seq<ConfigModel> {
    if c.state == 0 {
        match top_of(c.stack) {
            None => seq![],
            Some(t) => if t == a {
                seq![ConfigModel { state: 0, stack: popped(c.stack) }]
            } else {
                expansions(g, g, popped(c.stack), a, t)
            },
        }
    } else {
        seq![]
    }
}

/// The epsilon relation: from state 0, popping the sentinel leads to state 1.
pub open spec fn epsilon_model(c: ConfigModel) -> Seq<ConfigModel> {
    if c.state == 0 && top_of(c.stack) == Some(EOS) {
        seq![ConfigModel { state: 1, stack: popped(c.stack) }]
    } else {
        seq![]
    }
}

/// Epsilon closure reaches its fixed point after one round: no epsilon
/// successor has an epsilon successor of its own.
pub proof fn lemma_epsilon_idempotent(c: ConfigModel)
    ensures
        forall|i: int|
            0 <= i < epsilon_model(c).len() ==> (#[trigger] epsilon_model(epsilon_model(c)[i])).len() == 0,
{
}

/// The accepting state.
pub open spec fn final_model(c: ConfigModel) -> bool {
    c.state == 1
}

/// The initial configuration set: the start variable over the sentinel, and
/// the accepting state, which accepts the empty input.
pub open spec fn initial_model(start: Variable) -> Seq<ConfigModel> {
    seq![
        ConfigModel { state: 0, stack: seq![EOS, start] },
        ConfigModel { state: 1, stack: seq![] },
    ]
}

impl Pda for GrammarDriven {
    open spec fn step_spec(&self, c: ConfigModel, a: Symbol) -> Seq<ConfigModel> {
        step_model(self.grammar@, c, a)
    }

    open spec fn epsilon_spec(&self, c: ConfigModel) -> Seq<ConfigModel> {
        epsilon_model(c)
    }

    open spec fn final_spec(&self, c: ConfigModel) -> bool {
        final_model(c)
    }

    proof fn lemma_epsilon_pops(&self, c: ConfigModel) {
    }

    fn step(&self, c: &Configuration, a: Symbol) -> (r: Vec<Configuration>) {
        if c.state != 0 {
            return Vec::new();
        }
        match c.pop(0) {
            None => Vec::new(),
            Some((rest, t)) => {
                if t == a {
                    let mut r: Vec<Configuration> = Vec::new();
                    r.push(rest);
                    assert(views(r@) =~= step_model(self.grammar@, c@, a));
                    r
                } else {
                    self.expand(&rest.stack, a, t)
                }
            },
        }
    }

    fn epsilon(&self, c: &Configuration) -> (r: Vec<Configuration>) {
        let mut r: Vec<Configuration> = Vec::new();
        if c.state == 0 && c.peek() == Some(EOS) {
            match c.pop(1) {
                Some((d, _)) => r.push(d),
                None => {},
            }
        }
        assert(views(r@) =~= epsilon_model(c@));
        r
    }

    fn is_final(&self, c: &Configuration) -> (r: bool) {
        c.state == 1
    }
}

impl GrammarDriven {
    /// The recogniser for the palindrome grammar, started at `S`.
    pub fn palindromes() -> (r: GrammarDriven)
        ensures
            r.grammar@ == palindrome_model(),
            r.start == S,
    {
        GrammarDriven { grammar: binary_palindrome(), start: S }
    }

    /// Whether this automaton, started from its initial configurations,
    /// accepts `input`.
    pub fn recognize(&self, input: &[Symbol]) -> (r: bool)
        ensures
            r == accepts_spec(*self, initial_model(self.start), input@),
    {
        accepts(self, self.initial(), input)
    }

    /// The initial configuration set.
    pub fn initial(&self) -> (r: Vec<Configuration>)
        ensures
            views(r@) == initial_model(self.start),
    {
        let mut stack: Vec<Symbol> = Vec::new();
        stack.push(EOS);
        stack.push(self.start);
        assert(stack@ =~= seq![EOS, self.start]);
        let mut r: Vec<Configuration> = Vec::new();
        r.push(Configuration::new(0, stack));
        r.push(Configuration::new(1, Vec::new()));
        assert(views(r@)[1].stack =~= Seq::<Symbol>::empty());
        assert(views(r@) =~= initial_model(self.start));
        r
    }

    /// The successors offered by one production (see [`expand_one`]).
    fn expand_with(&self, p: &Production, base: &Vec<Symbol>, a: Symbol, v: Variable) -> (r: Vec<
        Configuration,
    >)
        ensures
            views(r@) == expand_one(self.grammar@, (p.variable, p.body@), base@, a, v),
    {
        let mut r: Vec<Configuration> = Vec::new();
        if p.variable == v && p.body.len() > 0 && p.body[0] == RulePart::Lit(a) {
            let mut stack: Vec<Symbol> = copy_stack(base);
            push_body(&mut stack, &p.body, 1);
            assert(p.body@.subrange(1, p.body@.len() as int) =~= p.body@.drop_first());
            let c1 = Configuration::new(0, stack);
            match c1.peek() {
                Some(t) => {
                    if self.grammar.is_nullable(t) {
                        match c1.pop(0) {
                            Some((c2, _)) => {
                                r.push(c1);
                                r.push(c2);
                            },
                            None => {},
                        }
                    } else {
                        r.push(c1);
                    }
                },
                None => r.push(c1),
            }
        }
        assert(views(r@) =~= expand_one(self.grammar@, (p.variable, p.body@), base@, a, v));
        r
    }

    /// The successors obtained by expanding the variable `v`, popped off to
    /// leave `base`, on input `a`.
    fn expand(&self, base: &Vec<Symbol>, a: Symbol, v: Variable) -> (r: Vec<Configuration>)
        ensures
            views(r@) == expansions(self.grammar@, self.grammar@, base@, a, v),
    {
        let ghost g = self.grammar@;
        let mut r: Vec<Configuration> = Vec::new();
        let mut i: usize = 0;
        while i < self.grammar.productions.len()
            invariant
                i <= g.len(),
                g == self.grammar@,
                views(r@) == expansions(g, g.take(i as int), base@, a, v),
            decreases self.grammar.productions.len() - i,
        {
            let mut next = self.expand_with(&self.grammar.productions[i], base, a, v);
            proof {
                assert(g.take(i + 1).drop_last() =~= g.take(i as int));
                assert(g.take(i + 1).last() == g[i as int]);
            }
            let ghost before = r@;
            let ghost added = next@;
            r.append(&mut next);
            assert(views(r@) =~= views(before) + views(added));
            i = i + 1;
        }
        assert(g.take(g.len() as int) =~= g);
        r
    }
}

/// The consuming transition of the palindrome recogniser from
/// `(state, stack)` on `input`, as `(state, stack)` pairs.
pub fn transition(state: State, input: Symbol, stack: Vec<Symbol>) -> (r: Vec<(State, Vec<Symbol>)>)
    ensures
        pair_models(r@) == step_model(palindrome_model(), ConfigModel { state, stack: stack@ }, input),
{
    let p = GrammarDriven::palindromes();
    let c = Configuration::new(state, stack);
    into_pairs(&p.step(&c, input))
}

/// The epsilon transition from `(state, stack)`, as `(state, stack)` pairs.
pub fn epsilon_transition(state: State, stack: Vec<Symbol>) -> (r: Vec<(State, Vec<Symbol>)>)
    ensures
        pair_models(r@) == epsilon_model(ConfigModel { state, stack: stack@ }),
{
    let p = GrammarDriven::palindromes();
    let c = Configuration::new(state, stack);
    into_pairs(&p.epsilon(&c))
}

} // verus!
