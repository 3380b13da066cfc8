//! Configurations of a pushdown automaton: a control state and a stack.
use vstd::prelude::*;

verus! {

/// Control states of every automaton in this library.
pub type State = u8;

/// Stack symbols (and input symbols) of every automaton in this library.
pub type Symbol = u8;

/// The end-of-stack sentinel, pushed below everything else.
pub const EOS: Symbol = 2;

/// Mathematical model of a configuration. The top of the stack is the last
/// element of `stack`.
pub ghost struct ConfigModel {
    pub state: State,
    pub stack: Seq<Symbol>,
}

/// One live execution branch: a control state together with its own stack.
///
/// Operations never modify a configuration in place; each returns a fresh
/// value, so sibling branches never share a stack.
#[derive(Debug)]
pub struct Configuration {
    pub state: State,
    pub stack: Vec<Symbol>,
}

impl View for Configuration {
    type V = ConfigModel;

    open spec fn view(&self) -> ConfigModel {
        ConfigModel { state: self.state, stack: self.stack@ }
    }
}

/// The model of the stack `s` with `x` pushed on top.
pub open spec fn pushed(s: Seq<Symbol>, x: Symbol) -> Seq<Symbol> {
    s.push(x)
}

/// The model of the stack `s` with its top removed (requires a nonempty stack).
pub open spec fn popped(s: Seq<Symbol>) -> Seq<Symbol> {
    s.drop_last()
}

/// The top of the stack `s`, if any.
pub open spec fn top_of(s: Seq<Symbol>) -> Option<Symbol> {
    if s.len() == 0 {
        None
    } else {
        Some(s.last())
    }
}

/// Copies a stack symbol by symbol.
pub fn copy_stack(s: &Vec<Symbol>) -> (r: Vec<Symbol>)
    ensures
        r@ == s@,
{
    let mut r: Vec<Symbol> = Vec::new();
    let mut i: usize = 0;
    while i < s.len()
        invariant
            i <= s.len(),
            r@ == s@.subrange(0, i as int),
        decreases s.len() - i,
    {
        r.push(s[i]);
        i = i + 1;
        assert(r@ =~= s@.subrange(0, i as int));
    }
    assert(s@.subrange(0, s@.len() as int) =~= s@);
    r
}

impl Configuration {
    /// Builds a configuration from a state and a stack (top last).
    pub fn new(state: State, stack: Vec<Symbol>) -> (r: Configuration)
        ensures
            r@ == (ConfigModel { state, stack: stack@ }),
    {
        Configuration { state, stack }
    }

    /// An independent copy of this configuration.
    pub fn duplicate(&self) -> (r: Configuration)
        ensures
            r@ == self@,
    {
        Configuration { state: self.state, stack: copy_stack(&self.stack) }
    }

    /// The number of symbols on the stack.
    pub fn depth(&self) -> (r: usize)
        ensures
            r == self@.stack.len(),
    {
        self.stack.len()
    }

    /// The top of the stack, without removing it.
    pub fn peek(&self) -> (r: Option<Symbol>)
        ensures
            r == top_of(self@.stack),
    {
        if self.stack.len() == 0 {
            None
        } else {
            Some(self.stack[self.stack.len() - 1])
        }
    }

    /// A new configuration in state `state` whose stack is this one's with `x`
    /// pushed on top. `self` is left as it was.
    pub fn push(&self, state: State, x: Symbol) -> (r: Configuration)
        ensures
            r@ == (ConfigModel { state, stack: pushed(self@.stack, x) }),
    {
        let mut stack = copy_stack(&self.stack);
        stack.push(x);
        Configuration { state, stack }
    }

    /// A new configuration in state `state` whose stack is this one's without
    /// its top, together with the symbol removed; `None` on stack underflow.
    /// `self` is left as it was.
    pub fn pop(&self, state: State) -> (r: Option<(Configuration, Symbol)>)
        ensures
            self@.stack.len() == 0 <==> r is None,
            r matches Some((c, x)) ==> c@ == (ConfigModel {
                state,
                stack: popped(self@.stack),
            }) && x == self@.stack.last(),
    {
        if self.stack.len() == 0 {
            None
        } else {
            let mut stack = copy_stack(&self.stack);
            let x = stack.pop().unwrap();
            Some((Configuration { state, stack }, x))
        }
    }

    /// Whether two configurations have the same state and the same stack.
    pub fn same_as(&self, other: &Configuration) -> (r: bool)
        ensures
            r == (self@ == other@),
    {
        if self.state != other.state || self.stack.len() != other.stack.len() {
            proof {
                if self@ == other@ {
                    assert(self@.stack.len() == other@.stack.len());
                }
            }
            return false;
        }
        let mut i: usize = 0;
        while i < self.stack.len()
            invariant
                i <= self.stack.len(),
                self.stack.len() == other.stack.len(),
                forall|j: int| 0 <= j < i ==> self.stack@[j] == other.stack@[j],
            decreases self.stack.len() - i,
        {
            if self.stack[i] != other.stack[i] {
                return false;
            }
            i = i + 1;
        }
        assert(self@.stack =~= other@.stack);
        true
    }
}

/// The model of a configuration written as a `(state, stack)` pair.
pub open spec fn pair_model(c: (State, Vec<Symbol>)) -> ConfigModel {
    ConfigModel { state: c.0, stack: c.1@ }
}

/// The models of a sequence of `(state, stack)` pairs.
pub open spec fn pair_models(s: Seq<(State, Vec<Symbol>)>) -> Seq<ConfigModel> {
    s.map_values(|c: (State, Vec<Symbol>)| pair_model(c))
}

/// The models of a sequence of configurations.
pub open spec fn views(s: Seq<Configuration>) -> Seq<ConfigModel> {
    s.map_values(|c: Configuration| c@)
}

/// Writes configurations as `(state, stack)` pairs.
pub fn into_pairs(v: &Vec<Configuration>) -> (r: Vec<(State, Vec<Symbol>)>)
    ensures
        pair_models(r@) == views(v@),
{
    let mut r: Vec<(State, Vec<Symbol>)> = Vec::new();
    let mut i: usize = 0;
    while i < v.len()
        invariant
            i <= v.len(),
            r@.len() == i,
            forall|j: int| 0 <= j < i ==> pair_model(#[trigger] r@[j]) == v@[j]@,
        decreases v.len() - i,
    {
        r.push((v[i].state, copy_stack(&v[i].stack)));
        i = i + 1;
    }
    assert(pair_models(r@) =~= views(v@));
    r
}

/// Builds configurations from `(state, stack)` pairs.
pub fn from_pairs(v: &Vec<(State, Vec<Symbol>)>) -> (r: Vec<Configuration>)
    ensures
        views(r@) == pair_models(v@),
{
    let mut r: Vec<Configuration> = Vec::new();
    let mut i: usize = 0;
    while i < v.len()
        invariant
            i <= v.len(),
            r@.len() == i,
            forall|j: int| 0 <= j < i ==> (#[trigger] r@[j])@ == pair_model(v@[j]),
        decreases v.len() - i,
    {
        r.push(Configuration { state: v[i].0, stack: copy_stack(&v[i].1) });
        i = i + 1;
    }
    assert(views(r@) =~= pair_models(v@));
    r
}

} // verus!
