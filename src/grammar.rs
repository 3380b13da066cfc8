//! Context-free grammars as read-only data: each production names a variable
//! (by its stack marker) and one alternative body for it.
use vstd::prelude::*;
use crate::config::Symbol;

verus! {

/// A grammar variable, identified with the stack symbol that marks it.
pub type Variable = Symbol;

/// The start variable of the palindrome grammar.
pub const S: Variable = 3;

/// One part of a rule body.
#[derive(Clone, Copy, Debug, PartialEq, Eq, Structural)]
pub enum RulePart {
    /// A terminal symbol.
    Lit(Symbol),
    /// A reference to a variable.
    Var(Variable),
    /// The empty word.
    Epsilon,
}

/// One alternative `variable -> body`.
#[derive(Debug)]
pub struct Production {
    pub variable: Variable,
    pub body: Vec<RulePart>,
}

/// A grammar: its productions, grouped by variable in the order given.
/// The alternatives of a variable are its productions, in order.
#[derive(Debug)]
pub struct Grammar {
    pub productions: Vec<Production>,
}

/// The model of a grammar: `(variable, body)` pairs in order.
pub type GrammarModel = Seq<(Variable, Seq<RulePart>)>;

impl View for Grammar {
    type V = GrammarModel;

    open spec fn view(&self) -> GrammarModel {
        self.productions@.map_values(|p: Production| (p.variable, p.body@))
    }
}

/// The stack symbols a single part stands for.
pub open spec fn part_symbol(p: RulePart) -> Seq<Symbol> {
    match p {
        RulePart::Lit(x) => seq![x],
        RulePart::Var(v) => seq![v],
        RulePart::Epsilon => Seq::empty(),
    }
}

/// The stack symbols of `body` in reverse order (epsilon parts contribute
/// nothing): pushed in this order, the first part of the body ends on top.
pub open spec fn rev_symbols(body: Seq<RulePart>) -> Seq<Symbol>
    decreases body.len(),
{
    if body.len() == 0 {
        Seq::empty()
    } else {
        rev_symbols(body.drop_first()) + part_symbol(body[0])
    }
}

/// Whether `v` has an alternative that derives the empty word in one step.
pub open spec fn nullable(g: GrammarModel, v: Variable) -> bool {
    exists|i: int| 0 <= i < g.len() && (#[trigger] g[i]).0 == v && rev_symbols(g[i].1).len() == 0
}

/// The palindrome grammar `S -> 0 S 0 | 1 S 1 | epsilon`.
pub open spec fn palindrome_model() -> GrammarModel {
    seq![
        (S, seq![RulePart::Lit(0), RulePart::Var(S), RulePart::Lit(0)]),
        (S, seq![RulePart::Lit(1), RulePart::Var(S), RulePart::Lit(1)]),
        (S, seq![RulePart::Epsilon]),
    ]
}

/// Pushes the parts of `body[from..]` onto `stack`, last part first.
pub fn push_body(stack: &mut Vec<Symbol>, body: &Vec<RulePart>, from: usize)
    requires
        from <= body@.len(),
    ensures
        final(stack)@ == old(stack)@ + rev_symbols(body@.subrange(from as int, body@.len() as int)),
{
    let ghost base = stack@;
    let mut k: usize = body.len();
    assert(body@.subrange(k as int, body@.len() as int) =~= Seq::empty());
    while k > from
        invariant
            from <= k <= body@.len(),
            stack@ == base + rev_symbols(body@.subrange(k as int, body@.len() as int)),
        decreases k,
    {
        let ghost prev = stack@;
        k = k - 1;
        assert(body@.subrange(k as int, body@.len() as int).drop_first() =~= body@.subrange(
            k + 1,
            body@.len() as int,
        ));
        match body[k] {
            RulePart::Lit(x) => stack.push(x),
            RulePart::Var(v) => stack.push(v),
            RulePart::Epsilon => {},
        }
        assert(stack@ =~= prev + part_symbol(body@[k as int]));
    }
}

/// Whether `body` stands for no stack symbol at all (an epsilon alternative).
pub fn derives_empty(body: &Vec<RulePart>) -> (r: bool)
    ensures
        r == (rev_symbols(body@).len() == 0),
{
    let mut i: usize = 0;
    assert(body@.subrange(0, body@.len() as int) =~= body@);
    while i < body.len()
        invariant
            i <= body@.len(),
            rev_symbols(body@) == rev_symbols(body@.subrange(i as int, body@.len() as int)),
        decreases body.len() - i,
    {
        assert(body@.subrange(i as int, body@.len() as int).drop_first() =~= body@.subrange(
            i + 1,
            body@.len() as int,
        ));
        match body[i] {
            RulePart::Epsilon => {},
            _ => {
                return false;
            },
        }
        i = i + 1;
    }
    true
}

impl Grammar {
    /// Whether the variable `v` has an epsilon alternative.
    pub fn is_nullable(&self, v: Variable) -> (r: bool)
        ensures
            r == nullable(self@, v),
    {
        let mut i: usize = 0;
        while i < self.productions.len()
            invariant
                i <= self.productions@.len(),
                forall|j: int|
                    0 <= j < i ==> !((#[trigger] self@[j]).0 == v && rev_symbols(self@[j].1).len() == 0),
            decreases self.productions.len() - i,
        {
            let p = &self.productions[i];
            if p.variable == v && derives_empty(&p.body) {
                assert(self@[i as int].0 == v && rev_symbols(self@[i as int].1).len() == 0);
                return true;
            }
            i = i + 1;
        }
        false
    }
}

/// The palindrome grammar `S -> 0 S 0 | 1 S 1 | epsilon`.
pub fn binary_palindrome() -> (g: Grammar)
    ensures
        g@ == palindrome_model(),
{
    let mut productions: Vec<Production> = Vec::new();
    productions.push(Production { variable: S, body: vec![RulePart::Lit(0), RulePart::Var(S), RulePart::Lit(0)] });
    productions.push(Production { variable: S, body: vec![RulePart::Lit(1), RulePart::Var(S), RulePart::Lit(1)] });
    productions.push(Production { variable: S, body: vec![RulePart::Epsilon] });
    let g = Grammar { productions };
    assert(g@[0].1 =~= palindrome_model()[0].1);
    assert(g@[1].1 =~= palindrome_model()[1].1);
    assert(g@[2].1 =~= palindrome_model()[2].1);
    assert(g@ =~= palindrome_model());
    g
}

} // verus!
