//! What the palindrome automata recognise: on binary words, exactly the
//! palindromes of even length.
use vstd::prelude::*;
use crate::bottom_up::{self, BottomUp};
use crate::config::{popped, ConfigModel, Symbol, EOS};
use crate::grammar::{nullable, palindrome_model, rev_symbols, RulePart, S};
use crate::grammar_driven::{self, expand_one, expansions, GrammarDriven};
use crate::simple::{self, Simple};
use crate::pda::{
    accepts_spec, closure_accepts, epsilon_all, epsilon_iter, has_final, lemma_epsilon_all_contains,
    lemma_epsilon_fixed_point, lemma_run_push, lemma_step_all_contains, run, step_all, Pda,
};

verus! {

/// Every symbol of `w` is a bit.
pub open spec fn is_binary(w: Seq<Symbol>) -> bool {
    forall|i: int| 0 <= i < w.len() ==> #[trigger] w[i] == 0 || w[i] == 1
}

/// `w` reads the same backwards.
pub open spec fn is_palindrome(w: Seq<Symbol>) -> bool {
    forall|i: int| 0 <= i < w.len() ==> #[trigger] w[i] == w[w.len() - 1 - i]
}

/// `w` is a palindrome of even length.
pub open spec fn is_even_palindrome(w: Seq<Symbol>) -> bool {
    is_palindrome(w) && w.len() % 2 == 0
}

/// The sentinel followed by the first `m` symbols of `w`: the stack that the
/// bottom-up automaton has built when it guesses the middle after `m` symbols.
pub open spec fn marked(w: Seq<Symbol>, m: int) -> Seq<Symbol> {
    seq![EOS] + w.take(m)
}

/// A popping configuration of the bottom-up automaton after reading `w`,
/// whose guess of the middle was after `m` symbols: every symbol read since
/// was matched against the pushed prefix.
pub open spec fn popping(w: Seq<Symbol>, stack: Seq<Symbol>, m: int) -> bool {
    let t = w.len() - m;
    &&& 1 <= m < w.len()
    &&& t <= m + 1
    &&& stack == marked(w, m).take(m + 1 - t)
    &&& forall|j: int| 0 <= j < t ==> #[trigger] w[m + j] == marked(w, m)[m - j]
}

/// What holds of every configuration of the bottom-up automaton after `w`.
pub open spec fn bottom_up_inv(w: Seq<Symbol>, c: ConfigModel) -> bool {
    ||| (c.state == 0 && w.len() == 0 && c.stack == seq![EOS])
    ||| (c.state == 1 && w.len() >= 1 && c.stack == seq![EOS] + w)
    ||| (c.state == 2 && exists|m: int| popping(w, c.stack, m))
}

proof fn lemma_bottom_up_inv_step(w: Seq<Symbol>, c: ConfigModel, a: Symbol, d: ConfigModel)
    requires
        bottom_up_inv(w, c),
        bottom_up::step_model(c, a).contains(d),
    ensures
        bottom_up_inv(w.push(a), d),
{
    let w2 = w.push(a);
    let succ = bottom_up::step_model(c, a);
    let k = choose|k: int| 0 <= k < succ.len() && succ[k] == d;
    if c.state == 0 {
        assert(d.stack =~= seq![EOS] + w2);
    } else if c.state == 1 {
        if d.state == 1 {
            assert(d.stack =~= seq![EOS] + w2);
        } else {
            let m = w.len() as int;
            assert(w2.take(m) =~= w);
            assert(d.stack =~= marked(w2, m).take(m));
            assert forall|j: int| 0 <= j < 1 implies #[trigger] w2[m + j] == marked(w2, m)[m - j] by {
                assert(j == 0);
            }
            assert(popping(w2, d.stack, m));
        }
    } else {
        let m = choose|m: int| popping(w, c.stack, m);
        let t = w.len() - m;
        assert(w2.take(m) =~= w.take(m));
        assert(marked(w2, m) == marked(w, m));
        assert(d.stack =~= marked(w2, m).take(m + 1 - (t + 1)));
        assert forall|j: int| 0 <= j < t + 1 implies #[trigger] w2[m + j] == marked(w2, m)[m - j] by {
            if j < t {
                assert(w2[m + j] == w[m + j]);
            } else {
                assert(c.stack.last() == marked(w, m)[m - t]);
            }
        }
        assert(popping(w2, d.stack, m));
    }
}

/// Every configuration alive after `w` satisfies [`bottom_up_inv`].
pub proof fn lemma_bottom_up_inv(w: Seq<Symbol>, c: ConfigModel)
    requires
        run(BottomUp, bottom_up::initial_model(), w).contains(c),
    ensures
        bottom_up_inv(w, c),
    decreases w.len(),
{
    if w.len() == 0 {
        let k = choose|k: int| 0 <= k < bottom_up::initial_model().len() && bottom_up::initial_model()[k] == c;
    } else {
        let v = w.drop_last();
        assert(v.push(w.last()) =~= w);
        lemma_run_push(BottomUp, bottom_up::initial_model(), v, w.last());
        let prev = run(BottomUp, bottom_up::initial_model(), v);
        lemma_step_all_contains(BottomUp, prev, w.last(), c);
        let i = choose|i: int| 0 <= i < prev.len() && (#[trigger] BottomUp.step_spec(prev[i], w.last())).contains(c);
        assert(prev.contains(prev[i]));
        lemma_bottom_up_inv(v, prev[i]);
        lemma_bottom_up_inv_step(v, prev[i], w.last(), c);
    }
}

proof fn lemma_bottom_up_sound(w: Seq<Symbol>)
    requires
        is_binary(w),
        accepts_spec(BottomUp, bottom_up::initial_model(), w),
    ensures
        is_even_palindrome(w),
{
    let r = run(BottomUp, bottom_up::initial_model(), w);
    let e = epsilon_all(BottomUp, r);
    assert forall|i: int| 0 <= i < e.len() implies (#[trigger] e[i]).state == 3 by {
        assert(e.contains(e[i]));
        lemma_epsilon_all_contains(BottomUp, r, e[i]);
    }
    assert forall|i: int| 0 <= i < e.len() implies (#[trigger] BottomUp.epsilon_spec(e[i])).len() == 0 by {
        assert(e[i].state == 3);
    }
    lemma_epsilon_fixed_point(BottomUp, e);
    let k = choose|k: nat| has_final(BottomUp, #[trigger] epsilon_iter(BottomUp, r, k));
    if k == 0 {
        let i = choose|i: int| 0 <= i < r.len() && BottomUp.final_spec(#[trigger] r[i]);
        assert(r.contains(r[i]));
        lemma_bottom_up_inv(w, r[i]);
    } else if k == 1 {
        assert(epsilon_iter(BottomUp, r, 0) == r);
        assert(epsilon_iter(BottomUp, r, 1) == epsilon_all(BottomUp, epsilon_iter(BottomUp, r, 0)));
        assert(epsilon_iter(BottomUp, r, 1) == e);
        let i = choose|i: int| 0 <= i < e.len() && BottomUp.final_spec(#[trigger] e[i]);
        assert(e.contains(e[i]));
        lemma_epsilon_all_contains(BottomUp, r, e[i]);
        let q = choose|q: int| 0 <= q < r.len() && (#[trigger] BottomUp.epsilon_spec(r[q])).contains(e[i]);
        let c = r[q];
        assert(r.contains(c));
        lemma_bottom_up_inv(w, c);
        assert(c.state == 2);
        let m = choose|m: int| popping(w, c.stack, m);
        let n = w.len() as int;
        let t = n - m;
        let st = marked(w, m);
        assert(c.stack.last() == st[m - t]);
        assert(c.stack.last() == EOS);
        if m - t >= 1 {
            assert(st[m - t] == w[m - t - 1]);
            assert(w[m - t - 1] == 0 || w[m - t - 1] == 1);
        }
        assert(m == t);
        assert forall|i: int| 0 <= i < n implies #[trigger] w[i] == w[n - 1 - i] by {
            if i >= m {
                let j = i - m;
                assert(w[m + j] == st[m - j]);
                assert(st[m - j] == w[m - j - 1]);
            } else {
                let j = n - 1 - i - m;
                assert(w[m + j] == st[m - j]);
                assert(st[m - j] == w[m - j - 1]);
            }
        }
    } else {
        assert(epsilon_iter(BottomUp, r, 0) == r);
        assert(epsilon_iter(BottomUp, r, 1) == epsilon_all(BottomUp, epsilon_iter(BottomUp, r, 0)));
        assert(epsilon_iter(BottomUp, r, 2) == epsilon_all(BottomUp, epsilon_iter(BottomUp, r, 1)));
        assert(epsilon_iter(BottomUp, r, 2) == epsilon_all(BottomUp, e));
        crate::pda::lemma_epsilon_iter_stays_empty(BottomUp, r, 2, k);
    }
}

proof fn lemma_bottom_up_pushes(w: Seq<Symbol>, i: int)
    requires
        1 <= i <= w.len(),
    ensures
        run(BottomUp, bottom_up::initial_model(), w.take(i)).contains(
            ConfigModel { state: 1, stack: seq![EOS] + w.take(i) },
        ),
    decreases i,
{
    let init = bottom_up::initial_model();
    let prev_w = w.take(i - 1);
    assert(prev_w.push(w[i - 1]) =~= w.take(i));
    lemma_run_push(BottomUp, init, prev_w, w[i - 1]);
    let prev = run(BottomUp, init, prev_w);
    let d = ConfigModel { state: 1, stack: seq![EOS] + w.take(i) };
    let c = if i == 1 {
        assert(prev_w =~= Seq::<Symbol>::empty());
        assert(prev == init);
        init[0]
    } else {
        lemma_bottom_up_pushes(w, i - 1);
        ConfigModel { state: 1, stack: seq![EOS] + prev_w }
    };
    assert(prev.contains(c));
    let q = choose|q: int| 0 <= q < prev.len() && prev[q] == c;
    assert(d.stack =~= c.stack.push(w[i - 1]));
    assert(BottomUp.step_spec(prev[q], w[i - 1])[0] == d);
    assert(BottomUp.step_spec(prev[q], w[i - 1]).contains(d));
    lemma_step_all_contains(BottomUp, prev, w[i - 1], d);
}

proof fn lemma_bottom_up_pops(w: Seq<Symbol>, i: int)
    requires
        is_even_palindrome(w),
        w.len() / 2 + 1 <= i <= w.len(),
    ensures
        run(BottomUp, bottom_up::initial_model(), w.take(i)).contains(
            ConfigModel { state: 2, stack: seq![EOS] + w.take(w.len() - i) },
        ),
    decreases i,
{
    let n = w.len() as int;
    let k = n / 2;
    let init = bottom_up::initial_model();
    let prev_w = w.take(i - 1);
    assert(prev_w.push(w[i - 1]) =~= w.take(i));
    lemma_run_push(BottomUp, init, prev_w, w[i - 1]);
    let prev = run(BottomUp, init, prev_w);
    let d = ConfigModel { state: 2, stack: seq![EOS] + w.take(n - i) };
    assert(w[i - 1] == w[n - 1 - (i - 1)]);
    if i == k + 1 {
        lemma_bottom_up_pushes(w, k);
        let c = ConfigModel { state: 1, stack: seq![EOS] + w.take(k) };
        let q = choose|q: int| 0 <= q < prev.len() && prev[q] == c;
        assert(c.stack.last() == w[k - 1]);
        assert(d.stack =~= c.stack.drop_last());
        assert(BottomUp.step_spec(prev[q], w[i - 1])[1] == d);
        assert(BottomUp.step_spec(prev[q], w[i - 1]).contains(d));
    } else {
        lemma_bottom_up_pops(w, i - 1);
        let c = ConfigModel { state: 2, stack: seq![EOS] + w.take(n - i + 1) };
        let q = choose|q: int| 0 <= q < prev.len() && prev[q] == c;
        assert(c.stack.last() == w[n - i]);
        assert(d.stack =~= c.stack.drop_last());
        assert(BottomUp.step_spec(prev[q], w[i - 1])[0] == d);
        assert(BottomUp.step_spec(prev[q], w[i - 1]).contains(d));
    }
    lemma_step_all_contains(BottomUp, prev, w[i - 1], d);
}

proof fn lemma_bottom_up_complete(w: Seq<Symbol>)
    requires
        is_even_palindrome(w),
    ensures
        accepts_spec(BottomUp, bottom_up::initial_model(), w),
{
    let init = bottom_up::initial_model();
    let r = run(BottomUp, init, w);
    if w.len() == 0 {
        assert(r == init);
        assert(BottomUp.final_spec(r[0]));
        assert(has_final(BottomUp, epsilon_iter(BottomUp, r, 0)));
    } else {
        let n = w.len() as int;
        lemma_bottom_up_pops(w, n);
        assert(w.take(n) =~= w);
        let c = ConfigModel { state: 2, stack: seq![EOS] + w.take(0) };
        assert(c.stack =~= seq![EOS]);
        let q = choose|q: int| 0 <= q < r.len() && r[q] == c;
        let d = BottomUp.epsilon_spec(c)[0];
        assert(BottomUp.epsilon_spec(r[q]).contains(d));
        lemma_epsilon_all_contains(BottomUp, r, d);
        let e = epsilon_all(BottomUp, r);
        let j = choose|j: int| 0 <= j < e.len() && e[j] == d;
        assert(BottomUp.final_spec(e[j]));
        assert(epsilon_iter(BottomUp, r, 0) == r);
        assert(epsilon_iter(BottomUp, r, 1) == epsilon_all(BottomUp, epsilon_iter(BottomUp, r, 0)));
        assert(epsilon_iter(BottomUp, r, 1) == e);
        assert(has_final(BottomUp, epsilon_iter(BottomUp, r, 1)));
    }
}

/// On binary words the bottom-up automaton accepts exactly the palindromes of
/// even length.
pub proof fn lemma_bottom_up_language(w: Seq<Symbol>)
    requires
        is_binary(w),
    ensures
        accepts_spec(BottomUp, bottom_up::initial_model(), w) <==> is_even_palindrome(w),
{
    if accepts_spec(BottomUp, bottom_up::initial_model(), w) {
        lemma_bottom_up_sound(w);
    }
    if is_even_palindrome(w) {
        lemma_bottom_up_complete(w);
    }
}

/// The consuming step of the grammar-driven automaton over the palindrome
/// grammar, written out: a matching symbol on top is popped, and `S` on top
/// is replaced by `a S` or by `a` for a bit `a`.
pub open spec fn palindrome_step(c: ConfigModel, a: Symbol) -> Seq<ConfigModel> {
    if c.state != 0 || c.stack.len() == 0 {
        seq![]
    } else if c.stack.last() == a {
        seq![ConfigModel { state: 0, stack: c.stack.drop_last() }]
    } else if c.stack.last() == S && (a == 0 || a == 1) {
        seq![
            ConfigModel { state: 0, stack: c.stack.drop_last().push(a).push(S) },
            ConfigModel { state: 0, stack: c.stack.drop_last().push(a) },
        ]
    } else {
        seq![]
    }
}

proof fn lemma_rev_symbols_one(p: RulePart)
    ensures
        rev_symbols(seq![p]) == crate::grammar::part_symbol(p),
{
    assert(seq![p].drop_first() =~= Seq::<RulePart>::empty());
    assert(rev_symbols(Seq::<RulePart>::empty()) + crate::grammar::part_symbol(p) =~= crate::grammar::part_symbol(p));
}

proof fn lemma_palindrome_step(c: ConfigModel, a: Symbol)
    ensures
        grammar_driven::step_model(palindrome_model(), c, a) == palindrome_step(c, a),
{
    let g = palindrome_model();
    if c.state == 0 && c.stack.len() > 0 && c.stack.last() != a {
        let base = popped(c.stack);
        let v = c.stack.last();
        assert(nullable(g, S)) by {
            lemma_rev_symbols_one(RulePart::Epsilon);
            assert(g[2].1 =~= seq![RulePart::Epsilon]);
        }
        let b0 = g[0].1.drop_first();
        let b1 = g[1].1.drop_first();
        assert(rev_symbols(b0) =~= seq![0, S]) by {
            assert(b0.drop_first() =~= seq![RulePart::Lit(0)]);
            lemma_rev_symbols_one(RulePart::Lit(0));
            assert(b0[0] == RulePart::Var(S));
        }
        assert(rev_symbols(b1) =~= seq![1, S]) by {
            assert(b1.drop_first() =~= seq![RulePart::Lit(1)]);
            lemma_rev_symbols_one(RulePart::Lit(1));
            assert(b1[0] == RulePart::Var(S));
        }
        assert(g.take(0) =~= Seq::<(u8, Seq<RulePart>)>::empty());
        assert(g.take(1).drop_last() =~= g.take(0));
        assert(g.take(2).drop_last() =~= g.take(1));
        assert(g.drop_last() =~= g.take(2));
        let e0 = expand_one(g, g[0], base, a, v);
        let e1 = expand_one(g, g[1], base, a, v);
        let e2 = expand_one(g, g[2], base, a, v);
        assert(g.take(1).last() == g[0]);
        assert(g.take(2).last() == g[1]);
        assert(g.last() == g[2]);
        assert(expansions(g, g.take(0), base, a, v) =~= Seq::<ConfigModel>::empty());
        assert(expansions(g, g.take(1), base, a, v) =~= e0);
        assert(expansions(g, g.take(2), base, a, v) == e0 + e1);
        assert(expansions(g, g, base, a, v) == e0 + e1 + e2);
        assert(e2 =~= Seq::<ConfigModel>::empty());
        if v == S && a == 0 {
            assert((base + seq![0, S]).last() == S);
            assert((base + seq![0, S]) =~= base.push(a).push(S));
            assert((base + seq![0, S]).drop_last() =~= base.push(a));
            assert(e1 =~= Seq::<ConfigModel>::empty());
            assert(e0 + e1 + e2 =~= palindrome_step(c, a));
        } else if v == S && a == 1 {
            assert((base + seq![1, S]).last() == S);
            assert((base + seq![1, S]) =~= base.push(a).push(S));
            assert((base + seq![1, S]).drop_last() =~= base.push(a));
            assert(e0 =~= Seq::<ConfigModel>::empty());
            assert(e0 + e1 + e2 =~= palindrome_step(c, a));
        } else {
            assert(e0 =~= Seq::<ConfigModel>::empty());
            assert(e1 =~= Seq::<ConfigModel>::empty());
            assert(e0 + e1 + e2 =~= palindrome_step(c, a));
        }
    }
}

/// `p` is the grammar-driven automaton for the palindrome grammar.
pub open spec fn is_palindrome_recognizer(p: GrammarDriven) -> bool {
    p.grammar@ == palindrome_model() && p.start == S
}

/// A matching configuration of the grammar-driven automaton after reading
/// `w`, whose `S` was erased after `m` symbols: every symbol read since was
/// matched against the pushed prefix.
pub open spec fn matching(w: Seq<Symbol>, stack: Seq<Symbol>, m: int) -> bool {
    let t = w.len() - m;
    &&& 1 <= m <= w.len()
    &&& t <= m + 1
    &&& stack == marked(w, m).take(m + 1 - t)
    &&& forall|j: int| 0 <= j < t ==> #[trigger] w[m + j] == marked(w, m)[m - j]
}

/// What holds of every configuration of the grammar-driven automaton after
/// the binary word `w`.
pub open spec fn grammar_inv(w: Seq<Symbol>, c: ConfigModel) -> bool {
    ||| (c.state == 1 && w.len() == 0 && c.stack == Seq::<Symbol>::empty())
    ||| (c.state == 0 && c.stack == seq![EOS] + w + seq![S])
    ||| (c.state == 0 && exists|m: int| matching(w, c.stack, m))
}

proof fn lemma_grammar_inv_step(w: Seq<Symbol>, c: ConfigModel, a: Symbol, d: ConfigModel)
    requires
        is_binary(w.push(a)),
        grammar_inv(w, c),
        palindrome_step(c, a).contains(d),
    ensures
        grammar_inv(w.push(a), d),
{
    let w2 = w.push(a);
    let n = w.len() as int;
    assert(w2[n] == a);
    let succ = palindrome_step(c, a);
    let k = choose|k: int| 0 <= k < succ.len() && succ[k] == d;
    if c.state == 0 && c.stack == seq![EOS] + w + seq![S] {
        assert(c.stack.last() == S);
        assert(c.stack.drop_last() =~= seq![EOS] + w);
        if k == 0 {
            assert(d.stack =~= seq![EOS] + w2 + seq![S]);
        } else {
            let m = n + 1;
            assert(w2.take(m) =~= w2);
            assert(d.stack =~= marked(w2, m).take(m + 1));
            assert(matching(w2, d.stack, m));
        }
    } else if c.state == 0 {
        let m = choose|m: int| matching(w, c.stack, m);
        let t = n - m;
        let st = marked(w, m);
        assert(c.stack.last() == st[m - t]);
        if m - t >= 1 {
            assert(st[m - t] == w[m - t - 1]);
            assert(w[m - t - 1] == w2[m - t - 1]);
        }
        assert(c.stack.last() != S);
        assert(c.stack.last() == a);
        assert(w2.take(m) =~= w.take(m));
        assert(marked(w2, m) == st);
        assert(d.stack =~= marked(w2, m).take(m + 1 - (t + 1)));
        assert forall|j: int| 0 <= j < t + 1 implies #[trigger] w2[m + j] == marked(w2, m)[m - j] by {
            if j < t {
                assert(w2[m + j] == w[m + j]);
            }
        }
        assert(matching(w2, d.stack, m));
    }
}

/// Every configuration alive after the binary word `w` satisfies
/// [`grammar_inv`].
pub proof fn lemma_grammar_inv(p: GrammarDriven, w: Seq<Symbol>, c: ConfigModel)
    requires
        is_palindrome_recognizer(p),
        is_binary(w),
        run(p, grammar_driven::initial_model(S), w).contains(c),
    ensures
        grammar_inv(w, c),
    decreases w.len(),
{
    let init = grammar_driven::initial_model(S);
    if w.len() == 0 {
        let k = choose|k: int| 0 <= k < init.len() && init[k] == c;
        if k == 0 {
            assert(c.stack =~= seq![EOS] + w + seq![S]);
        } else {
            assert(c.stack =~= Seq::<Symbol>::empty());
        }
    } else {
        let v = w.drop_last();
        assert(v.push(w.last()) =~= w);
        assert(is_binary(v)) by {
            assert forall|i: int| 0 <= i < v.len() implies #[trigger] v[i] == 0 || v[i] == 1 by {
                assert(v[i] == w[i]);
            }
        }
        lemma_run_push(p, init, v, w.last());
        let prev = run(p, init, v);
        lemma_step_all_contains(p, prev, w.last(), c);
        let i = choose|i: int| 0 <= i < prev.len() && (#[trigger] p.step_spec(prev[i], w.last())).contains(c);
        assert(prev.contains(prev[i]));
        lemma_grammar_inv(p, v, prev[i]);
        lemma_palindrome_step(prev[i], w.last());
        lemma_grammar_inv_step(v, prev[i], w.last(), c);
    }
}

proof fn lemma_grammar_sound(p: GrammarDriven, w: Seq<Symbol>)
    requires
        is_palindrome_recognizer(p),
        is_binary(w),
        accepts_spec(p, grammar_driven::initial_model(S), w),
    ensures
        is_even_palindrome(w),
{
    let r = run(p, grammar_driven::initial_model(S), w);
    let e = epsilon_all(p, r);
    assert forall|i: int| 0 <= i < e.len() implies (#[trigger] e[i]).state == 1 by {
        assert(e.contains(e[i]));
        lemma_epsilon_all_contains(p, r, e[i]);
    }
    assert forall|i: int| 0 <= i < e.len() implies (#[trigger] p.epsilon_spec(e[i])).len() == 0 by {
        assert(e[i].state == 1);
    }
    lemma_epsilon_fixed_point(p, e);
    assert(epsilon_iter(p, r, 0) == r);
    assert(epsilon_iter(p, r, 1) == epsilon_all(p, epsilon_iter(p, r, 0)));
    assert(epsilon_iter(p, r, 2) == epsilon_all(p, epsilon_iter(p, r, 1)));
    let k = choose|k: nat| has_final(p, #[trigger] epsilon_iter(p, r, k));
    if k == 0 {
        let i = choose|i: int| 0 <= i < r.len() && p.final_spec(#[trigger] r[i]);
        assert(r.contains(r[i]));
        lemma_grammar_inv(p, w, r[i]);
    } else if k == 1 {
        let i = choose|i: int| 0 <= i < e.len() && p.final_spec(#[trigger] e[i]);
        assert(e.contains(e[i]));
        lemma_epsilon_all_contains(p, r, e[i]);
        let q = choose|q: int| 0 <= q < r.len() && (#[trigger] p.epsilon_spec(r[q])).contains(e[i]);
        let c = r[q];
        assert(r.contains(c));
        lemma_grammar_inv(p, w, c);
        assert(c.state == 0 && c.stack.last() == EOS);
        if c.stack == seq![EOS] + w + seq![S] {
            assert(c.stack.last() == S);
        }
        let m = choose|m: int| matching(w, c.stack, m);
        let n = w.len() as int;
        let t = n - m;
        let st = marked(w, m);
        assert(c.stack.last() == st[m - t]);
        if m - t >= 1 {
            assert(st[m - t] == w[m - t - 1]);
            assert(w[m - t - 1] == 0 || w[m - t - 1] == 1);
        }
        assert(m == t);
        assert forall|i: int| 0 <= i < n implies #[trigger] w[i] == w[n - 1 - i] by {
            if i >= m {
                let j = i - m;
                assert(w[m + j] == st[m - j]);
                assert(st[m - j] == w[m - j - 1]);
            } else {
                let j = n - 1 - i - m;
                assert(w[m + j] == st[m - j]);
                assert(st[m - j] == w[m - j - 1]);
            }
        }
    } else {
        crate::pda::lemma_epsilon_iter_stays_empty(p, r, 2, k);
    }
}

proof fn lemma_grammar_expands(p: GrammarDriven, w: Seq<Symbol>, i: int)
    requires
        is_palindrome_recognizer(p),
        is_binary(w),
        0 <= i <= w.len(),
    ensures
        run(p, grammar_driven::initial_model(S), w.take(i)).contains(
            ConfigModel { state: 0, stack: seq![EOS] + w.take(i) + seq![S] },
        ),
    decreases i,
{
    let init = grammar_driven::initial_model(S);
    let d = ConfigModel { state: 0, stack: seq![EOS] + w.take(i) + seq![S] };
    if i == 0 {
        assert(w.take(0) =~= Seq::<Symbol>::empty());
        assert(d.stack =~= init[0].stack);
        assert(init[0] == d);
    } else {
        let prev_w = w.take(i - 1);
        assert(prev_w.push(w[i - 1]) =~= w.take(i));
        lemma_run_push(p, init, prev_w, w[i - 1]);
        let prev = run(p, init, prev_w);
        lemma_grammar_expands(p, w, i - 1);
        let c = ConfigModel { state: 0, stack: seq![EOS] + prev_w + seq![S] };
        let q = choose|q: int| 0 <= q < prev.len() && prev[q] == c;
        lemma_palindrome_step(c, w[i - 1]);
        assert(c.stack.last() == S);
        assert(c.stack.drop_last() =~= seq![EOS] + prev_w);
        assert(d.stack =~= c.stack.drop_last().push(w[i - 1]).push(S));
        assert(p.step_spec(prev[q], w[i - 1])[0] == d);
        assert(p.step_spec(prev[q], w[i - 1]).contains(d));
        lemma_step_all_contains(p, prev, w[i - 1], d);
    }
}

proof fn lemma_grammar_matches(p: GrammarDriven, w: Seq<Symbol>, i: int)
    requires
        is_palindrome_recognizer(p),
        is_binary(w),
        is_even_palindrome(w),
        1 <= w.len() / 2 <= i <= w.len(),
    ensures
        run(p, grammar_driven::initial_model(S), w.take(i)).contains(
            ConfigModel { state: 0, stack: seq![EOS] + w.take(w.len() - i) },
        ),
    decreases i,
{
    let n = w.len() as int;
    let k = n / 2;
    let init = grammar_driven::initial_model(S);
    let prev_w = w.take(i - 1);
    assert(prev_w.push(w[i - 1]) =~= w.take(i));
    lemma_run_push(p, init, prev_w, w[i - 1]);
    let prev = run(p, init, prev_w);
    let d = ConfigModel { state: 0, stack: seq![EOS] + w.take(n - i) };
    if i == k {
        lemma_grammar_expands(p, w, k - 1);
        let c = ConfigModel { state: 0, stack: seq![EOS] + prev_w + seq![S] };
        let q = choose|q: int| 0 <= q < prev.len() && prev[q] == c;
        lemma_palindrome_step(c, w[i - 1]);
        assert(c.stack.last() == S);
        assert(c.stack.drop_last() =~= seq![EOS] + prev_w);
        assert(d.stack =~= c.stack.drop_last().push(w[i - 1]));
        assert(p.step_spec(prev[q], w[i - 1])[1] == d);
        assert(p.step_spec(prev[q], w[i - 1]).contains(d));
    } else {
        lemma_grammar_matches(p, w, i - 1);
        let c = ConfigModel { state: 0, stack: seq![EOS] + w.take(n - i + 1) };
        let q = choose|q: int| 0 <= q < prev.len() && prev[q] == c;
        lemma_palindrome_step(c, w[i - 1]);
        assert(w[i - 1] == w[n - 1 - (i - 1)]);
        assert(c.stack.last() == w[n - i]);
        assert(d.stack =~= c.stack.drop_last());
        assert(p.step_spec(prev[q], w[i - 1])[0] == d);
        assert(p.step_spec(prev[q], w[i - 1]).contains(d));
    }
    lemma_step_all_contains(p, prev, w[i - 1], d);
}

proof fn lemma_grammar_complete(p: GrammarDriven, w: Seq<Symbol>)
    requires
        is_palindrome_recognizer(p),
        is_binary(w),
        is_even_palindrome(w),
    ensures
        accepts_spec(p, grammar_driven::initial_model(S), w),
{
    let init = grammar_driven::initial_model(S);
    let r = run(p, init, w);
    assert(epsilon_iter(p, r, 0) == r);
    if w.len() == 0 {
        assert(r == init);
        assert(p.final_spec(r[1]));
        assert(has_final(p, epsilon_iter(p, r, 0)));
    } else {
        let n = w.len() as int;
        lemma_grammar_matches(p, w, n);
        assert(w.take(n) =~= w);
        let c = ConfigModel { state: 0, stack: seq![EOS] + w.take(0) };
        assert(c.stack =~= seq![EOS]);
        let q = choose|q: int| 0 <= q < r.len() && r[q] == c;
        let d = p.epsilon_spec(c)[0];
        assert(p.epsilon_spec(r[q]).contains(d));
        lemma_epsilon_all_contains(p, r, d);
        let e = epsilon_all(p, r);
        let j = choose|j: int| 0 <= j < e.len() && e[j] == d;
        assert(p.final_spec(e[j]));
        assert(epsilon_iter(p, r, 1) == epsilon_all(p, epsilon_iter(p, r, 0)));
        assert(has_final(p, epsilon_iter(p, r, 1)));
    }
}

/// On binary words the grammar-driven automaton for the palindrome grammar
/// accepts exactly the palindromes of even length.
pub proof fn lemma_grammar_language(p: GrammarDriven, w: Seq<Symbol>)
    requires
        is_palindrome_recognizer(p),
        is_binary(w),
    ensures
        accepts_spec(p, grammar_driven::initial_model(S), w) <==> is_even_palindrome(w),
{
    if accepts_spec(p, grammar_driven::initial_model(S), w) {
        lemma_grammar_sound(p, w);
    }
    if is_even_palindrome(w) {
        lemma_grammar_complete(p, w);
    }
}

/// A configuration of the two-state automaton in state 1 after reading `w`,
/// which switched to state 1 after `m` symbols and has matched every symbol
/// read since against the pushed prefix.
pub open spec fn halved(w: Seq<Symbol>, stack: Seq<Symbol>, m: int) -> bool {
    let t = w.len() - m;
    &&& 0 <= m <= w.len()
    &&& t <= m
    &&& stack == w.take(m - t)
    &&& forall|j: int| 0 <= j < t ==> #[trigger] w[m + j] == w[m - 1 - j]
}

/// What holds of every configuration of the two-state automaton after `w`.
pub open spec fn simple_inv(w: Seq<Symbol>, c: ConfigModel) -> bool {
    ||| (c.state == 0 && c.stack == w)
    ||| (c.state == 1 && exists|m: int| halved(w, c.stack, m))
}

proof fn lemma_simple_inv_step(w: Seq<Symbol>, c: ConfigModel, a: Symbol, d: ConfigModel)
    requires
        simple_inv(w, c),
        simple::step_model(c, a).contains(d),
    ensures
        simple_inv(w.push(a), d),
{
    let w2 = w.push(a);
    let n = w.len() as int;
    assert(w2[n] == a);
    let succ = simple::step_model(c, a);
    let k = choose|k: int| 0 <= k < succ.len() && succ[k] == d;
    if c.state == 0 {
        assert(d.stack =~= w2);
        if k == 1 {
            assert(w2.take(n + 1) =~= w2);
            assert(halved(w2, d.stack, n + 1));
        }
    } else {
        let m = choose|m: int| halved(w, c.stack, m);
        let t = n - m;
        assert(c.stack.last() == w[m - 1 - t]);
        assert(d.stack =~= w2.take(m - (t + 1)));
        assert forall|j: int| 0 <= j < t + 1 implies #[trigger] w2[m + j] == w2[m - 1 - j] by {
            if j < t {
                assert(w2[m + j] == w[m + j]);
            }
        }
        assert(halved(w2, d.stack, m));
    }
}

/// Every configuration alive after `w` satisfies [`simple_inv`].
pub proof fn lemma_simple_inv(w: Seq<Symbol>, c: ConfigModel)
    requires
        run(Simple, simple::initial_model(), w).contains(c),
    ensures
        simple_inv(w, c),
    decreases w.len(),
{
    let init = simple::initial_model();
    if w.len() == 0 {
        let k = choose|k: int| 0 <= k < init.len() && init[k] == c;
        assert(w =~= Seq::<Symbol>::empty());
        if k == 1 {
            assert(w.take(0) =~= Seq::<Symbol>::empty());
            assert(halved(w, c.stack, 0));
        }
    } else {
        let v = w.drop_last();
        assert(v.push(w.last()) =~= w);
        lemma_run_push(Simple, init, v, w.last());
        let prev = run(Simple, init, v);
        lemma_step_all_contains(Simple, prev, w.last(), c);
        let i = choose|i: int| 0 <= i < prev.len() && (#[trigger] Simple.step_spec(prev[i], w.last())).contains(c);
        assert(prev.contains(prev[i]));
        lemma_simple_inv(v, prev[i]);
        lemma_simple_inv_step(v, prev[i], w.last(), c);
    }
}

proof fn lemma_simple_pushes(w: Seq<Symbol>, i: int)
    requires
        0 <= i <= w.len(),
    ensures
        run(Simple, simple::initial_model(), w.take(i)).contains(ConfigModel { state: 0, stack: w.take(i) }),
    decreases i,
{
    let init = simple::initial_model();
    let d = ConfigModel { state: 0, stack: w.take(i) };
    if i == 0 {
        assert(w.take(0) =~= Seq::<Symbol>::empty());
        assert(init[0] == d);
    } else {
        let prev_w = w.take(i - 1);
        assert(prev_w.push(w[i - 1]) =~= w.take(i));
        lemma_run_push(Simple, init, prev_w, w[i - 1]);
        let prev = run(Simple, init, prev_w);
        lemma_simple_pushes(w, i - 1);
        let c = ConfigModel { state: 0, stack: prev_w };
        let q = choose|q: int| 0 <= q < prev.len() && prev[q] == c;
        assert(d.stack =~= prev_w.push(w[i - 1]));
        assert(Simple.step_spec(prev[q], w[i - 1])[0] == d);
        assert(Simple.step_spec(prev[q], w[i - 1]).contains(d));
        lemma_step_all_contains(Simple, prev, w[i - 1], d);
    }
}

proof fn lemma_simple_pops(w: Seq<Symbol>, i: int)
    requires
        is_even_palindrome(w),
        1 <= w.len() / 2 <= i <= w.len(),
    ensures
        run(Simple, simple::initial_model(), w.take(i)).contains(
            ConfigModel { state: 1, stack: w.take(w.len() - i) },
        ),
    decreases i,
{
    let n = w.len() as int;
    let k = n / 2;
    let init = simple::initial_model();
    let prev_w = w.take(i - 1);
    assert(prev_w.push(w[i - 1]) =~= w.take(i));
    lemma_run_push(Simple, init, prev_w, w[i - 1]);
    let prev = run(Simple, init, prev_w);
    let d = ConfigModel { state: 1, stack: w.take(n - i) };
    if i == k {
        lemma_simple_pushes(w, k - 1);
        let c = ConfigModel { state: 0, stack: prev_w };
        let q = choose|q: int| 0 <= q < prev.len() && prev[q] == c;
        assert(d.stack =~= prev_w.push(w[i - 1]));
        assert(Simple.step_spec(prev[q], w[i - 1])[1] == d);
        assert(Simple.step_spec(prev[q], w[i - 1]).contains(d));
    } else {
        lemma_simple_pops(w, i - 1);
        let c = ConfigModel { state: 1, stack: w.take(n - i + 1) };
        let q = choose|q: int| 0 <= q < prev.len() && prev[q] == c;
        assert(w[i - 1] == w[n - 1 - (i - 1)]);
        assert(c.stack.last() == w[n - i]);
        assert(d.stack =~= c.stack.drop_last());
        assert(Simple.step_spec(prev[q], w[i - 1])[0] == d);
        assert(Simple.step_spec(prev[q], w[i - 1]).contains(d));
    }
    lemma_step_all_contains(Simple, prev, w[i - 1], d);
}

/// The two-state automaton accepts exactly the palindromes of even length,
/// over any alphabet.
pub proof fn lemma_simple_language(w: Seq<Symbol>)
    ensures
        accepts_spec(Simple, simple::initial_model(), w) <==> is_even_palindrome(w),
{
    let init = simple::initial_model();
    let r = run(Simple, init, w);
    assert(epsilon_iter(Simple, r, 0) == r);
    assert forall|i: int| 0 <= i < r.len() implies (#[trigger] Simple.epsilon_spec(r[i])).len() == 0 by {
    }
    lemma_epsilon_fixed_point(Simple, r);
    if accepts_spec(Simple, init, w) {
        let k = choose|k: nat| has_final(Simple, #[trigger] epsilon_iter(Simple, r, k));
        if k >= 1 {
            assert(epsilon_iter(Simple, r, k).len() == 0);
        }
        let i = choose|i: int| 0 <= i < r.len() && Simple.final_spec(#[trigger] r[i]);
        assert(r.contains(r[i]));
        lemma_simple_inv(w, r[i]);
        let m = choose|m: int| halved(w, r[i].stack, m);
        let n = w.len() as int;
        assert(m == n - m);
        assert forall|i: int| 0 <= i < n implies #[trigger] w[i] == w[n - 1 - i] by {
            if i >= m {
                assert(w[m + (i - m)] == w[m - 1 - (i - m)]);
            } else {
                let j = n - 1 - i - m;
                assert(w[m + j] == w[m - 1 - j]);
            }
        }
    }
    if is_even_palindrome(w) {
        if w.len() == 0 {
            assert(r == init);
            assert(Simple.final_spec(r[1]));
        } else {
            let n = w.len() as int;
            lemma_simple_pops(w, n);
            assert(w.take(n) =~= w);
            let c = ConfigModel { state: 1, stack: w.take(0) };
            let q = choose|q: int| 0 <= q < r.len() && r[q] == c;
            assert(Simple.final_spec(r[q]));
        }
        assert(has_final(Simple, epsilon_iter(Simple, r, 0)));
    }
}

/// The bottom-up, the grammar-driven and the two-state recognisers give the
/// same verdict on every binary word, and on every binary word that is not a
/// palindrome of odd length that verdict is whether the word is a palindrome. (Palindromes
/// of odd length lie outside the language of `S -> 0 S 0 | 1 S 1 | epsilon`
/// and both recognisers reject them.)
pub proof fn lemma_recognizers_agree(p: GrammarDriven, w: Seq<Symbol>)
    requires
        is_palindrome_recognizer(p),
        is_binary(w),
    ensures
        accepts_spec(BottomUp, bottom_up::initial_model(), w) == accepts_spec(
            p,
            grammar_driven::initial_model(S),
            w,
        ),
        accepts_spec(Simple, simple::initial_model(), w) == accepts_spec(
            BottomUp,
            bottom_up::initial_model(),
            w,
        ),
        !(is_palindrome(w) && w.len() % 2 == 1) ==> (accepts_spec(
            BottomUp,
            bottom_up::initial_model(),
            w,
        ) == is_palindrome(w)),
{
    lemma_bottom_up_language(w);
    lemma_grammar_language(p, w);
    lemma_simple_language(w);
}

} // verus!
