//! The nondeterministic pushdown automaton engine.
//!
//! An automaton is given by its consuming relation, its epsilon relation and
//! its acceptance test (the trait [`Pda`]). The driver keeps the whole frontier
//! of live configurations, replacing it wholesale at every input symbol, and
//! then alternates an acceptance test with epsilon expansion.
use vstd::prelude::*;
use crate::config::{views, ConfigModel, Configuration, Symbol};

verus! {

/// A pushdown automaton, described by pure transition relations.
pub trait Pda {
    /// The successors of `c` when it consumes the input symbol `a`, in order.
    spec fn step_spec(&self, c: ConfigModel, a: Symbol) -> Seq<ConfigModel>;

    /// The successors of `c` under the epsilon relation, in order.
    spec fn epsilon_spec(&self, c: ConfigModel) -> Seq<ConfigModel>;

    /// Whether `c` is accepting.
    spec fn final_spec(&self, c: ConfigModel) -> bool;

    /// Every epsilon rule pops: this is what makes the closure terminate.
    proof fn lemma_epsilon_pops(&self, c: ConfigModel)
        ensures
            forall|i: int|
                0 <= i < self.epsilon_spec(c).len() ==> #[trigger] self.epsilon_spec(c)[i].stack.len()
                    < c.stack.len(),
    ;

    /// Consumes one input symbol from `c`; an empty result means the branch dies.
    fn step(&self, c: &Configuration, a: Symbol) -> (r: Vec<Configuration>)
        ensures
            views(r@) == self.step_spec(c@, a),
    ;

    /// The epsilon successors of `c`.
    fn epsilon(&self, c: &Configuration) -> (r: Vec<Configuration>)
        ensures
            views(r@) == self.epsilon_spec(c@),
    ;

    /// Whether `c` is accepting.
    fn is_final(&self, c: &Configuration) -> (r: bool)
        ensures
            r == self.final_spec(c@),
    ;
}

/// The union of the consuming successors of every configuration in `s`, in order.
pub open spec fn step_all<P: Pda>(p: P, s: Seq<ConfigModel>, a: Symbol) -> Seq<ConfigModel>
    decreases s.len(),
{
    if s.len() == 0 {
        Seq::empty()
    } else {
        step_all(p, s.drop_last(), a) + p.step_spec(s.last(), a)
    }
}

/// The union of the epsilon successors of every configuration in `s`, in order.
pub open spec fn epsilon_all<P: Pda>(p: P, s: Seq<ConfigModel>) -> Seq<ConfigModel>
    decreases s.len(),
{
    if s.len() == 0 {
        Seq::empty()
    } else {
        epsilon_all(p, s.drop_last()) + p.epsilon_spec(s.last())
    }
}

/// The frontier after the configurations `s` have consumed the word `w`.
pub open spec fn run<P: Pda>(p: P, s: Seq<ConfigModel>, w: Seq<Symbol>) -> Seq<ConfigModel>
    decreases w.len(),
{
    if w.len() == 0 {
        s
    } else {
        step_all(p, run(p, s, w.drop_last()), w.last())
    }
}

/// The frontier after `k` rounds of epsilon expansion of `s`.
pub open spec fn epsilon_iter<P: Pda>(p: P, s: Seq<ConfigModel>, k: nat) -> Seq<ConfigModel>
    decreases k,
{
    if k == 0 {
        s
    } else {
        epsilon_all(p, epsilon_iter(p, s, (k - 1) as nat))
    }
}

/// Whether some configuration of `s` is accepting.
pub open spec fn has_final<P: Pda>(p: P, s: Seq<ConfigModel>) -> bool {
    exists|i: int| 0 <= i < s.len() && p.final_spec(#[trigger] s[i])
}

/// Whether the epsilon closure of `s` reaches an accepting configuration.
pub open spec fn closure_accepts<P: Pda>(p: P, s: Seq<ConfigModel>) -> bool {
    exists|k: nat| has_final(p, #[trigger] epsilon_iter(p, s, k))
}

/// Whether the automaton, started from the configurations `init`, accepts `w`.
pub open spec fn accepts_spec<P: Pda>(p: P, init: Seq<ConfigModel>, w: Seq<Symbol>) -> bool {
    closure_accepts(p, run(p, init, w))
}

/// The deepest stack among the configurations of `s` (0 for none).
pub open spec fn max_depth(s: Seq<ConfigModel>) -> nat
    decreases s.len(),
{
    if s.len() == 0 {
        0
    } else {
        let d = max_depth(s.drop_last());
        if s.last().stack.len() > d {
            s.last().stack.len()
        } else {
            d
        }
    }
}

/// A measure that every epsilon round decreases: 0 for no configuration,
/// else one more than the deepest stack.
pub open spec fn closure_measure(s: Seq<ConfigModel>) -> nat {
    if s.len() == 0 {
        0
    } else {
        max_depth(s) + 1
    }
}

/// The number of symbols the driver reads from `w` before it stops: the first
/// prefix after which no branch is left alive, or the whole word.
pub open spec fn starved<P: Pda>(p: P, init: Seq<ConfigModel>, w: Seq<Symbol>, n: int) -> bool {
    1 <= n <= w.len() && run(p, init, w.take(n)).len() == 0
}

/// No member of `s` is deeper than `max_depth(s)`.
pub proof fn lemma_max_depth_bounds(s: Seq<ConfigModel>)
    ensures
        forall|i: int| 0 <= i < s.len() ==> #[trigger] s[i].stack.len() <= max_depth(s),
    decreases s.len(),
{
    if s.len() > 0 {
        lemma_max_depth_bounds(s.drop_last());
        assert forall|i: int| 0 <= i < s.len() implies #[trigger] s[i].stack.len() <= max_depth(s) by {
            if i < s.len() - 1 {
                assert(s[i] == s.drop_last()[i]);
            }
        }
    }
}

/// A bound on every member's depth bounds `max_depth`.
pub proof fn lemma_max_depth_at_most(s: Seq<ConfigModel>, m: nat)
    requires
        forall|i: int| 0 <= i < s.len() ==> #[trigger] s[i].stack.len() <= m,
    ensures
        max_depth(s) <= m,
    decreases s.len(),
{
    if s.len() > 0 {
        assert forall|i: int| 0 <= i < s.drop_last().len() implies #[trigger] s.drop_last()[i].stack.len() <= m by {
            assert(s.drop_last()[i] == s[i]);
        }
        lemma_max_depth_at_most(s.drop_last(), m);
    }
}

/// Every epsilon successor in `epsilon_all(p, s)` comes from some member of `s`.
pub proof fn lemma_epsilon_all_origin<P: Pda>(p: P, s: Seq<ConfigModel>)
    ensures
        forall|j: int|
            0 <= j < epsilon_all(p, s).len() ==> exists|i: int|
                0 <= i < s.len() && (#[trigger] epsilon_all(p, s)[j]).stack.len() < s[i].stack.len(),
    decreases s.len(),
{
    if s.len() > 0 {
        let init = s.drop_last();
        lemma_epsilon_all_origin(p, init);
        p.lemma_epsilon_pops(s.last());
        let e = epsilon_all(p, s);
        assert forall|j: int| 0 <= j < e.len() implies exists|i: int|
            0 <= i < s.len() && (#[trigger] e[j]).stack.len() < s[i].stack.len() by {
            let ei = epsilon_all(p, init);
            if j < ei.len() {
                assert(e[j] == ei[j]);
                let i = choose|i: int| 0 <= i < init.len() && ei[j].stack.len() < init[i].stack.len();
                assert(init[i] == s[i]);
            } else {
                let t = p.epsilon_spec(s.last());
                assert(e[j] == t[j - ei.len()]);
                assert(t[j - ei.len()].stack.len() < s.last().stack.len());
                assert(s[s.len() - 1] == s.last());
            }
        }
    }
}

/// Every configuration produced by one epsilon round is strictly shallower
/// than the deepest configuration it came from.
pub proof fn lemma_epsilon_shrinks<P: Pda>(p: P, s: Seq<ConfigModel>)
    ensures
        forall|j: int|
            0 <= j < epsilon_all(p, s).len() ==> (#[trigger] epsilon_all(p, s)[j]).stack.len()
                < max_depth(s),
        closure_measure(epsilon_all(p, s)) <= max_depth(s),
        s.len() > 0 ==> closure_measure(epsilon_all(p, s)) < closure_measure(s),
{
    lemma_epsilon_all_origin(p, s);
    lemma_max_depth_bounds(s);
    let e = epsilon_all(p, s);
    if e.len() > 0 {
        assert(e[0].stack.len() < max_depth(s));
        lemma_max_depth_at_most(e, (max_depth(s) - 1) as nat);
    }
}

pub proof fn lemma_epsilon_iter_stays_empty<P: Pda>(p: P, s: Seq<ConfigModel>, k: nat, n: nat)
    requires
        epsilon_iter(p, s, k).len() == 0,
        k <= n,
    ensures
        epsilon_iter(p, s, n).len() == 0,
    decreases n - k,
{
    if k < n {
        assert(epsilon_iter(p, s, k + 1) == epsilon_all(p, epsilon_iter(p, s, k)));
        lemma_epsilon_iter_stays_empty(p, s, k + 1, n);
    }
}

pub proof fn lemma_run_stays_empty<P: Pda>(p: P, init: Seq<ConfigModel>, w: Seq<Symbol>, i: int, n: int)
    requires
        0 <= i <= n <= w.len(),
        run(p, init, w.take(i)).len() == 0,
    ensures
        run(p, init, w.take(n)).len() == 0,
    decreases n - i,
{
    if i < n {
        assert(w.take(i + 1).drop_last() =~= w.take(i));
        lemma_run_stays_empty(p, init, w, i + 1, n);
    }
}

/// A frontier in which no configuration has an epsilon successor is a fixed
/// point of the closure: one more epsilon round leaves nothing, so the driver
/// stops there.
pub proof fn lemma_epsilon_fixed_point<P: Pda>(p: P, s: Seq<ConfigModel>)
    requires
        forall|i: int| 0 <= i < s.len() ==> (#[trigger] p.epsilon_spec(s[i])).len() == 0,
    ensures
        epsilon_all(p, s).len() == 0,
        forall|k: nat| k >= 1 ==> (#[trigger] epsilon_iter(p, s, k)).len() == 0,
    decreases s.len(),
{
    if s.len() > 0 {
        assert forall|i: int| 0 <= i < s.drop_last().len() implies (#[trigger] p.epsilon_spec(
            s.drop_last()[i],
        )).len() == 0 by {
            assert(s.drop_last()[i] == s[i]);
        }
        lemma_epsilon_fixed_point(p, s.drop_last());
        assert(p.epsilon_spec(s[s.len() - 1]).len() == 0);
    }
    assert forall|k: nat| k >= 1 implies (#[trigger] epsilon_iter(p, s, k)).len() == 0 by {
        assert(epsilon_iter(p, s, 1) == epsilon_all(p, epsilon_iter(p, s, 0)));
        lemma_epsilon_iter_stays_empty(p, s, 1, k);
    }
}

/// Each epsilon round lowers the closure measure (one more than the deepest
/// stack) by at least one until nothing is left, so after `max_depth(s) + 1`
/// rounds no configuration survives.
pub proof fn lemma_epsilon_depth_bound<P: Pda>(p: P, s: Seq<ConfigModel>, k: nat)
    ensures
        closure_measure(epsilon_iter(p, s, k)) + k <= closure_measure(s) || epsilon_iter(
            p,
            s,
            k,
        ).len() == 0,
        k > max_depth(s) ==> epsilon_iter(p, s, k).len() == 0,
    decreases k,
{
    if k > 0 {
        let prev = epsilon_iter(p, s, (k - 1) as nat);
        lemma_epsilon_depth_bound(p, s, (k - 1) as nat);
        lemma_epsilon_shrinks(p, prev);
        assert(epsilon_iter(p, s, k) == epsilon_all(p, prev));
        if prev.len() == 0 {
            assert(epsilon_all(p, prev).len() == 0);
        }
        if k > max_depth(s) && epsilon_iter(p, s, k).len() > 0 {
            assert(closure_measure(epsilon_iter(p, s, k)) >= 1);
            if s.len() == 0 {
                lemma_epsilon_iter_stays_empty(p, s, 0, k);
            }
        }
    }
}

/// The successors of one step are separate values: replacing one of them
/// (by popping or pushing its stack, or anything else) leaves every sibling
/// as it was.
pub proof fn lemma_siblings_independent<P: Pda>(
    p: P,
    c: ConfigModel,
    a: Symbol,
    i: int,
    j: int,
    changed: ConfigModel,
)
    requires
        0 <= i < p.step_spec(c, a).len(),
        0 <= j < p.step_spec(c, a).len(),
        i != j,
    ensures
        p.step_spec(c, a).update(i, changed)[j] == p.step_spec(c, a)[j],
        p.step_spec(c, a).update(i, changed)[i] == changed,
{
}

/// A configuration is in the next frontier exactly when it is a consuming
/// successor of some member of the current one.
pub proof fn lemma_step_all_contains<P: Pda>(p: P, s: Seq<ConfigModel>, a: Symbol, c: ConfigModel)
    ensures
        step_all(p, s, a).contains(c) <==> exists|i: int|
            0 <= i < s.len() && (#[trigger] p.step_spec(s[i], a)).contains(c),
    decreases s.len(),
{
    if s.len() > 0 {
        let init = s.drop_last();
        lemma_step_all_contains(p, init, a, c);
        let x = step_all(p, init, a);
        let y = p.step_spec(s.last(), a);
        assert(step_all(p, s, a) == x + y);
        if step_all(p, s, a).contains(c) {
            let k = choose|k: int| 0 <= k < (x + y).len() && (x + y)[k] == c;
            if k < x.len() {
                assert(x[k] == c);
                let i = choose|i: int| 0 <= i < init.len() && (#[trigger] p.step_spec(init[i], a)).contains(c);
                assert(init[i] == s[i]);
                assert(p.step_spec(s[i], a).contains(c));
            } else {
                assert(y[k - x.len()] == c);
                assert(p.step_spec(s[s.len() - 1], a).contains(c));
            }
        }
        if exists|i: int| 0 <= i < s.len() && (#[trigger] p.step_spec(s[i], a)).contains(c) {
            let i = choose|i: int| 0 <= i < s.len() && (#[trigger] p.step_spec(s[i], a)).contains(c);
            if i < s.len() - 1 {
                assert(init[i] == s[i]);
                assert(p.step_spec(init[i], a).contains(c));
                let k = choose|k: int| 0 <= k < x.len() && x[k] == c;
                assert((x + y)[k] == c);
            } else {
                let k = choose|k: int| 0 <= k < y.len() && y[k] == c;
                assert((x + y)[x.len() + k] == c);
            }
        }
    }
}

/// A configuration is in the next epsilon frontier exactly when it is an
/// epsilon successor of some member of the current one.
pub proof fn lemma_epsilon_all_contains<P: Pda>(p: P, s: Seq<ConfigModel>, c: ConfigModel)
    ensures
        epsilon_all(p, s).contains(c) <==> exists|i: int|
            0 <= i < s.len() && (#[trigger] p.epsilon_spec(s[i])).contains(c),
    decreases s.len(),
{
    if s.len() > 0 {
        let init = s.drop_last();
        lemma_epsilon_all_contains(p, init, c);
        let x = epsilon_all(p, init);
        let y = p.epsilon_spec(s.last());
        assert(epsilon_all(p, s) == x + y);
        if epsilon_all(p, s).contains(c) {
            let k = choose|k: int| 0 <= k < (x + y).len() && (x + y)[k] == c;
            if k < x.len() {
                assert(x[k] == c);
                let i = choose|i: int| 0 <= i < init.len() && (#[trigger] p.epsilon_spec(init[i])).contains(c);
                assert(init[i] == s[i]);
                assert(p.epsilon_spec(s[i]).contains(c));
            } else {
                assert(y[k - x.len()] == c);
                assert(p.epsilon_spec(s[s.len() - 1]).contains(c));
            }
        }
        if exists|i: int| 0 <= i < s.len() && (#[trigger] p.epsilon_spec(s[i])).contains(c) {
            let i = choose|i: int| 0 <= i < s.len() && (#[trigger] p.epsilon_spec(s[i])).contains(c);
            if i < s.len() - 1 {
                assert(init[i] == s[i]);
                assert(p.epsilon_spec(init[i]).contains(c));
                let k = choose|k: int| 0 <= k < x.len() && x[k] == c;
                assert((x + y)[k] == c);
            } else {
                let k = choose|k: int| 0 <= k < y.len() && y[k] == c;
                assert((x + y)[x.len() + k] == c);
            }
        }
    }
}

/// One more input symbol: the frontier after `w.push(a)` is the consuming
/// step of the frontier after `w`.
pub proof fn lemma_run_push<P: Pda>(p: P, init: Seq<ConfigModel>, w: Seq<Symbol>, a: Symbol)
    ensures
        run(p, init, w.push(a)) == step_all(p, run(p, init, w), a),
{
    assert(w.push(a).drop_last() =~= w);
}

/// The outcome of a simulation.
pub struct Outcome {
    /// Whether the input was accepted.
    pub accepted: bool,
    /// How many input symbols were read before the driver stopped.
    pub consumed: usize,
    /// How many epsilon rounds left some configuration alive after the input
    /// was read.
    pub epsilon_rounds: usize,
}

/// Replaces each configuration of `configs` by its consuming successors on `a`.
pub fn step_all_exec<P: Pda>(p: &P, configs: &Vec<Configuration>, a: Symbol) -> (r: Vec<Configuration>)
    ensures
        views(r@) == step_all(*p, views(configs@), a),
{
    let ghost s = views(configs@);
    let mut r: Vec<Configuration> = Vec::new();
    let mut i: usize = 0;
    while i < configs.len()
        invariant
            i <= configs.len(),
            s == views(configs@),
            views(r@) == step_all(*p, s.take(i as int), a),
        decreases configs.len() - i,
    {
        let mut next = p.step(&configs[i], a);
        proof {
            assert(s.take(i + 1).drop_last() =~= s.take(i as int));
            assert(s.take(i + 1).last() == configs@[i as int]@);
        }
        let ghost before = r@;
        let ghost added = next@;
        r.append(&mut next);
        assert(views(r@) =~= views(before) + views(added));
        i = i + 1;
    }
    assert(s.take(configs.len() as int) =~= s);
    r
}

/// Replaces each configuration of `configs` by its epsilon successors.
pub fn epsilon_all_exec<P: Pda>(p: &P, configs: &Vec<Configuration>) -> (r: Vec<Configuration>)
    ensures
        views(r@) == epsilon_all(*p, views(configs@)),
{
    let ghost s = views(configs@);
    let mut r: Vec<Configuration> = Vec::new();
    let mut i: usize = 0;
    while i < configs.len()
        invariant
            i <= configs.len(),
            s == views(configs@),
            views(r@) == epsilon_all(*p, s.take(i as int)),
        decreases configs.len() - i,
    {
        let mut next = p.epsilon(&configs[i]);
        proof {
            assert(s.take(i + 1).drop_last() =~= s.take(i as int));
            assert(s.take(i + 1).last() == configs@[i as int]@);
        }
        let ghost before = r@;
        let ghost added = next@;
        r.append(&mut next);
        assert(views(r@) =~= views(before) + views(added));
        i = i + 1;
    }
    assert(s.take(configs.len() as int) =~= s);
    r
}

/// Whether some configuration of `configs` is accepting.
pub fn any_final<P: Pda>(p: &P, configs: &Vec<Configuration>) -> (r: bool)
    ensures
        r == has_final(*p, views(configs@)),
{
    let ghost s = views(configs@);
    let mut i: usize = 0;
    while i < configs.len()
        invariant
            i <= configs.len(),
            s == views(configs@),
            forall|j: int| 0 <= j < i ==> !p.final_spec(#[trigger] s[j]),
        decreases configs.len() - i,
    {
        if p.is_final(&configs[i]) {
            assert(p.final_spec(s[i as int]));
            return true;
        }
        i = i + 1;
    }
    false
}

/// The deepest stack among `configs`.
pub fn deepest(configs: &Vec<Configuration>) -> (r: usize)
    ensures
        r == max_depth(views(configs@)),
{
    let ghost s = views(configs@);
    let mut d: usize = 0;
    let mut i: usize = 0;
    while i < configs.len()
        invariant
            i <= configs.len(),
            s == views(configs@),
            d == max_depth(s.take(i as int)),
        decreases configs.len() - i,
    {
        proof {
            assert(s.take(i + 1).drop_last() =~= s.take(i as int));
            assert(s.take(i + 1).last() == configs@[i as int]@);
        }
        let n = configs[i].stack.len();
        if n > d {
            d = n;
        }
        i = i + 1;
    }
    assert(s.take(configs.len() as int) =~= s);
    d
}

/// Runs the epsilon closure of `configs`: tests for an accepting configuration,
/// and while there is none, replaces the frontier by its epsilon successors.
/// Returns the verdict and the number of epsilon rounds that left some
/// configuration alive.
pub fn close<P: Pda>(p: &P, configs: Vec<Configuration>) -> (r: (bool, usize))
    ensures
        r.0 == closure_accepts(*p, views(configs@)),
        r.1 <= max_depth(views(configs@)),
        r.0 ==> has_final(*p, epsilon_iter(*p, views(configs@), r.1 as nat)),
        !r.0 ==> epsilon_iter(*p, views(configs@), (r.1 + 1) as nat).len() == 0,
        r.1 > 0 ==> epsilon_iter(*p, views(configs@), r.1 as nat).len() > 0,
        forall|j: nat| j < r.1 ==> !has_final(*p, #[trigger] epsilon_iter(*p, views(configs@), j)),
{
    let ghost s0 = views(configs@);
    let bound = deepest(&configs);
    let mut cur = configs;
    let mut k: usize = 0;
    loop
        invariant
            s0 == views(configs@),
            views(cur@) == epsilon_iter(*p, s0, k as nat),
            bound == max_depth(s0),
            k + closure_measure(views(cur@)) <= closure_measure(s0),
            k <= bound,
            k > 0 ==> cur@.len() > 0,
            forall|j: nat| j < k ==> !has_final(*p, #[trigger] epsilon_iter(*p, s0, j)),
        decreases closure_measure(views(cur@)),
    {
        if cur.len() == 0 {
            proof {
                assert forall|j: nat| !has_final(*p, #[trigger] epsilon_iter(*p, s0, j)) by {
                    if j >= k {
                        lemma_epsilon_iter_stays_empty(*p, s0, k as nat, j);
                    }
                }
                lemma_epsilon_iter_stays_empty(*p, s0, k as nat, (k + 1) as nat);
            }
            return (false, k);
        }
        if any_final(p, &cur) {
            return (true, k);
        }
        let next = epsilon_all_exec(p, &cur);
        proof {
            lemma_epsilon_shrinks(*p, views(cur@));
            assert(epsilon_iter(*p, s0, (k + 1) as nat) == epsilon_all(*p, epsilon_iter(*p, s0, k as nat)));
        }
        if next.len() == 0 {
            proof {
                assert forall|j: nat| !has_final(*p, #[trigger] epsilon_iter(*p, s0, j)) by {
                    if j > k {
                        lemma_epsilon_iter_stays_empty(*p, s0, (k + 1) as nat, j);
                    }
                }
            }
            return (false, k);
        }
        cur = next;
        k = k + 1;
    }
}

/// Drives the configurations `init` through `input`, then decides acceptance
/// by epsilon closure. Reading stops early once no branch is left alive.
pub fn simulate<P: Pda>(p: &P, init: Vec<Configuration>, input: &[Symbol]) -> (r: Outcome)
    ensures
        r.accepted == accepts_spec(*p, views(init@), input@),
        r.consumed <= input@.len(),
        r.consumed == input@.len() || starved(*p, views(init@), input@, r.consumed as int),
        forall|n: int| 1 <= n < r.consumed ==> !starved(*p, views(init@), input@, n),
        r.consumed < input@.len() ==> !r.accepted && r.epsilon_rounds == 0,
        starved(*p, views(init@), input@, 1) ==> r.consumed == 1 && !r.accepted,
        r.epsilon_rounds <= max_depth(run(*p, views(init@), input@)),
        r.consumed == input@.len() ==> ({
            let f = run(*p, views(init@), input@);
            &&& forall|j: nat| j < r.epsilon_rounds ==> !has_final(*p, #[trigger] epsilon_iter(*p, f, j))
            &&& r.accepted ==> has_final(*p, epsilon_iter(*p, f, r.epsilon_rounds as nat))
            &&& !r.accepted ==> epsilon_iter(*p, f, (r.epsilon_rounds + 1) as nat).len() == 0
            &&& r.epsilon_rounds > 0 ==> epsilon_iter(*p, f, r.epsilon_rounds as nat).len() > 0
        }),
{
    let ghost s0 = views(init@);
    let ghost w = input@;
    let mut cur = init;
    let mut i: usize = 0;
    while i < input.len()
        invariant
            i <= input.len(),
            w == input@,
            s0 == views(init@),
            views(cur@) == run(*p, s0, w.take(i as int)),
            forall|n: int| 1 <= n <= i ==> !starved(*p, s0, w, n),
        decreases input.len() - i,
    {
        let next = step_all_exec(p, &cur, input[i]);
        proof {
            assert(w.take(i + 1).drop_last() =~= w.take(i as int));
            assert(w.take(i + 1).last() == w[i as int]);
            assert(run(*p, s0, w.take(i + 1)) == step_all(*p, run(*p, s0, w.take(i as int)), w[i as int]));
        }
        i = i + 1;
        if next.len() == 0 {
            proof {
                lemma_run_stays_empty(*p, s0, w, i as int, w.len() as int);
                assert(w.take(w.len() as int) =~= w);
                assert forall|j: nat| !has_final(*p, #[trigger] epsilon_iter(*p, run(*p, s0, w), j)) by {
                    lemma_epsilon_iter_stays_empty(*p, run(*p, s0, w), 0, j);
                }
                lemma_epsilon_iter_stays_empty(*p, run(*p, s0, w), 0, 1);
            }
            return Outcome { accepted: false, consumed: i, epsilon_rounds: 0 };
        }
        cur = next;
    }
    assert(w.take(input.len() as int) =~= w);
    let (accepted, rounds) = close(p, cur);
    Outcome { accepted, consumed: i, epsilon_rounds: rounds }
}

/// Whether the automaton, started from `init`, accepts `input`.
pub fn accepts<P: Pda>(p: &P, init: Vec<Configuration>, input: &[Symbol]) -> (r: bool)
    ensures
        r == accepts_spec(*p, views(init@), input@),
{
    simulate(p, init, input).accepted
}

} // verus!
