//! A deterministic finite automaton over bits for the words `1 0 0 0* 1+`,
//! written once as a transition table and once with the state implicit in
//! which function is running.
use vstd::prelude::*;
use vstd::string::*;

verus! {

/// A state of the automaton.
pub type DfaState = u8;

/// An input bit.
pub type Input = bool;

pub const ZERO: Input = false;

pub const ONE: Input = true;

/// The start state.
pub const START: DfaState = 0;

/// The only accepting state.
pub const FINAL: DfaState = 4;

/// The transition table; `None` means the automaton is stuck.
pub open spec fn step_model(state: DfaState, symbol: Input) -> Option<DfaState> {
    if state == 0 && symbol == ONE {
        Some(1)
    } else if state == 1 && symbol == ZERO {
        Some(2)
    } else if state == 2 && symbol == ZERO {
        Some(3)
    } else if state == 3 && symbol == ZERO {
        Some(3)
    } else if state == 3 && symbol == ONE {
        Some(4)
    } else if state == 4 && symbol == ONE {
        Some(4)
    } else {
        None
    }
}

/// The state reached from `state` after reading `w`, or `None` once stuck.
pub open spec fn run_from(state: DfaState, w: Seq<Input>) -> Option<DfaState>
    decreases w.len(),
{
    if w.len() == 0 {
        Some(state)
    } else {
        match step_model(state, w[0]) {
            None => None,
            Some(t) => run_from(t, w.drop_first()),
        }
    }
}

/// The state reached from `state` after reading `w`, one symbol at a time
/// from the end (the same map as [`run_from`], see [`lemma_run_split`]).
pub open spec fn run_prefix(state: Option<DfaState>, w: Seq<Input>) -> Option<DfaState>
    decreases w.len(),
{
    if w.len() == 0 {
        state
    } else {
        match run_prefix(state, w.drop_last()) {
            None => None,
            Some(s) => step_model(s, w.last()),
        }
    }
}

/// Whether the automaton accepts `w`.
pub open spec fn accepts_model(w: Seq<Input>) -> bool {
    run_from(START, w) == Some(FINAL)
}

/// Reading `w` symbol by symbol from the front or from the back gives the
/// same state.
pub proof fn lemma_run_split(state: DfaState, w: Seq<Input>)
    ensures
        run_prefix(Some(state), w) == run_from(state, w),
    decreases w.len(),
{
    if w.len() > 0 {
        match step_model(state, w[0]) {
            None => {
                lemma_run_stuck(w.drop_first());
                assert(run_prefix(Some(state), w) == None::<DfaState>) by {
                    lemma_run_prefix_first(state, w);
                }
            },
            Some(t) => {
                lemma_run_split(t, w.drop_first());
                lemma_run_prefix_first(state, w);
            },
        }
    }
}

proof fn lemma_run_stuck(w: Seq<Input>)
    ensures
        run_prefix(None, w) == None::<DfaState>,
    decreases w.len(),
{
    if w.len() > 0 {
        lemma_run_stuck(w.drop_last());
    }
}

proof fn lemma_run_prefix_first(state: DfaState, w: Seq<Input>)
    requires
        w.len() > 0,
    ensures
        run_prefix(Some(state), w) == run_prefix(step_model(state, w[0]), w.drop_first()),
    decreases w.len(),
{
    if w.len() > 1 {
        lemma_run_prefix_first(state, w.drop_last());
        assert(w.drop_last().drop_first() =~= w.drop_first().drop_last());
        assert(w.drop_last()[0] == w[0]);
        assert(w.drop_first().last() == w.last());
        let x = run_prefix(step_model(state, w[0]), w.drop_first().drop_last());
        assert(run_prefix(Some(state), w.drop_last()) == x);
        assert(run_prefix(step_model(state, w[0]), w.drop_first()) == match x {
            None => None,
            Some(y) => step_model(y, w.last()),
        });
    } else {
        assert(w.last() == w[0]);
        assert(w.drop_first() =~= Seq::<Input>::empty());
        assert(w.drop_last() =~= Seq::<Input>::empty());
    }
}

/// The transition table.
pub fn transition(state: DfaState, symbol: Input) -> (r: Option<DfaState>)
    ensures
        r == step_model(state, symbol),
{
    match (state, symbol) {
        (0, ONE) => Some(1),
        (1, ZERO) => Some(2),
        (2, ZERO) => Some(3),
        (3, ZERO) => Some(3),
        (3, ONE) => Some(4),
        (4, ONE) => Some(4),
        _ => None,
    }
}

/// Runs the table over `inputs` from the start state; `None` once stuck.
pub fn run(inputs: &[Input]) -> (r: Option<DfaState>)
    ensures
        r == run_from(START, inputs@),
{
    let mut state: Option<DfaState> = Some(START);
    let mut i: usize = 0;
    while i < inputs.len()
        invariant
            i <= inputs@.len(),
            state == run_prefix(Some(START), inputs@.take(i as int)),
        decreases inputs.len() - i,
    {
        proof {
            assert(inputs@.take(i + 1).drop_last() =~= inputs@.take(i as int));
        }
        state = match state {
            None => None,
            Some(s) => transition(s, inputs[i]),
        };
        i = i + 1;
    }
    proof {
        assert(inputs@.take(inputs@.len() as int) =~= inputs@);
        lemma_run_split(START, inputs@);
    }
    state
}

/// Whether the automaton accepts `inputs`.
pub fn accepts(inputs: &[Input]) -> (r: bool)
    ensures
        r == accepts_model(inputs@),
{
    match run(inputs) {
        Some(s) => s == FINAL,
        None => false,
    }
}

/// Reads the first symbol of `inputs` and hands the rest to the next state's
/// function; `None` on empty input.
fn split(inputs: &[Input]) -> (r: Option<(Input, &[Input])>)
    ensures
        inputs@.len() == 0 <==> r is None,
        r matches Some((x, rest)) ==> x == inputs@[0] && rest@ == inputs@.drop_first(),
{
    if inputs.len() == 0 {
        None
    } else {
        let (first, rest) = inputs.split_at(1);
        assert(rest@ =~= inputs@.drop_first());
        Some((first[0], rest))
    }
}

/// State 0 of the automaton with implicit state: whether the rest of the
/// input is accepted from here.
pub fn transition0(inputs: &[Input]) -> (r: bool)
    ensures
        r == (run_from(0, inputs@) == Some(FINAL)),
    decreases inputs@.len(), 4nat,
{
    match split(inputs) {
        None => false,
        Some((input, rest)) => if input == ONE {
            transition1(rest)
        } else {
            false
        },
    }
}

/// State 1 of the automaton with implicit state.
pub fn transition1(inputs: &[Input]) -> (r: bool)
    ensures
        r == (run_from(1, inputs@) == Some(FINAL)),
    decreases inputs@.len(), 3nat,
{
    match split(inputs) {
        None => false,
        Some((input, rest)) => if input == ZERO {
            transition2(rest)
        } else {
            false
        },
    }
}

/// State 2 of the automaton with implicit state.
pub fn transition2(inputs: &[Input]) -> (r: bool)
    ensures
        r == (run_from(2, inputs@) == Some(FINAL)),
    decreases inputs@.len(), 2nat,
{
    match split(inputs) {
        None => false,
        Some((input, rest)) => if input == ZERO {
            transition3(rest)
        } else {
            false
        },
    }
}

/// State 3 of the automaton with implicit state.
pub fn transition3(inputs: &[Input]) -> (r: bool)
    ensures
        r == (run_from(3, inputs@) == Some(FINAL)),
    decreases inputs@.len(), 1nat,
{
    match split(inputs) {
        None => false,
        Some((input, rest)) => if input == ZERO {
            transition3(rest)
        } else {
            transition4(rest)
        },
    }
}

/// State 4 of the automaton with implicit state, the accepting one.
pub fn transition4(inputs: &[Input]) -> (r: bool)
    ensures
        r == (run_from(4, inputs@) == Some(FINAL)),
    decreases inputs@.len(), 0nat,
{
    match split(inputs) {
        None => true,
        Some((input, rest)) => if input == ONE {
            transition4(rest)
        } else {
            false
        },
    }
}

/// The text of a bit.
pub open spec fn bit_text(symbol: Input) -> Seq<char> {
    if symbol {
        "1"@
    } else {
        "0"@
    }
}

/// The decimal digits of `n`.
pub open spec fn decimal(n: nat) -> Seq<char>
    decreases n,
{
    if n < 10 {
        seq![digit_char(n)]
    } else {
        decimal(n / 10).push(digit_char(n % 10))
    }
}

/// The character of a decimal digit.
pub open spec fn digit_char(d: nat) -> char {
    ((d + 48) as u8) as char
}

/// The text of a state: `q` and its number, or `STUCK`.
pub open spec fn state_text(state: Option<DfaState>) -> Seq<char> {
    match state {
        None => "STUCK"@,
        Some(s) => "q"@ + decimal(s as nat),
    }
}

/// The text of a bit: `1` or `0`.
pub fn input_to_string(symbol: Input) -> (r: String)
    ensures
        r@ == bit_text(symbol),
{
    if symbol {
        String::from_str("1")
    } else {
        String::from_str("0")
    }
}

fn push_digit(s: &mut String, d: u8)
    requires
        d < 10,
    ensures
        final(s)@ == old(s)@.push(digit_char(d as nat)),
{
    let t = match d {
        0 => "0",
        1 => "1",
        2 => "2",
        3 => "3",
        4 => "4",
        5 => "5",
        6 => "6",
        7 => "7",
        8 => "8",
        _ => "9",
    };
    proof {
        reveal_strlit("0");
        reveal_strlit("1");
        reveal_strlit("2");
        reveal_strlit("3");
        reveal_strlit("4");
        reveal_strlit("5");
        reveal_strlit("6");
        reveal_strlit("7");
        reveal_strlit("8");
        reveal_strlit("9");
    }
    s.append(t);
    assert(final(s)@ =~= old(s)@.push(digit_char(d as nat)));
}

/// The text of a state: `q` and its number, or `STUCK` when there is none.
pub fn state_to_string(state: Option<DfaState>) -> (r: String)
    ensures
        r@ == state_text(state),
{
    match state {
        None => String::from_str("STUCK"),
        Some(n) => {
            let mut s = String::from_str("q");
            if n >= 100 {
                push_digit(&mut s, n / 100);
            }
            if n >= 10 {
                push_digit(&mut s, (n / 10) % 10);
            }
            push_digit(&mut s, n % 10);
            proof {
                let m = n as nat;
                if m >= 100 {
                    assert(decimal(m / 100) == seq![digit_char(m / 100)]);
                    assert(decimal(m / 10) == decimal(m / 100).push(digit_char((m / 10) % 10))) by {
                        assert((m / 10) / 10 == m / 100);
                    }
                } else if m >= 10 {
                    assert(decimal(m / 10) == seq![digit_char(m / 10)]);
                }
                assert(s@ =~= "q"@ + decimal(m));
            }
            s
        },
    }
}

} // verus!
