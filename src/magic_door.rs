//! A door that is open exactly when someone stands in front of it alone.
use vstd::prelude::*;

verus! {

/// Whether the door is open.
#[derive(Clone, Copy, Debug, PartialEq, Eq, Structural)]
pub enum State {
    Open,
    Closed,
}

/// What the sensors see.
#[derive(Clone, Copy, Debug, PartialEq, Eq, Structural)]
pub enum Input {
    Front,
    Back,
    Both,
    Neither,
}

/// The start state.
pub const START: State = State::Closed;

/// The transition function: the door opens on `Front` and closes otherwise,
/// whatever its state.
pub open spec fn step_model(state: State, symbol: Input) -> State {
    if symbol == Input::Front {
        State::Open
    } else {
        State::Closed
    }
}

/// The state after reading `w` from `state`.
pub open spec fn run_model(state: State, w: Seq<Input>) -> State
    decreases w.len(),
{
    if w.len() == 0 {
        state
    } else {
        step_model(run_model(state, w.drop_last()), w.last())
    }
}

/// The transition function.
pub fn transition(state: State, symbol: Input) -> (r: State)
    ensures
        r == step_model(state, symbol),
{
    match (state, symbol) {
        (_, Input::Front) => State::Open,
        _ => State::Closed,
    }
}

/// The state after reading `inputs` from `state`.
pub fn run(state: State, inputs: &[Input]) -> (r: State)
    ensures
        r == run_model(state, inputs@),
{
    let mut s = state;
    let mut i: usize = 0;
    while i < inputs.len()
        invariant
            i <= inputs@.len(),
            s == run_model(state, inputs@.take(i as int)),
        decreases inputs.len() - i,
    {
        proof {
            assert(inputs@.take(i + 1).drop_last() =~= inputs@.take(i as int));
        }
        s = transition(s, inputs[i]);
        i = i + 1;
    }
    assert(inputs@.take(inputs@.len() as int) =~= inputs@);
    s
}

/// After a nonempty input the door is open exactly when the last input was
/// `Front`.
pub proof fn lemma_last_input_decides(state: State, w: Seq<Input>)
    requires
        w.len() > 0,
    ensures
        (run_model(state, w) == State::Open) == (w.last() == Input::Front),
{
}

} // verus!
