//! Runs of many ticks.
use crate::buttons::{Buttons, ALL_BITS};
use crate::events::Events;
use crate::geom::{Rect, RectV};
use crate::kernel::{step, step_events, step_state, stepped};
use crate::params::{Params, ParamsV};
use crate::state::{State, StateV};
use vstd::prelude::*;

verus! {

/// The state after a tick and the events of that tick.
#[derive(Copy, Clone, Debug)]
pub struct Frame {
    pub state: State,
    pub events: Events,
}

/// The buttons that the bits of one tick name.
pub open spec fn buttons_of(bits: u8) -> Buttons {
    Buttons { bits: bits & ALL_BITS }
}

/// The state after the first `n` ticks of `inputs`, one step per tick.
pub open spec fn state_after(
    p: ParamsV,
    world: Seq<RectV>,
    start: StateV,
    inputs: Seq<u8>,
    n: int,
) -> StateV
    decreases n,
{
    if n <= 0 {
        start
    } else {
        step_state(p, world, state_after(p, world, start, inputs, n - 1), buttons_of(inputs[n - 1]))
    }
}

/// The events of tick `i`.
pub open spec fn events_at(
    p: ParamsV,
    world: Seq<RectV>,
    start: StateV,
    inputs: Seq<u8>,
    i: int,
) -> Events {
    step_events(p, world, state_after(p, world, start, inputs, i), buttons_of(inputs[i]))
}

/// The state from which tick `i` of a run begins: the initial one, or the
/// one that the tick before has left.
pub open spec fn state_before(start: State, frames: Seq<Frame>, i: int) -> State {
    if 0 < i <= frames.len() {
        frames[i - 1].state
    } else {
        start
    }
}

/// Steps the actor once for every entry of `inputs`, the button bits of
/// that tick, and returns the state after each tick with the tick's events.
pub fn run(params: &Params, world: &[Rect], state: &mut State, inputs: &[u8]) -> (frames: Vec<
    Frame,
>)
    ensures
        frames@.len() == inputs@.len(),
        forall|i: int|
            0 <= i < inputs@.len() ==> (#[trigger] frames@[i]).state@ == state_after(
                params@,
                world.deep_view(),
                old(state)@,
                inputs@,
                i + 1,
            ),
        forall|i: int|
            0 <= i < inputs@.len() ==> (#[trigger] frames@[i]).events == events_at(
                params@,
                world.deep_view(),
                old(state)@,
                inputs@,
                i,
            ),
        final(state)@ == state_after(
            params@,
            world.deep_view(),
            old(state)@,
            inputs@,
            inputs@.len() as int,
        ),
        *final(state) == state_before(*old(state), frames@, inputs@.len() as int),
        forall|i: int|
            0 <= i < inputs@.len() ==> stepped(
                *params,
                world.deep_view(),
                state_before(*old(state), frames@, i),
                buttons_of(inputs@[i]),
                (#[trigger] frames@[i]).state,
                frames@[i].events,
            ),
{
    let n: usize = inputs.len();
    let ghost start = state@;
    let ghost first = *state;
    let ghost w = world.deep_view();
    let mut frames: Vec<Frame> = Vec::new();
    let mut i: usize = 0;
    while i < n
        invariant
            n == inputs@.len(),
            i <= n,
            w == world.deep_view(),
            frames@.len() == i,
            state@ == state_after(params@, w, start, inputs@, i as int),
            *state == state_before(first, frames@, i as int),
            forall|j: int|
                0 <= j < i ==> stepped(
                    *params,
                    w,
                    state_before(first, frames@, j),
                    buttons_of(inputs@[j]),
                    (#[trigger] frames@[j]).state,
                    frames@[j].events,
                ),
            forall|j: int|
                0 <= j < i ==> (#[trigger] frames@[j]).state@ == state_after(
                    params@,
                    w,
                    start,
                    inputs@,
                    j + 1,
                ),
            forall|j: int|
                0 <= j < i ==> (#[trigger] frames@[j]).events == events_at(
                    params@,
                    w,
                    start,
                    inputs@,
                    j,
                ),
        decreases n - i,
    {
        let buttons = Buttons::from_bits_truncate(inputs[i]);
        let events = step(params, world, state, buttons);
        frames.push(Frame { state: *state, events });
        i = i + 1;
    }
    frames
}

} // verus!
