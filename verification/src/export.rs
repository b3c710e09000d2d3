//! The three calls that a foreign caller makes, as safe functions on values.
//! What turns pointers into these values lies outside the library.
use crate::buttons::Buttons;
use crate::events::Events;
use crate::geom::Rect;
use crate::kernel::{step, step_events, step_state, stepped};
use crate::params::{default_params, Params};
use crate::single::repr::Single;
use crate::state::{spawned, State};
use crate::trace::buttons_of;
use vstd::prelude::*;

verus! {

/// The default parameters.
pub fn core_default_params() -> (r: Params)
    ensures
        r@ == default_params(),
{
    Params::default()
}

/// A new actor of the given place and size, in the air and at rest.
pub fn core_init_state(x: Single, y: Single, w: Single, h: Single) -> (r: State)
    ensures
        r@ == spawned(x@, y@, w@, h@),
{
    State::spawn(x, y, w, h)
}

/// One step with the buttons that `input_bits` names; bits that name no
/// button are dropped.
pub fn core_step(params: &Params, world: &[Rect], state: &mut State, input_bits: u8) -> (ev:
    Events)
    ensures
        final(state)@ == step_state(
            params@,
            world.deep_view(),
            old(state)@,
            buttons_of(input_bits),
        ),
        ev == step_events(params@, world.deep_view(), old(state)@, buttons_of(input_bits)),
        stepped(*params, world.deep_view(), *old(state), buttons_of(input_bits), *final(state), ev),
{
    step(params, world, state, Buttons::from_bits_truncate(input_bits))
}

} // verus!
