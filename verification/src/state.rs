//! The state of one actor.
use crate::single::model::Val;
use crate::single::repr::Single;
use vstd::prelude::*;

verus! {

/// What persists of an actor from tick to tick. The host owns the record; a
/// step changes it in place.
#[derive(Copy, Clone, Debug)]
pub struct State {
    pub x: Single,
    pub y: Single,
    pub vx: Single,
    pub vy: Single,
    pub w: Single,
    pub h: Single,
    /// Not 0 while the actor stands on ground.
    pub grounded: u8,
    /// The time left in which a jump is still honoured after leaving ground.
    pub coyote: Single,
    /// The time left for which a jump press is remembered.
    pub jump_buffer: Single,
    /// Not 0 if the jump button was held during the last tick.
    pub jump_was_down: u8,
}

/// The state as numbers of the model.
pub struct StateV {
    pub x: Val,
    pub y: Val,
    pub vx: Val,
    pub vy: Val,
    pub w: Val,
    pub h: Val,
    pub grounded: u8,
    pub coyote: Val,
    pub jump_buffer: Val,
    pub jump_was_down: u8,
}

impl View for State {
    type V = StateV;

    open spec fn view(&self) -> StateV {
        StateV {
            x: self.x@,
            y: self.y@,
            vx: self.vx@,
            vy: self.vy@,
            w: self.w@,
            h: self.h@,
            grounded: self.grounded,
            coyote: self.coyote@,
            jump_buffer: self.jump_buffer@,
            jump_was_down: self.jump_was_down,
        }
    }
}

/// An actor of the given place and size, at rest in the air with no timer
/// running.
pub open spec fn spawned(x: Val, y: Val, w: Val, h: Val) -> StateV {
    StateV {
        x,
        y,
        vx: Val::zero(),
        vy: Val::zero(),
        w,
        h,
        grounded: 0,
        coyote: Val::zero(),
        jump_buffer: Val::zero(),
        jump_was_down: 0,
    }
}

impl Default for State {
    fn default() -> (r: State)
        ensures
            r@ == spawned(Val::zero(), Val::zero(), Val::zero(), Val::zero()),
    {
        State::spawn(
            Single::zero(false),
            Single::zero(false),
            Single::zero(false),
            Single::zero(false),
        )
    }
}

impl State {
    /// A new actor of the given place and size, with zeroed dynamics.
    pub fn spawn(x: Single, y: Single, w: Single, h: Single) -> (r: State)
        ensures
            r@ == spawned(x@, y@, w@, h@),
    {
        State {
            x,
            y,
            vx: Single::zero(false),
            vy: Single::zero(false),
            w,
            h,
            grounded: 0,
            coyote: Single::zero(false),
            jump_buffer: Single::zero(false),
            jump_was_down: 0,
        }
    }
}

} // verus!
