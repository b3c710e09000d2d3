//! A self-contained actor for a managed host: parameters, state and world in
//! one value that the host steps once per tick.
use crate::buttons::Buttons;
use crate::geom::{Rect, RectV};
use crate::events::Events;
use crate::kernel::{step, step_events, step_state, stepped};
use crate::params::{default_params, index_from, Params, ParamsV};
use crate::single::model::val_of_int;
use crate::single::repr::Single;
use crate::state::{spawned, State, StateV};
use crate::trace::buttons_of;
use vstd::prelude::*;
use vstd::string::StringSliceAdditionalSpecFns;

verus! {

/// Parameters, actor and world of one simulation.
pub struct Core {
    pub params: Params,
    pub state: State,
    pub world: Vec<Rect>,
}

/// What a step of a [`Core`] hands to the host: the state after the tick and
/// the events of the tick.
#[derive(Copy, Clone, Debug)]
pub struct StepReport {
    pub x: Single,
    pub y: Single,
    pub vx: Single,
    pub vy: Single,
    pub grounded: bool,
    pub coyote: Single,
    pub jump_buffer: Single,
    pub jumped: bool,
    pub landed: bool,
    pub bonked: bool,
}

/// The rectangles of a world as the model sees them.
pub open spec fn rects_view(world: Seq<Rect>) -> Seq<RectV> {
    Seq::new(world.len(), |i: int| world[i]@)
}

/// The rectangles that a flat list of numbers packs, four numbers each: x, y,
/// width, height. Numbers left over at the end belong to no rectangle.
pub open spec fn unpacked(flat: Seq<Single>) -> Seq<RectV> {
    Seq::new(
        flat.len() / 4,
        |i: int|
            RectV { x: flat[4 * i]@, y: flat[4 * i + 1]@, w: flat[4 * i + 2]@, h: flat[4 * i + 3]@ },
    )
}

/// The parameters that a new [`Core`] starts with: the defaults, in a world
/// 960 wide with the torus wrap.
pub open spec fn starting_params() -> ParamsV {
    ParamsV { world_w: val_of_int(960), world_wrap_mode: val_of_int(2), ..default_params() }
}

/// The floor that a new [`Core`] starts with.
pub open spec fn starting_floor() -> RectV {
    RectV { x: val_of_int(0), y: val_of_int(480), w: val_of_int(960), h: val_of_int(60) }
}

impl Core {
    /// A simulation with the default parameters, one floor, and the actor
    /// standing by on it.
    pub fn new() -> (r: Core)
        ensures
            r.params@ == starting_params(),
            r.state@ == spawned(val_of_int(80), val_of_int(436), val_of_int(28), val_of_int(44)),
            rects_view(r.world@) == seq![starting_floor()],
    {
        let mut params = Params::default();
        params.world_w = Single::from_i32(960);
        params.world_wrap_mode = Single::from_i32(2);
        let state = State::spawn(
            Single::from_i32(80),
            Single::from_i32(436),
            Single::from_i32(28),
            Single::from_i32(44),
        );
        let mut world: Vec<Rect> = Vec::new();
        world.push(
            Rect {
                x: Single::from_i32(0),
                y: Single::from_i32(480),
                w: Single::from_i32(960),
                h: Single::from_i32(60),
            },
        );
        assert(rects_view(world@) =~= seq![starting_floor()]);
        Core { params, state, world }
    }

    /// Puts a new actor of the given place and size in the place of the old.
    pub fn reset(&mut self, x: Single, y: Single, w: Single, h: Single)
        ensures
            final(self).state@ == spawned(x@, y@, w@, h@),
            final(self).params == old(self).params,
            final(self).world == old(self).world,
    {
        self.state = State::spawn(x, y, w, h);
    }

    /// Replaces the world by the rectangles that `rects` packs, four numbers
    /// each.
    pub fn set_world(&mut self, rects: &[Single])
        ensures
            rects_view(final(self).world@) == unpacked(rects@),
            final(self).params == old(self).params,
            final(self).state == old(self).state,
    {
        let n: usize = rects.len() / 4;
        let mut world: Vec<Rect> = Vec::new();
        let mut i: usize = 0;
        while i < n
            invariant
                n == rects@.len() / 4,
                rects@.len() <= usize::MAX,
                i <= n,
                world@.len() == i,
                forall|k: int| 0 <= k < i ==> (#[trigger] world@[k])@ == unpacked(rects@)[k],
            decreases n - i,
        {
            world.push(
                Rect {
                    x: rects[4 * i],
                    y: rects[4 * i + 1],
                    w: rects[4 * i + 2],
                    h: rects[4 * i + 3],
                },
            );
            i = i + 1;
        }
        assert(rects_view(world@) =~= unpacked(rects@));
        self.world = world;
    }

    /// Replaces the parameter that `name` names and returns true; a name that
    /// names none is passed over.
    pub fn set_param(&mut self, name: &str, value: Single) -> (known: bool)
        ensures
            known == index_from(name.spec_bytes(), 0) is Some,
            final(self).params@ == match index_from(name.spec_bytes(), 0) {
                Some(i) => old(self).params@.with(i, value@),
                None => old(self).params@,
            },
            final(self).state == old(self).state,
            final(self).world == old(self).world,
    {
        self.params.set_by_name(name, value)
    }

    /// Steps the actor once with the buttons that `input_bits` names.
    pub fn step(&mut self, input_bits: u8) -> (r: StepReport)
        ensures
            final(self).params == old(self).params,
            final(self).world == old(self).world,
            final(self).state@ == step_state(
                old(self).params@,
                rects_view(old(self).world@),
                old(self).state@,
                buttons_of(input_bits),
            ),
            r.x == final(self).state.x && r.y == final(self).state.y,
            r.vx == final(self).state.vx && r.vy == final(self).state.vy,
            r.coyote == final(self).state.coyote && r.jump_buffer == final(self).state.jump_buffer,
            stepped(
                old(self).params,
                rects_view(old(self).world@),
                old(self).state,
                buttons_of(input_bits),
                final(self).state,
                step_events(
                    old(self).params@,
                    rects_view(old(self).world@),
                    old(self).state@,
                    buttons_of(input_bits),
                ),
            ),
            r.reports(
                final(self).state@,
                step_events(
                    old(self).params@,
                    rects_view(old(self).world@),
                    old(self).state@,
                    buttons_of(input_bits),
                ),
            ),
    {
        let buttons = Buttons::from_bits_truncate(input_bits);
        let world = self.world.as_slice();
        assert(world.deep_view() =~= rects_view(world@));
        let ev = step(&self.params, world, &mut self.state, buttons);
        StepReport {
            x: self.state.x,
            y: self.state.y,
            vx: self.state.vx,
            vy: self.state.vy,
            grounded: self.state.grounded != 0,
            coyote: self.state.coyote,
            jump_buffer: self.state.jump_buffer,
            jumped: ev.jumped != 0,
            landed: ev.landed != 0,
            bonked: ev.bonked != 0,
        }
    }
}

impl StepReport {
    /// The report is that of the state `s` and the events `ev`.
    pub open spec fn reports(self, s: StateV, ev: Events) -> bool {
        &&& self.x@ == s.x
        &&& self.y@ == s.y
        &&& self.vx@ == s.vx
        &&& self.vy@ == s.vy
        &&& self.grounded == (s.grounded != 0)
        &&& self.coyote@ == s.coyote
        &&& self.jump_buffer@ == s.jump_buffer
        &&& self.jumped == (ev.jumped != 0)
        &&& self.landed == (ev.landed != 0)
        &&& self.bonked == (ev.bonked != 0)
    }
}

} // verus!
