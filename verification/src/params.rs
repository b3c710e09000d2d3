//! The tunable parameters of the kernel.
use crate::single::model::{val_of_int, val_of_ratio, Val};
use crate::single::repr::Single;
use vstd::prelude::*;
use vstd::string::StringSliceAdditionalSpecFns;
use vstd::utf8::encode_utf8;

verus! {

/// How the actor moves. The record is read, never written, by a step; the host
/// may hand in the same one every tick or a fresh one.
#[derive(Copy, Clone, Debug)]
pub struct Params {
    /// Top speed on the ground, in pixels per second.
    pub ground_max_speed: Single,
    /// Acceleration on the ground toward the held direction.
    pub ground_accel: Single,
    /// Acceleration on the ground while the held direction opposes the motion.
    pub ground_decel: Single,
    /// Deceleration on the ground while no direction is held.
    pub ground_friction: Single,
    /// Factor on the top speed while the run button is held.
    pub run_multiplier: Single,
    /// Top speed in the air.
    pub air_max_speed: Single,
    /// Acceleration in the air toward the held direction.
    pub air_accel: Single,
    /// Acceleration in the air while the held direction opposes the motion.
    pub air_decel: Single,
    /// Deceleration in the air, applied every tick if positive.
    pub air_drag: Single,
    /// Gravity while rising.
    pub gravity_up: Single,
    /// Gravity while falling or at rest.
    pub gravity_down: Single,
    /// The greatest downward speed.
    pub terminal_velocity: Single,
    /// Factor on the downward gravity while the down button is held.
    pub fast_fall_multiplier: Single,
    /// The upward speed that a jump sets.
    pub jump_velocity: Single,
    /// The part of the jump velocity that a rise is cut to on release.
    pub jump_cut_multiplier: Single,
    /// For how long after leaving the ground a jump is still honoured.
    pub coyote_time: Single,
    /// For how long a jump press is remembered.
    pub jump_buffer: Single,
    /// How far below the actor ground is looked for; 0 turns snapping off.
    pub snap_to_ground: Single,
    /// The longest move of one substep, in pixels; at least 1 is used.
    pub max_step_px: Single,
    /// The width of the world; at least 1 is used.
    pub world_w: Single,
    /// 0: no wrap; 1: the actor reappears at the far edge once its whole box
    /// has left the world; 2: the actor's centre wraps around the world's
    /// width.
    pub world_wrap_mode: Single,
}

/// The parameters as numbers of the model.
pub struct ParamsV {
    pub ground_max_speed: Val,
    pub ground_accel: Val,
    pub ground_decel: Val,
    pub ground_friction: Val,
    pub run_multiplier: Val,
    pub air_max_speed: Val,
    pub air_accel: Val,
    pub air_decel: Val,
    pub air_drag: Val,
    pub gravity_up: Val,
    pub gravity_down: Val,
    pub terminal_velocity: Val,
    pub fast_fall_multiplier: Val,
    pub jump_velocity: Val,
    pub jump_cut_multiplier: Val,
    pub coyote_time: Val,
    pub jump_buffer: Val,
    pub snap_to_ground: Val,
    pub max_step_px: Val,
    pub world_w: Val,
    pub world_wrap_mode: Val,
}

impl View for Params {
    type V = ParamsV;

    open spec fn view(&self) -> ParamsV {
        ParamsV {
            ground_max_speed: self.ground_max_speed@,
            ground_accel: self.ground_accel@,
            ground_decel: self.ground_decel@,
            ground_friction: self.ground_friction@,
            run_multiplier: self.run_multiplier@,
            air_max_speed: self.air_max_speed@,
            air_accel: self.air_accel@,
            air_decel: self.air_decel@,
            air_drag: self.air_drag@,
            gravity_up: self.gravity_up@,
            gravity_down: self.gravity_down@,
            terminal_velocity: self.terminal_velocity@,
            fast_fall_multiplier: self.fast_fall_multiplier@,
            jump_velocity: self.jump_velocity@,
            jump_cut_multiplier: self.jump_cut_multiplier@,
            coyote_time: self.coyote_time@,
            jump_buffer: self.jump_buffer@,
            snap_to_ground: self.snap_to_ground@,
            max_step_px: self.max_step_px@,
            world_w: self.world_w@,
            world_wrap_mode: self.world_wrap_mode@,
        }
    }
}

/// The documented defaults.
pub open spec fn default_params() -> ParamsV {
    ParamsV {
        ground_max_speed: val_of_int(260),
        ground_accel: val_of_int(1800),
        ground_decel: val_of_int(2200),
        ground_friction: val_of_int(2600),
        run_multiplier: val_of_ratio(135, 100),
        air_max_speed: val_of_int(220),
        air_accel: val_of_int(1200),
        air_decel: val_of_int(900),
        air_drag: val_of_int(0),
        gravity_up: val_of_int(1500),
        gravity_down: val_of_int(2300),
        terminal_velocity: val_of_int(1200),
        fast_fall_multiplier: val_of_ratio(135, 100),
        jump_velocity: val_of_int(520),
        jump_cut_multiplier: val_of_ratio(45, 100),
        coyote_time: val_of_ratio(85, 1000),
        jump_buffer: val_of_ratio(1, 10),
        snap_to_ground: val_of_int(6),
        max_step_px: val_of_int(6),
        world_w: val_of_int(960),
        world_wrap_mode: val_of_int(1),
    }
}

impl Default for Params {
    fn default() -> (r: Params)
        ensures
            r@ == default_params(),
    {
        Params {
            ground_max_speed: Single::from_i32(260),
            ground_accel: Single::from_i32(1800),
            ground_decel: Single::from_i32(2200),
            ground_friction: Single::from_i32(2600),
            run_multiplier: Single::from_ratio(135, 100),
            air_max_speed: Single::from_i32(220),
            air_accel: Single::from_i32(1200),
            air_decel: Single::from_i32(900),
            air_drag: Single::from_i32(0),
            gravity_up: Single::from_i32(1500),
            gravity_down: Single::from_i32(2300),
            terminal_velocity: Single::from_i32(1200),
            fast_fall_multiplier: Single::from_ratio(135, 100),
            jump_velocity: Single::from_i32(520),
            jump_cut_multiplier: Single::from_ratio(45, 100),
            coyote_time: Single::from_ratio(85, 1000),
            jump_buffer: Single::from_ratio(1, 10),
            snap_to_ground: Single::from_i32(6),
            max_step_px: Single::from_i32(6),
            world_w: Single::from_i32(960),
            world_wrap_mode: Single::from_i32(1),
        }
    }
}

/// The number of parameters.
pub const PARAM_COUNT: usize = 21;

/// The name of the parameter of the given index, in the order of the record;
/// empty beyond the last.
pub open spec fn name_of(index: int) -> Seq<char> {
    if index == 0 {
        "ground_max_speed"@
    }     else if index == 1 {
        "ground_accel"@
    }     else if index == 2 {
        "ground_decel"@
    }     else if index == 3 {
        "ground_friction"@
    }     else if index == 4 {
        "run_multiplier"@
    }     else if index == 5 {
        "air_max_speed"@
    }     else if index == 6 {
        "air_accel"@
    }     else if index == 7 {
        "air_decel"@
    }     else if index == 8 {
        "air_drag"@
    }     else if index == 9 {
        "gravity_up"@
    }     else if index == 10 {
        "gravity_down"@
    }     else if index == 11 {
        "terminal_velocity"@
    }     else if index == 12 {
        "fast_fall_multiplier"@
    }     else if index == 13 {
        "jump_velocity"@
    }     else if index == 14 {
        "jump_cut_multiplier"@
    }     else if index == 15 {
        "coyote_time"@
    }     else if index == 16 {
        "jump_buffer"@
    }     else if index == 17 {
        "snap_to_ground"@
    }     else if index == 18 {
        "max_step_px"@
    }     else if index == 19 {
        "world_w"@
    }     else if index == 20 {
        "world_wrap_mode"@
    } else {
        ""@
    }
}

impl ParamsV {
    /// The parameter of the given index.
    pub open spec fn get(self, index: int) -> Val {
        if index == 0 {
            self.ground_max_speed
        }         else if index == 1 {
            self.ground_accel
        }         else if index == 2 {
            self.ground_decel
        }         else if index == 3 {
            self.ground_friction
        }         else if index == 4 {
            self.run_multiplier
        }         else if index == 5 {
            self.air_max_speed
        }         else if index == 6 {
            self.air_accel
        }         else if index == 7 {
            self.air_decel
        }         else if index == 8 {
            self.air_drag
        }         else if index == 9 {
            self.gravity_up
        }         else if index == 10 {
            self.gravity_down
        }         else if index == 11 {
            self.terminal_velocity
        }         else if index == 12 {
            self.fast_fall_multiplier
        }         else if index == 13 {
            self.jump_velocity
        }         else if index == 14 {
            self.jump_cut_multiplier
        }         else if index == 15 {
            self.coyote_time
        }         else if index == 16 {
            self.jump_buffer
        }         else if index == 17 {
            self.snap_to_ground
        }         else if index == 18 {
            self.max_step_px
        }         else if index == 19 {
            self.world_w
        }         else if index == 20 {
            self.world_wrap_mode
        } else {
            Val::Nan
        }
    }

    /// The parameters with the one of the given index replaced; unchanged for
    /// an index beyond the last.
    pub open spec fn with(self, index: int, value: Val) -> ParamsV {
        if index == 0 {
            ParamsV { ground_max_speed: value, ..self }
        }         else if index == 1 {
            ParamsV { ground_accel: value, ..self }
        }         else if index == 2 {
            ParamsV { ground_decel: value, ..self }
        }         else if index == 3 {
            ParamsV { ground_friction: value, ..self }
        }         else if index == 4 {
            ParamsV { run_multiplier: value, ..self }
        }         else if index == 5 {
            ParamsV { air_max_speed: value, ..self }
        }         else if index == 6 {
            ParamsV { air_accel: value, ..self }
        }         else if index == 7 {
            ParamsV { air_decel: value, ..self }
        }         else if index == 8 {
            ParamsV { air_drag: value, ..self }
        }         else if index == 9 {
            ParamsV { gravity_up: value, ..self }
        }         else if index == 10 {
            ParamsV { gravity_down: value, ..self }
        }         else if index == 11 {
            ParamsV { terminal_velocity: value, ..self }
        }         else if index == 12 {
            ParamsV { fast_fall_multiplier: value, ..self }
        }         else if index == 13 {
            ParamsV { jump_velocity: value, ..self }
        }         else if index == 14 {
            ParamsV { jump_cut_multiplier: value, ..self }
        }         else if index == 15 {
            ParamsV { coyote_time: value, ..self }
        }         else if index == 16 {
            ParamsV { jump_buffer: value, ..self }
        }         else if index == 17 {
            ParamsV { snap_to_ground: value, ..self }
        }         else if index == 18 {
            ParamsV { max_step_px: value, ..self }
        }         else if index == 19 {
            ParamsV { world_w: value, ..self }
        }         else if index == 20 {
            ParamsV { world_wrap_mode: value, ..self }
        } else {
            self
        }
    }
}

/// The name of the parameter of the given index.
pub fn param_name(index: usize) -> (r: &'static str)
    requires
        index < PARAM_COUNT,
    ensures
        r@ == name_of(index as int),
{
    if index == 0 {
        "ground_max_speed"
    }     else if index == 1 {
        "ground_accel"
    }     else if index == 2 {
        "ground_decel"
    }     else if index == 3 {
        "ground_friction"
    }     else if index == 4 {
        "run_multiplier"
    }     else if index == 5 {
        "air_max_speed"
    }     else if index == 6 {
        "air_accel"
    }     else if index == 7 {
        "air_decel"
    }     else if index == 8 {
        "air_drag"
    }     else if index == 9 {
        "gravity_up"
    }     else if index == 10 {
        "gravity_down"
    }     else if index == 11 {
        "terminal_velocity"
    }     else if index == 12 {
        "fast_fall_multiplier"
    }     else if index == 13 {
        "jump_velocity"
    }     else if index == 14 {
        "jump_cut_multiplier"
    }     else if index == 15 {
        "coyote_time"
    }     else if index == 16 {
        "jump_buffer"
    }     else if index == 17 {
        "snap_to_ground"
    }     else if index == 18 {
        "max_step_px"
    }     else if index == 19 {
        "world_w"
    } else {
        "world_wrap_mode"
    }
}

/// Whether two byte strings are equal.
pub fn bytes_eq(a: &[u8], b: &[u8]) -> (r: bool)
    ensures
        r == (a@ == b@),
{
    if a.len() != b.len() {
        return false;
    }
    let mut i: usize = 0;
    while i < a.len()
        invariant
            a@.len() == b@.len(),
            i <= a@.len(),
            forall|k: int| 0 <= k < i ==> a@[k] == b@[k],
        decreases a@.len() - i,
    {
        if a[i] != b[i] {
            return false;
        }
        i = i + 1;
    }
    assert(a@ =~= b@);
    true
}

/// The least index from `from` on whose parameter has the name `name`, given
/// in UTF-8.
pub open spec fn index_from(name: Seq<u8>, from: int) -> Option<int>
    decreases PARAM_COUNT - from,
{
    if from < 0 || from >= PARAM_COUNT {
        None
    } else if name == encode_utf8(name_of(from)) {
        Some(from)
    } else {
        index_from(name, from + 1)
    }
}

/// The index of the parameter that `name` names, if it names one.
pub fn param_index(name: &str) -> (r: Option<usize>)
    ensures
        match r {
            Some(i) => i < PARAM_COUNT && index_from(name.spec_bytes(), 0) == Some(i as int),
            None => index_from(name.spec_bytes(), 0) is None,
        },
{
    let mut i: usize = 0;
    while i < PARAM_COUNT
        invariant
            i <= PARAM_COUNT,
            index_from(name.spec_bytes(), 0) == index_from(name.spec_bytes(), i as int),
        decreases PARAM_COUNT - i,
    {
        if bytes_eq(name.as_bytes(), param_name(i).as_bytes()) {
            return Some(i);
        }
        i = i + 1;
    }
    None
}

impl Params {
    /// The parameter of the given index.
    pub fn get(&self, index: usize) -> (r: Single)
        requires
            index < PARAM_COUNT,
        ensures
            r@ == self@.get(index as int),
    {
        if index == 0 {
            self.ground_max_speed
        }         else if index == 1 {
            self.ground_accel
        }         else if index == 2 {
            self.ground_decel
        }         else if index == 3 {
            self.ground_friction
        }         else if index == 4 {
            self.run_multiplier
        }         else if index == 5 {
            self.air_max_speed
        }         else if index == 6 {
            self.air_accel
        }         else if index == 7 {
            self.air_decel
        }         else if index == 8 {
            self.air_drag
        }         else if index == 9 {
            self.gravity_up
        }         else if index == 10 {
            self.gravity_down
        }         else if index == 11 {
            self.terminal_velocity
        }         else if index == 12 {
            self.fast_fall_multiplier
        }         else if index == 13 {
            self.jump_velocity
        }         else if index == 14 {
            self.jump_cut_multiplier
        }         else if index == 15 {
            self.coyote_time
        }         else if index == 16 {
            self.jump_buffer
        }         else if index == 17 {
            self.snap_to_ground
        }         else if index == 18 {
            self.max_step_px
        }         else if index == 19 {
            self.world_w
        } else {
            self.world_wrap_mode
        }
    }

    /// Replaces the parameter of the given index.
    pub fn set(&mut self, index: usize, value: Single)
        requires
            index < PARAM_COUNT,
        ensures
            final(self)@ == old(self)@.with(index as int, value@),
    {
        if index == 0 {
            self.ground_max_speed = value;
        }         else if index == 1 {
            self.ground_accel = value;
        }         else if index == 2 {
            self.ground_decel = value;
        }         else if index == 3 {
            self.ground_friction = value;
        }         else if index == 4 {
            self.run_multiplier = value;
        }         else if index == 5 {
            self.air_max_speed = value;
        }         else if index == 6 {
            self.air_accel = value;
        }         else if index == 7 {
            self.air_decel = value;
        }         else if index == 8 {
            self.air_drag = value;
        }         else if index == 9 {
            self.gravity_up = value;
        }         else if index == 10 {
            self.gravity_down = value;
        }         else if index == 11 {
            self.terminal_velocity = value;
        }         else if index == 12 {
            self.fast_fall_multiplier = value;
        }         else if index == 13 {
            self.jump_velocity = value;
        }         else if index == 14 {
            self.jump_cut_multiplier = value;
        }         else if index == 15 {
            self.coyote_time = value;
        }         else if index == 16 {
            self.jump_buffer = value;
        }         else if index == 17 {
            self.snap_to_ground = value;
        }         else if index == 18 {
            self.max_step_px = value;
        }         else if index == 19 {
            self.world_w = value;
        } else {
            self.world_wrap_mode = value;
        }
    }

    /// Replaces the parameter that `name` names and returns true; for a name
    /// that names none, changes nothing and returns false.
    pub fn set_by_name(&mut self, name: &str, value: Single) -> (known: bool)
        ensures
            known == index_from(name.spec_bytes(), 0) is Some,
            final(self)@ == match index_from(name.spec_bytes(), 0) {
                Some(i) => old(self)@.with(i, value@),
                None => old(self)@,
            },
    {
        match param_index(name) {
            Some(i) => {
                self.set(i, value);
                true
            },
            None => false,
        }
    }
}

} // verus!
