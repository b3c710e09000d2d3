//! A fixed run of 180 ticks on one floor, held against its known trajectory.
use platlab_core::{step, Buttons, Params, Rect, Single, State};

fn num(v: f32) -> Single {
    Single::from_bits(v.to_bits())
}

fn val(s: Single) -> f32 {
    f32::from_bits(s.to_bits())
}

fn approx_eq(a: f32, b: f32) {
    let eps = 1e-4;
    assert!((a - b).abs() <= eps, "expected {b}, got {a} (diff {})", (a - b).abs());
}

#[test]
fn deterministic_fixed_input_sequence_180_frames() {
    let mut params = Params::default();
    params.world_w = num(960.0);

    let world = [Rect { x: num(0.0), y: num(480.0), w: num(960.0), h: num(60.0) }];

    let mut state = State {
        x: num(80.0),
        y: num(480.0 - 44.0),
        w: num(28.0),
        h: num(44.0),
        ..State::default()
    };

    let mut jumped = 0u32;
    let mut landed = 0u32;
    let mut bonked = 0u32;
    let mut trace_hash = 0xcbf29ce484222325u64;

    for frame in 0..180 {
        let mut buttons = Buttons::empty();
        if frame < 120 {
            buttons.insert(Buttons::right());
        }
        if frame == 10 {
            buttons.insert(Buttons::jump());
        }

        let ev = step(&params, &world, &mut state, buttons);
        jumped += ev.jumped as u32;
        landed += ev.landed as u32;
        bonked += ev.bonked as u32;

        for value in [
            val(state.x).round() as i64,
            val(state.y).round() as i64,
            val(state.vx).round() as i64,
            val(state.vy).round() as i64,
            state.grounded as i64,
        ] {
            for b in value.to_le_bytes() {
                trace_hash ^= b as u64;
                trace_hash = trace_hash.wrapping_mul(0x100000001b3);
            }
        }
    }

    approx_eq(val(state.x), 555.0);
    approx_eq(val(state.y), 436.0);
    approx_eq(val(state.vx), 0.0);
    approx_eq(val(state.vy), 0.0);
    assert_eq!(state.grounded, 1);
    assert_eq!(state.jump_was_down, 0);
    approx_eq(val(state.coyote), val(params.coyote_time));
    approx_eq(val(state.jump_buffer), 0.0);
    assert_eq!(jumped, 1);
    assert_eq!(landed, 2);
    assert_eq!(bonked, 0);
    assert_eq!(trace_hash, 0x94db7b2925cfad14);
}

#[test]
fn default_parameters_have_the_documented_values() {
    let p = Params::default();
    let want: [(Single, f32); 21] = [
        (p.ground_max_speed, 260.0),
        (p.ground_accel, 1800.0),
        (p.ground_decel, 2200.0),
        (p.ground_friction, 2600.0),
        (p.run_multiplier, 1.35),
        (p.air_max_speed, 220.0),
        (p.air_accel, 1200.0),
        (p.air_decel, 900.0),
        (p.air_drag, 0.0),
        (p.gravity_up, 1500.0),
        (p.gravity_down, 2300.0),
        (p.terminal_velocity, 1200.0),
        (p.fast_fall_multiplier, 1.35),
        (p.jump_velocity, 520.0),
        (p.jump_cut_multiplier, 0.45),
        (p.coyote_time, 0.085),
        (p.jump_buffer, 0.100),
        (p.snap_to_ground, 6.0),
        (p.max_step_px, 6.0),
        (p.world_w, 960.0),
        (p.world_wrap_mode, 1.0),
    ];
    for (got, want) in want {
        assert_eq!(got.to_bits(), want.to_bits(), "{want}");
    }
    assert_eq!(Single::from_ratio(1, 60).to_bits(), (1.0f32 / 60.0f32).to_bits());
    assert_eq!(Single::from_ratio(1, 2).to_bits(), 0.5f32.to_bits());
}
