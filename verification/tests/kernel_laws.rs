//! What holds of every step, tried on chosen values.
use platlab_core::kernel::resolve_axis_separated;
use platlab_core::trace::run;
use platlab_core::{step, Buttons, Params, Rect, Single, State};

fn num(v: f32) -> Single {
    Single::from_bits(v.to_bits())
}

fn val(s: Single) -> f32 {
    f32::from_bits(s.to_bits())
}

fn rect(x: f32, y: f32, w: f32, h: f32) -> Rect {
    Rect { x: num(x), y: num(y), w: num(w), h: num(h) }
}

fn floor() -> Vec<Rect> {
    vec![rect(0.0, 480.0, 960.0, 60.0)]
}

fn standing() -> State {
    let mut s = State::spawn(num(80.0), num(436.0), num(28.0), num(44.0));
    s.grounded = 1;
    s
}

fn bits(s: &State) -> [u32; 8] {
    [
        s.x.to_bits(),
        s.y.to_bits(),
        s.vx.to_bits(),
        s.vy.to_bits(),
        s.coyote.to_bits(),
        s.jump_buffer.to_bits(),
        s.grounded as u32,
        s.jump_was_down as u32,
    ]
}

fn held(left: bool, right: bool, jump: bool) -> Buttons {
    let mut b = Buttons::empty();
    if left {
        b.insert(Buttons::left());
    }
    if right {
        b.insert(Buttons::right());
    }
    if jump {
        b.insert(Buttons::jump());
    }
    b
}

#[test]
fn two_runs_give_the_same_bits() {
    let params = Params::default();
    let world = vec![rect(0.0, 480.0, 960.0, 60.0), rect(300.0, 400.0, 40.0, 80.0), rect(500.0, 300.0, 200.5, 20.25)];
    let inputs: Vec<u8> = (0..400u32).map(|i| ((i * 2654435761u32.wrapping_mul(i + 7)) >> 13) as u8).collect();
    let mut a = standing();
    let mut b = standing();
    let first = run(&params, &world, &mut a, &inputs);
    let second = run(&params, &world, &mut b, &inputs);
    assert_eq!(first.len(), 400);
    for i in 0..400 {
        assert_eq!(bits(&first[i].state), bits(&second[i].state), "tick {i}");
        assert_eq!(first[i].events, second[i].events, "tick {i}");
    }
    assert_eq!(bits(&a), bits(&first[399].state));
}

#[test]
fn an_actor_at_rest_stays() {
    for mode in [0.0, 1.0, 2.0] {
        let mut params = Params::default();
        params.world_wrap_mode = num(mode);
        let world = floor();
        let mut s = standing();
        for tick in 0..30 {
            let ev = step(&params, &world, &mut s, Buttons::empty());
            assert_eq!((val(s.x), val(s.y)), (80.0, 436.0), "tick {tick}");
            assert_eq!((ev.jumped, ev.landed, ev.bonked), (0, 0, 0), "tick {tick}");
            assert_eq!((val(s.vx), val(s.vy), s.grounded), (0.0, 0.0, 1), "tick {tick}");
        }
    }
}

#[test]
fn landing_is_reported_on_the_tick_of_the_transition() {
    let params = Params::default();
    let world = floor();
    let mut s = State::spawn(num(80.0), num(300.0), num(28.0), num(44.0));
    let mut landings = 0;
    for tick in 0..400 {
        let before = s.grounded;
        let jump = tick == 100 || tick == 101 || tick == 250;
        let ev = step(&params, &world, &mut s, held(false, tick % 50 < 25, jump));
        assert_eq!(ev.landed == 1, before == 0 && s.grounded != 0, "tick {tick}");
        assert!(ev.landed <= 1);
        landings += ev.landed as u32;
    }
    // The first fall, and the time in the air after each of the two jumps.
    assert_eq!(landings, 3);
}

#[test]
fn a_jump_needs_ground_or_coyote_time() {
    let params = Params::default();
    let world = floor();
    // In the air, long after leaving ground: the press is not honoured.
    let mut s = State::spawn(num(80.0), num(100.0), num(28.0), num(44.0));
    let gravity_only = {
        let mut t = s;
        step(&params, &world, &mut t, Buttons::empty());
        t.vy
    };
    let ev = step(&params, &world, &mut s, held(false, false, true));
    assert_eq!(ev.jumped, 0);
    assert_eq!(s.vy.to_bits(), gravity_only.to_bits());
    assert_eq!(val(s.vy), 2300.0f32 * (1.0f32 / 60.0f32));
    // On the ground it is.
    let mut s = standing();
    let ev = step(&params, &world, &mut s, held(false, false, true));
    assert_eq!(ev.jumped, 1);
    assert_eq!((val(s.vy), s.grounded), (-520.0, 0));
    assert_eq!((val(s.coyote), val(s.jump_buffer)), (0.0, 0.0));
    // Held, it does not jump again on landing: only a press counts.
    let mut jumps = 0;
    for _ in 0..200 {
        jumps += step(&params, &world, &mut s, held(false, false, true)).jumped;
    }
    assert_eq!(jumps, 0);
}

#[test]
fn coyote_time_and_jump_buffer() {
    let params = Params::default();
    // Walk off a ledge, then press within the coyote time.
    let world = vec![rect(0.0, 480.0, 100.0, 60.0)];
    let mut s = standing();
    s.x = num(90.0);
    let mut left_ground_at = None;
    for tick in 0..60 {
        step(&params, &world, &mut s, held(false, true, false));
        if s.grounded == 0 {
            left_ground_at = Some(tick);
            break;
        }
    }
    assert!(left_ground_at.is_some());
    let mut late = s;
    for _ in 0..3 {
        step(&params, &world, &mut s, held(false, true, false));
    }
    assert_eq!(step(&params, &world, &mut s, held(false, true, true)).jumped, 1);
    // 0.085 s are five ticks and a bit: after six the time has run out.
    for _ in 0..6 {
        step(&params, &world, &mut late, held(false, true, false));
    }
    assert_eq!(val(late.coyote), 0.0);
    assert_eq!(step(&params, &world, &mut late, held(false, true, true)).jumped, 0);
    // A press shortly before landing is honoured on landing.
    let world = floor();
    let mut s = State::spawn(num(80.0), num(425.0), num(28.0), num(44.0));
    assert_eq!(step(&params, &world, &mut s, held(false, false, true)).jumped, 0);
    let mut jumped_at = None;
    for tick in 1..10 {
        let ev = step(&params, &world, &mut s, held(false, false, true));
        if ev.jumped == 1 {
            jumped_at = Some(tick);
            break;
        }
    }
    assert!(matches!(jumped_at, Some(t) if t <= 6), "{jumped_at:?}");
}

#[test]
fn releasing_the_button_cuts_the_rise() {
    let params = Params::default();
    let world = floor();
    let mut s = standing();
    step(&params, &world, &mut s, held(false, false, true));
    step(&params, &world, &mut s, held(false, false, true));
    assert!(val(s.vy) < -400.0);
    step(&params, &world, &mut s, Buttons::empty());
    assert_eq!(val(s.vy), -520.0f32 * 0.45f32);
}

#[test]
fn speed_stays_within_the_top_speed() {
    let mut params = Params::default();
    params.world_wrap_mode = num(0.0);
    let world = vec![rect(-100000.0, 480.0, 200000.0, 60.0)];
    for (left, run) in [(false, false), (true, false), (false, true), (true, true)] {
        let mut s = standing();
        let mut b = held(left, !left, false);
        if run {
            b.insert(Buttons::run());
        }
        let top = if run { 260.0f32 * 1.35f32 } else { 260.0 };
        for tick in 0..600 {
            step(&params, &world, &mut s, b);
            assert!(val(s.vx).abs() <= top, "tick {tick}: {}", val(s.vx));
        }
        assert_eq!(val(s.vx), if left { -top } else { top });
    }
    // In the air the top speed of the air holds.
    let mut s = State::spawn(num(80.0), num(-100000.0), num(28.0), num(44.0));
    s.vx = num(900.0);
    step(&params, &world, &mut s, held(false, true, false));
    assert_eq!(val(s.vx), 220.0);
}

#[test]
fn torus_wrap_brings_the_centre_into_the_world() {
    let mut params = Params::default();
    params.world_wrap_mode = num(2.0);
    let world = floor();
    let mut s = standing();
    s.x = num(900.0);
    let mut wrapped = false;
    for tick in 0..400 {
        let before = s;
        step(&params, &world, &mut s, held(false, true, false));
        let centre = val(s.x) + 0.5 * val(s.w);
        assert!((0.0..960.0).contains(&centre), "tick {tick}: {centre}");
        if val(s.x) < val(before.x) {
            wrapped = true;
            // Across the seam the velocity goes on as before.
            assert_eq!(val(s.vx), 260.0);
            assert_eq!(val(before.vx), 260.0);
            assert_eq!(val(s.x), val(before.x) + 4.0 - 960.0);
        }
    }
    assert!(wrapped);
    // To the left as well.
    let mut s = standing();
    s.x = num(10.0);
    for _ in 0..30 {
        step(&params, &world, &mut s, held(true, false, false));
    }
    let centre = val(s.x) + 0.5 * val(s.w);
    assert!(centre > 800.0 && centre < 960.0, "{centre}");
}

#[test]
fn the_left_edge_is_rounded_after_the_wrap() {
    // The wrapped centre lies in the world; the left edge that is derived
    // from it is rounded to a whole pixel, which can bring the centre of the
    // box onto the world's width itself.
    let mut params = Params::default();
    params.world_wrap_mode = num(2.0);
    params.gravity_down = num(0.0);
    params.snap_to_ground = num(0.0);
    // A wall whose left side is at 973.6 stops the actor at 945.6.
    let world = vec![rect(973.6, 0.0, 10.0, 1000.0)];
    let mut s = State::spawn(num(940.0), num(100.0), num(28.0), num(44.0));
    s.vx = num(600.0);
    params.air_max_speed = num(600.0);
    step(&params, &world, &mut s, held(false, true, false));
    assert_eq!(val(s.x), 946.0);
    assert_eq!(val(s.x) + 0.5 * val(s.w), 960.0);
}

#[test]
fn edge_wrap_moves_an_actor_that_has_left_the_world() {
    let params = Params::default();
    let in_the_air = |x: f32| {
        let mut s = State::spawn(num(x), num(100.0), num(28.0), num(44.0));
        step(&params, &[], &mut s, Buttons::empty());
        (val(s.x), val(s.y), val(s.vx))
    };
    // Partly outside on either side, the box stays.
    assert_eq!(in_the_air(-5.0), (-5.0, 101.0, 0.0));
    assert_eq!(in_the_air(-28.0), (-28.0, 101.0, 0.0));
    assert_eq!(in_the_air(950.0), (950.0, 101.0, 0.0));
    assert_eq!(in_the_air(960.0), (960.0, 101.0, 0.0));
    // Wholly outside, it reappears at the far edge.
    assert_eq!(in_the_air(-29.0), (932.0, 101.0, 0.0));
    assert_eq!(in_the_air(-500.0), (932.0, 101.0, 0.0));
    assert_eq!(in_the_air(961.0), (0.0, 101.0, 0.0));
    assert_eq!(in_the_air(5000.0), (0.0, 101.0, 0.0));
    // A place between pixels is rounded even where nothing wraps.
    assert_eq!(in_the_air(10.4), (10.0, 101.0, 0.0));
    // Walking out on the right: the actor is gone for as long as it takes to
    // cross its own width, then comes in from the left.
    let world = floor();
    let mut s = standing();
    s.x = num(930.0);
    let mut seen_outside = false;
    let mut wrapped_at = None;
    for tick in 0..20 {
        let before = val(s.x);
        step(&params, &world, &mut s, held(false, true, false));
        if val(s.x) + 28.0 > 960.0 {
            seen_outside = true;
        }
        if val(s.x) < before {
            wrapped_at = Some((tick, before, val(s.x)));
            break;
        }
    }
    assert!(seen_outside);
    let (_, before, after) = wrapped_at.unwrap();
    assert!(before + 4.0 > 960.0 && before <= 960.0, "{before}");
    assert_eq!(after, 0.0);
}

#[test]
fn a_ceiling_stops_the_rise() {
    let params = Params::default();
    let world = vec![rect(0.0, 480.0, 960.0, 60.0), rect(0.0, 380.0, 960.0, 20.0)];
    let mut s = standing();
    let mut bonks = 0;
    let mut jumps = 0;
    for tick in 0..60 {
        // The button is held through the rise, so that the rise is not cut.
        let ev = step(&params, &world, &mut s, held(false, false, tick < 20));
        bonks += ev.bonked;
        jumps += ev.jumped;
        assert!(val(s.y) >= 400.0, "tick {tick}: {}", val(s.y));
        if ev.bonked == 1 {
            assert_eq!((val(s.y), val(s.vy)), (400.0, 0.0));
        }
    }
    assert_eq!((jumps, bonks), (1, 1));
}

#[test]
fn fast_movement_does_not_pass_through_thin_ground() {
    let mut params = Params::default();
    params.terminal_velocity = num(5000.0);
    let world = vec![rect(0.0, 480.0, 960.0, 2.0)];
    let mut s = State::spawn(num(80.0), num(0.0), num(28.0), num(44.0));
    s.vy = num(4000.0);
    let mut landed = 0;
    for _ in 0..30 {
        landed += step(&params, &world, &mut s, Buttons::empty()).landed;
    }
    assert_eq!((val(s.y), s.grounded, landed), (436.0, 1, 1));
}

#[test]
fn without_snap_ground_is_what_a_substep_met() {
    let mut params = Params::default();
    params.snap_to_ground = num(0.0);
    let world = floor();
    let mut s = State::spawn(num(80.0), num(430.0), num(28.0), num(44.0));
    let mut grounded_ticks = 0;
    for _ in 0..40 {
        step(&params, &world, &mut s, Buttons::empty());
        grounded_ticks += s.grounded as u32;
    }
    assert_eq!(val(s.y), 436.0);
    assert!(grounded_ticks > 20);
}

#[test]
fn the_resolver_takes_x_before_y() {
    // Moving down and right into the corner of a block: x is resolved first,
    // so the actor is set against the block's side, then falls beside it.
    let world = vec![rect(100.0, 100.0, 50.0, 50.0)];
    let r = rect(80.0, 85.0, 20.0, 20.0);
    let (out, ground, head) = resolve_axis_separated(r, num(4.0), num(4.0), &world);
    assert_eq!((val(out.x), val(out.y), ground, head), (80.0, 89.0, false, false));
    // Straight down onto it.
    let r = rect(110.0, 78.0, 20.0, 20.0);
    let (out, ground, head) = resolve_axis_separated(r, num(0.0), num(4.4), &world);
    assert_eq!((val(out.x), val(out.y), ground, head), (110.0, 80.0, true, false));
    // Straight up into it from below.
    let r = rect(110.0, 152.0, 20.0, 20.0);
    let (out, ground, head) = resolve_axis_separated(r, num(0.0), num(-3.5), &world);
    assert_eq!((val(out.x), val(out.y), ground, head), (110.0, 150.0, false, true));
    // Leftward into its right side.
    let r = rect(152.0, 110.0, 20.0, 20.0);
    let (out, ground, head) = resolve_axis_separated(r, num(-5.0), num(0.0), &world);
    assert_eq!((val(out.x), val(out.y), ground, head), (150.0, 110.0, false, false));
    // A move is rounded to a whole pixel, half a pixel away from zero.
    let (out, _, _) = resolve_axis_separated(rect(0.0, 0.0, 1.0, 1.0), num(0.5), num(-0.5), &[]);
    assert_eq!((val(out.x), val(out.y)), (1.0, -1.0));
    let (out, _, _) = resolve_axis_separated(rect(0.0, 0.0, 1.0, 1.0), num(0.49), num(-0.49), &[]);
    assert_eq!((val(out.x), val(out.y)), (0.0, 0.0));
}

#[test]
fn one_tick_of_each_force() {
    let dt = 1.0f32 / 60.0f32;
    let params = Params::default();
    let world = floor();
    // Friction on the ground, and to a stop once within its reach.
    let mut s = standing();
    s.vx = num(100.0);
    step(&params, &world, &mut s, Buttons::empty());
    assert_eq!(val(s.vx), 100.0 - 1.0 * (2600.0 * dt));
    step(&params, &world, &mut s, Buttons::empty());
    assert_eq!(val(s.vx), 100.0 - 1.0 * (2600.0 * dt) - 1.0 * (2600.0 * dt));
    step(&params, &world, &mut s, Buttons::empty());
    assert_eq!(val(s.vx), 0.0);
    // Turning on the ground uses the deceleration.
    let mut s = standing();
    s.vx = num(100.0);
    step(&params, &world, &mut s, held(true, false, false));
    assert_eq!(val(s.vx), 100.0 + 2200.0 * dt * -1.0);
    // Both directions held are none.
    let mut s = standing();
    s.vx = num(100.0);
    step(&params, &world, &mut s, held(true, true, false));
    assert_eq!(val(s.vx), 100.0 - 1.0 * (2600.0 * dt));
    // In the air: acceleration of the air, no friction, drag if there is any.
    let high = |vx: f32, vy: f32| {
        let mut s = State::spawn(num(80.0), num(-5000.0), num(28.0), num(44.0));
        s.vx = num(vx);
        s.vy = num(vy);
        s
    };
    let mut s = high(100.0, 0.0);
    step(&params, &world, &mut s, Buttons::empty());
    assert_eq!(val(s.vx), 100.0);
    let mut s = high(100.0, 0.0);
    step(&params, &world, &mut s, held(false, true, false));
    assert_eq!(val(s.vx), 100.0 + 1200.0 * dt * 1.0);
    let mut s = high(-100.0, 0.0);
    step(&params, &world, &mut s, held(false, true, false));
    assert_eq!(val(s.vx), -100.0 + 900.0 * dt * 1.0);
    let mut dragging = params;
    dragging.air_drag = num(300.0);
    let mut s = high(100.0, 0.0);
    step(&dragging, &world, &mut s, Buttons::empty());
    assert_eq!(val(s.vx), 100.0 - 1.0 * (300.0 * dt));
    // Gravity: upward while rising, downward else, faster with down held
    // while falling, and never beyond the terminal velocity.
    let mut s = high(0.0, -100.0);
    step(&params, &world, &mut s, Buttons::empty());
    assert_eq!(val(s.vy), -100.0 + 1500.0 * dt);
    let mut s = high(0.0, 100.0);
    step(&params, &world, &mut s, Buttons::empty());
    assert_eq!(val(s.vy), 100.0 + 2300.0 * dt);
    let mut s = high(0.0, 100.0);
    step(&params, &world, &mut s, Buttons::down());
    assert_eq!(val(s.vy), 100.0 + 2300.0 * 1.35 * dt);
    let mut s = high(0.0, 0.0);
    step(&params, &world, &mut s, Buttons::down());
    assert_eq!(val(s.vy), 0.0 + 2300.0 * dt);
    let mut s = high(0.0, 1190.0);
    step(&params, &world, &mut s, Buttons::empty());
    assert_eq!(val(s.vy), 1200.0);
    let mut s = high(0.0, -9000.0);
    step(&params, &world, &mut s, Buttons::empty());
    assert_eq!(val(s.vy), -5000.0);
    // The timers lose one tick each, and stop at zero.
    let mut s = high(0.0, 0.0);
    s.coyote = num(0.05);
    s.jump_buffer = num(0.01);
    step(&params, &world, &mut s, Buttons::empty());
    assert_eq!((val(s.coyote), val(s.jump_buffer)), (0.05 - dt, 0.0));
}

#[test]
fn a_tick_is_split_into_substeps() {
    // 1200 pixels per second are 20 pixels per tick: four substeps of five
    // pixels with the default longest step of six.
    let mut params = Params::default();
    params.snap_to_ground = num(0.0);
    let mut s = State::spawn(num(80.0), num(0.0), num(28.0), num(44.0));
    s.vy = num(1200.0);
    // A floor three pixels above where the second substep ends: met there.
    let world = vec![rect(0.0, 51.0, 960.0, 1.0)];
    step(&params, &world, &mut s, Buttons::empty());
    assert_eq!((val(s.y), val(s.vy), s.grounded), (7.0, 0.0, 1));
    // A longest step below one pixel counts as one pixel.
    params.max_step_px = num(0.25);
    let mut s = State::spawn(num(80.0), num(0.0), num(28.0), num(44.0));
    s.vy = num(100.0);
    step(&params, &[], &mut s, Buttons::empty());
    // 100 / 60 + gravity: 2.3 pixels in three substeps of 0.77, each rounded to one.
    assert_eq!(val(s.y), 3.0);
}

#[test]
fn rest_needs_a_floor_that_the_probe_reaches() {
    // A floor thinner than the spacing of the numbers around it is not there
    // for the probe of the ground snap: its lower edge is its upper edge.
    let params = Params::default();
    let world = vec![rect(0.0, 442.0, 960.0, 1e-30)];
    let mut s = State::spawn(num(80.0), num(436.0), num(28.0), num(6.0));
    s.grounded = 1;
    step(&params, &world, &mut s, Buttons::empty());
    assert_eq!((val(s.y), s.grounded), (436.0, 0));
    // With a floor of some height the actor stays at rest, tick after tick.
    let world = vec![rect(0.0, 442.0, 960.0, 1.0)];
    let mut s = State::spawn(num(80.0), num(436.0), num(28.0), num(6.0));
    s.grounded = 1;
    for _ in 0..5 {
        let before = bits(&s);
        let ev = step(&params, &world, &mut s, Buttons::empty());
        assert_eq!((ev.jumped, ev.landed, ev.bonked), (0, 0, 0));
        assert_eq!((val(s.x), val(s.y), val(s.vx), val(s.vy), s.grounded), (80.0, 436.0, 0.0, 0.0, 1));
        assert_eq!(bits(&s)[..4], before[..4]);
    }
}

#[test]
fn a_step_fixes_every_bit() {
    // A world without end has no centre to wrap around: the place becomes
    // not-a-number, always in the same bits.
    let mut params = Params::default();
    params.world_wrap_mode = num(2.0);
    params.world_w = num(f32::INFINITY);
    let world = floor();
    let mut a = State::spawn(num(80.0), num(100.0), num(28.0), num(44.0));
    let mut b = a;
    let mut saw_nan = false;
    for tick in 0..5 {
        let ea = step(&params, &world, &mut a, held(false, true, false));
        let eb = step(&params, &world, &mut b, held(false, true, false));
        assert_eq!(ea, eb);
        assert_eq!(bits(&a), bits(&b), "tick {tick}");
        for v in [a.x, a.y, a.vx, a.vy] {
            if val(v).is_nan() {
                saw_nan = true;
                assert_eq!(v.to_bits(), 0x7fc0_0000);
            }
        }
    }
    assert!(saw_nan);
}
