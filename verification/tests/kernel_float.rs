//! The step on bit patterns, held against the same step written with the
//! machine's single precision, on random worlds, states and inputs.
use platlab_core::{rects_intersect, step, Buttons, Params, Rect, Single, State};

fn num(v: f32) -> Single {
    Single::from_bits(v.to_bits())
}

fn val(s: Single) -> f32 {
    f32::from_bits(s.to_bits())
}

#[derive(Clone, Copy, Debug)]
struct FRect {
    x: f32,
    y: f32,
    w: f32,
    h: f32,
}

#[derive(Clone, Copy, Debug)]
struct FState {
    x: f32,
    y: f32,
    vx: f32,
    vy: f32,
    w: f32,
    h: f32,
    grounded: u8,
    coyote: f32,
    jump_buffer: f32,
    jump_was_down: u8,
}

const DT: f32 = 1.0 / 60.0;

fn hit(a: &FRect, b: &FRect) -> bool {
    a.x < b.x + b.w && a.x + a.w > b.x && a.y < b.y + b.h && a.y + a.h > b.y
}

fn sign(x: f32) -> f32 {
    if x < 0.0 {
        -1.0
    } else if x > 0.0 {
        1.0
    } else {
        0.0
    }
}

// The greater of two, the first where they are equal: the order in which the
// library takes them.
fn max(a: f32, b: f32) -> f32 {
    if a.is_nan() || a < b {
        b
    } else {
        a
    }
}

fn min(a: f32, b: f32) -> f32 {
    if a.is_nan() || b < a {
        b
    } else {
        a
    }
}

fn clamp(x: f32, lo: f32, hi: f32) -> f32 {
    min(max(x, lo), hi)
}

fn resolve(mut r: FRect, dx: f32, dy: f32, world: &[FRect]) -> (FRect, bool, bool) {
    let mut ground = false;
    let mut head = false;
    r.x += dx.round();
    for p in world {
        if hit(&r, p) {
            if dx > 0.0 {
                r.x = p.x - r.w;
            } else if dx < 0.0 {
                r.x = p.x + p.w;
            }
        }
    }
    r.y += dy.round();
    for p in world {
        if hit(&r, p) {
            if dy > 0.0 {
                r.y = p.y - r.h;
                ground = true;
            } else if dy < 0.0 {
                r.y = p.y + p.h;
                head = true;
            }
        }
    }
    (r, ground, head)
}

fn float_step(p: &[f32; 21], world: &[FRect], s: &mut FState, bits: u8) -> (u8, u8, u8) {
    let [ground_max_speed, ground_accel, ground_decel, ground_friction, run_multiplier, air_max_speed, air_accel, air_decel, air_drag, gravity_up, gravity_down, terminal_velocity, fast_fall_multiplier, jump_velocity, jump_cut_multiplier, coyote_time, jump_buffer, snap_to_ground, max_step_px, world_w, world_wrap_mode] =
        *p;
    let (mut jumped, mut landed, mut bonked) = (0u8, 0u8, 0u8);
    let left = bits & 1 != 0;
    let right = bits & 2 != 0;
    let down = bits & 4 != 0;
    let run = bits & 8 != 0;
    let jump = bits & 16 != 0;
    let move_dir = (right as i32) - (left as i32);
    let jump_was_down = s.jump_was_down != 0;
    let jump_pressed = jump && !jump_was_down;
    let jump_released = !jump && jump_was_down;
    s.jump_was_down = jump as u8;
    let was_grounded = s.grounded != 0;
    s.coyote = if was_grounded { coyote_time } else { max(s.coyote - DT, 0.0) };
    s.jump_buffer = if jump_pressed { jump_buffer } else { max(s.jump_buffer - DT, 0.0) };
    let run_mul = if run { run_multiplier } else { 1.0 };
    let (max_speed, accel, decel, friction) = if was_grounded {
        (ground_max_speed * run_mul, ground_accel, ground_decel, ground_friction)
    } else {
        (air_max_speed * run_mul, air_accel, air_decel, 0.0)
    };
    if move_dir != 0 {
        let desired = move_dir as f32;
        let turning = s.vx != 0.0 && sign(s.vx) != desired;
        let dv = if turning { decel } else { accel } * DT * desired;
        s.vx += dv;
    } else if was_grounded {
        let fr = friction * DT;
        if s.vx.abs() <= fr {
            s.vx = 0.0;
        } else {
            s.vx -= sign(s.vx) * fr;
        }
    }
    if !was_grounded && air_drag > 0.0 {
        let drag = air_drag * DT;
        if s.vx.abs() <= drag {
            s.vx = 0.0;
        } else {
            s.vx -= sign(s.vx) * drag;
        }
    }
    s.vx = clamp(s.vx, -max_speed, max_speed);
    let g = if s.vy < 0.0 { gravity_up } else { gravity_down };
    let mut g_apply = g;
    if down && s.vy > 0.0 {
        g_apply *= fast_fall_multiplier;
    }
    s.vy += g_apply * DT;
    s.vy = clamp(s.vy, -5000.0, terminal_velocity);
    if (was_grounded || s.coyote > 0.0) && s.jump_buffer > 0.0 {
        s.vy = -jump_velocity;
        s.grounded = 0;
        s.coyote = 0.0;
        s.jump_buffer = 0.0;
        jumped = 1;
    }
    if jump_released && s.vy < 0.0 {
        let cut = -jump_velocity * jump_cut_multiplier;
        if s.vy < cut {
            s.vy = cut;
        }
    }
    let mut rect = FRect { x: s.x.round(), y: s.y.round(), w: s.w.round(), h: s.h.round() };
    let max_step = max(max_step_px, 1.0);
    let total_dx = s.vx * DT;
    let total_dy = s.vy * DT;
    let steps = max((max(total_dx.abs(), total_dy.abs()) / max_step).ceil(), 1.0) as i32;
    let dx = total_dx / (steps as f32);
    let dy = total_dy / (steps as f32);
    let mut ground_any = false;
    for _ in 0..steps {
        let (r2, ground, head) = resolve(rect, dx, dy, world);
        rect = r2;
        if head && s.vy < 0.0 {
            s.vy = 0.0;
            bonked = 1;
        }
        if ground && s.vy > 0.0 {
            s.vy = 0.0;
        }
        ground_any |= ground;
    }
    s.x = rect.x;
    s.y = rect.y;
    let mut now_grounded = false;
    if snap_to_ground > 0.0 {
        let test = FRect { x: rect.x, y: rect.y + snap_to_ground.round(), w: rect.w, h: rect.h };
        for p in world {
            if hit(&test, p) {
                now_grounded = true;
                if rect.y + rect.h <= p.y + snap_to_ground.round() {
                    rect.y = p.y - rect.h;
                    s.y = rect.y;
                }
                break;
            }
        }
    } else {
        now_grounded = ground_any;
    }
    if now_grounded && !was_grounded {
        landed = 1;
    }
    s.grounded = now_grounded as u8;
    let wrap_mode = world_wrap_mode.round() as i32;
    if wrap_mode == 1 {
        let w = max(world_w, 1.0).round();
        let mut left = s.x.round();
        let right = left + s.w.round();
        if right < 0.0 {
            left = w - s.w.round();
        } else if left > w {
            left = 0.0;
        }
        s.x = left;
    } else if wrap_mode == 2 {
        let w = max(world_w, 1.0);
        let center_x = s.x + 0.5 * s.w;
        let wrapped = ((center_x % w) + w) % w;
        s.x = (wrapped - 0.5 * s.w).round();
    }
    (jumped, landed, bonked)
}

struct Rng(u64);

impl Rng {
    fn next(&mut self) -> u32 {
        self.0 = self.0.wrapping_mul(6364136223846793005).wrapping_add(1442695040888963407);
        (self.0 >> 33) as u32
    }

    fn range(&mut self, lo: f32, hi: f32) -> f32 {
        lo + (hi - lo) * (self.next() % 10_001) as f32 / 10_000.0
    }

    fn whole(&mut self, lo: i32, hi: i32) -> f32 {
        (lo + (self.next() % (hi - lo + 1) as u32) as i32) as f32
    }
}

fn same(a: Single, b: f32, what: &str, tick: usize) {
    if b.is_nan() {
        assert!(val(a).is_nan(), "{what} at tick {tick}");
    } else {
        assert_eq!(a.to_bits(), b.to_bits(), "{what} at tick {tick}: {} vs {b}", val(a));
    }
}

fn run_both(rng: &mut Rng, fractional: bool, ticks: usize) {
    let defaults = Params::default();
    let mut p = [0.0f32; 21];
    let mut params = defaults;
    for i in 0..21 {
        let d = val(defaults.get(i));
        p[i] = match rng.next() % 4 {
            0 => d,
            1 => d * rng.range(0.0, 3.0),
            2 => rng.range(-10.0, 2000.0),
            _ => rng.whole(0, 3),
        };
        params.set(i, num(p[i]));
    }
    p[19] = rng.range(200.0, 1200.0);
    params.set(19, num(p[19]));
    p[20] = rng.whole(0, 2);
    params.set(20, num(p[20]));
    let mut fworld = Vec::new();
    let mut world = Vec::new();
    for _ in 0..(rng.next() % 8) {
        let r = if fractional {
            FRect { x: rng.range(-50.0, 1000.0), y: rng.range(0.0, 600.0), w: rng.range(0.0, 400.0), h: rng.range(0.0, 80.0) }
        } else {
            FRect { x: rng.whole(-50, 1000), y: rng.whole(0, 600), w: rng.whole(0, 400), h: rng.whole(0, 80) }
        };
        fworld.push(r);
        world.push(Rect { x: num(r.x), y: num(r.y), w: num(r.w), h: num(r.h) });
    }
    let mut fs = FState {
        x: rng.range(0.0, 900.0),
        y: rng.range(0.0, 500.0),
        vx: rng.range(-300.0, 300.0),
        vy: rng.range(-600.0, 600.0),
        w: rng.whole(1, 40),
        h: rng.whole(1, 60),
        grounded: (rng.next() % 2) as u8,
        coyote: rng.range(0.0, 0.1),
        jump_buffer: rng.range(0.0, 0.1),
        jump_was_down: (rng.next() % 2) as u8,
    };
    let mut s = State {
        x: num(fs.x),
        y: num(fs.y),
        vx: num(fs.vx),
        vy: num(fs.vy),
        w: num(fs.w),
        h: num(fs.h),
        grounded: fs.grounded,
        coyote: num(fs.coyote),
        jump_buffer: num(fs.jump_buffer),
        jump_was_down: fs.jump_was_down,
    };
    let mut bits = 0u8;
    for tick in 0..ticks {
        if rng.next() % 6 == 0 {
            bits = (rng.next() % 32) as u8;
        }
        let want = float_step(&p, &fworld, &mut fs, bits);
        let ev = step(&params, &world, &mut s, Buttons::from_bits_truncate(bits));
        assert_eq!((ev.jumped, ev.landed, ev.bonked), want, "events at tick {tick}");
        same(s.x, fs.x, "x", tick);
        same(s.y, fs.y, "y", tick);
        same(s.vx, fs.vx, "vx", tick);
        same(s.vy, fs.vy, "vy", tick);
        same(s.coyote, fs.coyote, "coyote", tick);
        same(s.jump_buffer, fs.jump_buffer, "jump_buffer", tick);
        assert_eq!((s.grounded, s.jump_was_down), (fs.grounded, fs.jump_was_down), "flags at tick {tick}");
    }
}

#[test]
fn whole_pixel_worlds_agree_with_the_machine() {
    let mut rng = Rng(0x1357_9bdf_0246_8ace);
    for _ in 0..300 {
        run_both(&mut rng, false, 120);
    }
}

#[test]
fn fractional_worlds_agree_with_the_machine() {
    let mut rng = Rng(0x0f1e_2d3c_4b5a_6978);
    for _ in 0..300 {
        run_both(&mut rng, true, 120);
    }
}

#[test]
fn overlap_is_open_and_symmetric() {
    let r = |x: f32, y: f32, w: f32, h: f32| Rect { x: num(x), y: num(y), w: num(w), h: num(h) };
    let a = r(0.0, 0.0, 10.0, 10.0);
    // Touching edges do not overlap.
    assert!(!rects_intersect(&a, &r(10.0, 0.0, 5.0, 5.0)));
    assert!(!rects_intersect(&a, &r(0.0, 10.0, 5.0, 5.0)));
    assert!(!rects_intersect(&a, &r(-5.0, 0.0, 5.0, 5.0)));
    assert!(rects_intersect(&a, &r(9.5, 9.5, 5.0, 5.0)));
    assert!(rects_intersect(&r(9.5, 9.5, 5.0, 5.0), &a));
    // A rectangle without area does not overlap itself, nor what it touches;
    // strictly inside another it overlaps that one.
    let flat = r(5.0, 5.0, 0.0, 0.0);
    assert!(!rects_intersect(&flat, &flat));
    assert!(!rects_intersect(&r(5.0, 5.0, 0.0, 3.0), &r(5.0, 5.0, 0.0, 3.0)));
    assert!(!rects_intersect(&r(10.0, 5.0, 0.0, 0.0), &a));
    assert!(rects_intersect(&flat, &a));
    assert!(rects_intersect(&a, &flat));
    let mut rng = Rng(99);
    for _ in 0..5_000 {
        let a = FRect { x: rng.whole(0, 20), y: rng.whole(0, 20), w: rng.whole(0, 8), h: rng.whole(0, 8) };
        let b = FRect { x: rng.whole(0, 20), y: rng.whole(0, 20), w: rng.whole(0, 8), h: rng.whole(0, 8) };
        let (ra, rb) = (r(a.x, a.y, a.w, a.h), r(b.x, b.y, b.w, b.h));
        assert_eq!(rects_intersect(&ra, &rb), hit(&a, &b));
        assert_eq!(rects_intersect(&ra, &rb), rects_intersect(&rb, &ra));
    }
}
