//! An actor at rest stays where it is.
use crate::buttons::Buttons;
use crate::events::Events;
use crate::geom::{overlaps, RectV};
use crate::kernel::{max_step, wrap_mode, after_substeps, buffer_after, clamped, driven_vx, first_hit, footing, jump_fires, jump_pressed, lemma_substep_count_positive, moved, next_substep, pushed_x, pushed_y, resolved, start_rect, step_events, step_state, substep_dx, substep_dy, tick, tick_substeps, top_speed, traveled, vx_after, vy_fallen, vy_launched, wrapped_x, Moving};
use crate::params::{default_params, ParamsV};
use crate::single::facts::{lemma_int_is_pixel, lemma_int_arith, lemma_pixel_as_int, lemma_round_ratio_between, pixels, lemma_count_is_positive, lemma_pixel_is_fixed, lemma_plus_is_kept, lemma_plus_order, lemma_remainder_positive, lemma_round_of_positive, lemma_tick_value, lemma_val_of_small_int, lemma_zero_stays};
use crate::single::model::{one, round_ratio, val_of_int, Val};
use crate::single::rounding::{lemma_pow2_double, lemma_pow2_monotone, lemma_pow2_sum};
use vstd::arithmetic::div_mod::{lemma_basic_div, lemma_div_by_multiple, lemma_fundamental_div_mod_converse, lemma_small_mod};
use vstd::arithmetic::power2::{lemma2_to64, lemma_pow2_pos, pow2};
use crate::state::StateV;
use vstd::prelude::*;

verus! {

/// No button held.
pub open spec fn no_buttons() -> Buttons {
    Buttons { bits: 0 }
}

/// The actor's box as it stands in the state.
pub open spec fn box_of(s: StateV) -> RectV {
    RectV { x: s.x, y: s.y, w: s.w, h: s.h }
}

/// The box `r` moved down by `by`.
pub open spec fn lowered(r: RectV, by: Val) -> RectV {
    RectV { y: r.y.add(by), ..r }
}

/// How far gravity moves an actor at rest in the first substep of a tick, in
/// whole pixels.
pub open spec fn rest_drop(p: ParamsV, s: StateV) -> Val {
    substep_dy(p, vx_after(p, s, no_buttons()), vy_launched(p, s, no_buttons())).round()
}

/// Friction, top speed, gravity and terminal velocity are numbers that are not
/// negative, and the ground snap is on.
pub open spec fn steady_params(p: ParamsV) -> bool {
    &&& p.ground_friction.is_plus()
    &&& p.ground_max_speed.is_plus()
    &&& p.gravity_down.is_plus()
    &&& p.terminal_velocity.is_plus()
    &&& p.snap_to_ground.gt(Val::zero())
}

/// The actor stands still on level ground. It stands on whole pixels, has no
/// velocity, is grounded and has no jump press pending. Where it stands it
/// overlaps nothing; what it would overlap once gravity has moved it down, or
/// within the reach of the ground snap, has its top at the actor's feet; and
/// there is such ground: gravity moves the actor not at all or into it, and
/// the ground snap finds it.
pub open spec fn at_rest(p: ParamsV, world: Seq<RectV>, s: StateV) -> bool {
    let r = box_of(s);
    let fallen = lowered(r, rest_drop(p, s));
    let probe = lowered(r, p.snap_to_ground.round());
    &&& s.x.is_pixel() && s.y.is_pixel() && s.w.is_pixel() && s.h.is_pixel()
    &&& s.vx.is_zero() && s.vy.is_zero()
    &&& s.grounded != 0
    &&& !s.jump_buffer.gt(tick())
    &&& forall|j: int| 0 <= j < world.len() ==> !overlaps(r, #[trigger] world[j])
    &&& forall|j: int|
        0 <= j < world.len() && (overlaps(fallen, #[trigger] world[j]) || overlaps(
            probe,
            world[j],
        )) ==> world[j].y.sub(r.h) == r.y
    &&& fallen == r || exists|j: int| 0 <= j < world.len() && overlaps(fallen, #[trigger] world[j])
    &&& first_hit(probe, world, 0) is Some
}

/// With no button held, none is held.
pub proof fn lemma_no_buttons()
    ensures
        !no_buttons().left_held(),
        !no_buttons().right_held(),
        !no_buttons().down_held(),
        !no_buttons().run_held(),
        !no_buttons().jump_held(),
{
    assert(0u8 & 0x01 != 0x01) by (bit_vector);
    assert(0u8 & 0x02 != 0x02) by (bit_vector);
    assert(0u8 & 0x04 != 0x04) by (bit_vector);
    assert(0u8 & 0x08 != 0x08) by (bit_vector);
    assert(0u8 & 0x10 != 0x10) by (bit_vector);
}

/// At rest the horizontal velocity stays zero, no jump begins, and the
/// vertical velocity is that of a fall or zero.
pub proof fn lemma_rest_velocity(p: ParamsV, s: StateV)
    requires
        steady_params(p),
        s.vx.is_zero(),
        s.vy.is_zero(),
        s.grounded != 0,
        !s.jump_buffer.gt(tick()),
    ensures
        vx_after(p, s, no_buttons()) == Val::zero(),
        vy_launched(p, s, no_buttons()).is_plus(),
        !jump_fires(p, s, no_buttons()),
{
    let b = no_buttons();
    lemma_no_buttons();
    lemma_tick_value();
    lemma_val_of_small_int(1);
    lemma_val_of_small_int(-5000);
    let low = val_of_int(-5000);
    // Horizontal.
    let fr = p.ground_friction.mul(tick());
    lemma_plus_is_kept(p.ground_friction, tick(), Val::zero());
    lemma_plus_order(fr, low);
    let top = top_speed(p, s, b);
    lemma_plus_is_kept(p.ground_max_speed, val_of_int(1), Val::zero());
    assert(top.is_plus());
    assert(s.vx.abs() == Val::zero());
    assert(driven_vx(p, s, b) == Val::zero());
    assert(clamped(Val::zero(), top.neg(), top) == Val::zero()) by {
        reveal(Val::lt);
    }
    // Vertical.
    assert(!s.vy.lt(Val::zero()) && !s.vy.gt(Val::zero())) by {
        reveal(Val::lt);
    }
    let pull = p.gravity_down.mul(tick());
    lemma_plus_is_kept(p.gravity_down, tick(), s.vy);
    lemma_plus_is_kept(pull, tick(), s.vy);
    let fall = s.vy.add(pull);
    assert(fall.is_plus());
    lemma_plus_order(fall, low);
    assert(fall.max(low) == fall);
    assert(vy_fallen(p, s, b) == fall.min(p.terminal_velocity));
    assert(vy_fallen(p, s, b).is_plus());
    lemma_plus_order(vy_fallen(p, s, b), low);
    // Jump.
    lemma_remainder_positive(s.jump_buffer, tick());
    assert(!jump_pressed(s, b));
    assert(!buffer_after(p, s, b).gt(Val::zero()));
}

/// At rest a substep moves by nothing along x and by nothing or downward
/// along y.
pub proof fn lemma_rest_substep(p: ParamsV, vy: Val)
    requires
        vy.is_plus(),
    ensures
        substep_dx(p, Val::zero(), vy) == Val::zero(),
        substep_dx(p, Val::zero(), vy).round() == Val::zero(),
        substep_dy(p, Val::zero(), vy).is_plus(),
        substep_dy(p, Val::zero(), vy).round().is_plus(),
        substep_dy(p, Val::zero(), vy).round() == Val::zero() || substep_dy(
            p,
            Val::zero(),
            vy,
        ).gt(Val::zero()),
        tick_substeps(p, Val::zero(), vy) >= 1,
{
    lemma_tick_value();
    let n = tick_substeps(p, Val::zero(), vy);
    lemma_substep_count_positive(p, Val::zero().mul(tick()), vy.mul(tick()));
    assert(n <= 0x7fff_ffff) by {
        reveal(Val::to_i32);
    }
    lemma_count_is_positive(n);
    let count = val_of_int(n);
    lemma_zero_stays(tick());
    lemma_zero_stays(count);
    lemma_plus_is_kept(vy, tick(), Val::zero());
    let total = vy.mul(tick());
    lemma_plus_is_kept(total, count, Val::zero());
    let dy = total.div(count);
    lemma_plus_is_kept(dy, count, Val::zero());
    lemma_round_of_positive(dy);
}

/// A substep that moves by nothing along x pushes nothing along x.
pub proof fn lemma_pushed_x_still(r: RectV, world: Seq<RectV>, n: int)
    ensures
        pushed_x(r, Val::zero(), world, n) == r,
    decreases n,
{
    reveal(Val::lt);
    if n > 0 {
        lemma_pushed_x_still(r, world, n - 1);
    }
}

/// The box `fallen`, which is the box `rest` moved down, after it was held
/// against the first `n` rectangles: back at `rest` with ground contact once
/// it met one, and never with head contact.
pub proof fn lemma_pushed_y_rest(rest: RectV, fallen: RectV, dy: Val, world: Seq<RectV>, n: int)
    requires
        0 <= n <= world.len(),
        fallen == (RectV { y: fallen.y, ..rest }),
        dy.is_plus(),
        fallen == rest || dy.gt(Val::zero()),
        forall|j: int| 0 <= j < world.len() ==> !overlaps(rest, #[trigger] world[j]),
        forall|j: int|
            0 <= j < world.len() && overlaps(fallen, #[trigger] world[j]) ==> world[j].y.sub(rest.h)
                == rest.y,
    ensures
        !pushed_y(fallen, dy, world, n).head,
        (exists|j: int| 0 <= j < n && overlaps(fallen, #[trigger] world[j])) ==> pushed_y(
            fallen,
            dy,
            world,
            n,
        ).rect == rest && pushed_y(fallen, dy, world, n).ground,
        (forall|j: int| 0 <= j < n ==> !overlaps(fallen, #[trigger] world[j])) ==> pushed_y(
            fallen,
            dy,
            world,
            n,
        ).rect == fallen && !pushed_y(fallen, dy, world, n).ground,
    decreases n,
{
    lemma_val_of_small_int(-1);
    lemma_plus_order(dy, val_of_int(-1));
    if n > 0 {
        lemma_pushed_y_rest(rest, fallen, dy, world, n - 1);
        let prev = pushed_y(fallen, dy, world, n - 1);
        let p = world[n - 1];
        if exists|j: int| 0 <= j < n - 1 && overlaps(fallen, #[trigger] world[j]) {
            assert(prev.rect == rest);
            assert(!overlaps(rest, p));
        } else {
            assert(prev.rect == fallen);
            if overlaps(fallen, p) {
                assert(fallen != rest);
                assert(p.y.sub(rest.h) == rest.y);
            } else {
                assert forall|j: int| 0 <= j < n implies !overlaps(fallen, #[trigger] world[j]) by {
                    if j < n - 1 {
                    }
                }
            }
        }
    }
}

/// A substep of an actor at rest leaves it where it is.
pub proof fn lemma_rest_one_substep(p: ParamsV, world: Seq<RectV>, s: StateV, m: Moving)
    requires
        steady_params(p),
        at_rest(p, world, s),
        m.rect == box_of(s),
        m.vy.is_plus(),
        !m.bonked,
    ensures
        ({
            let vy = vy_launched(p, s, no_buttons());
            let next = next_substep(
                m,
                substep_dx(p, Val::zero(), vy),
                substep_dy(p, Val::zero(), vy),
                world,
            );
            &&& next.rect == box_of(s) && next.vy.is_plus() && !next.bonked
            &&& lowered(box_of(s), rest_drop(p, s)) != box_of(s) ==> next.vy == Val::zero()
        }),
{
    let r = box_of(s);
    lemma_rest_velocity(p, s);
    let vy = vy_launched(p, s, no_buttons());
    lemma_rest_substep(p, vy);
    let dx = substep_dx(p, Val::zero(), vy);
    let dy = substep_dy(p, Val::zero(), vy);
    lemma_pixel_is_fixed(s.x);
    let moved_x = RectV { x: r.x.add(dx.round()), ..r };
    assert(moved_x == r);
    lemma_pushed_x_still(r, world, world.len() as int);
    let fallen = RectV { y: r.y.add(dy.round()), ..r };
    assert(fallen == lowered(r, rest_drop(p, s)));
    lemma_pixel_is_fixed(s.y);
    lemma_pushed_y_rest(r, fallen, dy, world, world.len() as int);
    let c = resolved(r, dx, dy, world);
    assert(c == pushed_y(fallen, dy, world, world.len() as int));
    assert(c.rect == r);
    lemma_val_of_small_int(-1);
    lemma_plus_order(m.vy, val_of_int(-1));
    if fallen != r {
        assert(c.ground);
    }
}

/// However many substeps a tick has, an actor at rest ends them where it is.
pub proof fn lemma_rest_substeps(p: ParamsV, world: Seq<RectV>, s: StateV, k: int)
    requires
        steady_params(p),
        at_rest(p, world, s),
    ensures
        ({
            let vy = vy_launched(p, s, no_buttons());
            let m = after_substeps(
                Moving { rect: box_of(s), vy, bonked: false, ground: false },
                substep_dx(p, Val::zero(), vy),
                substep_dy(p, Val::zero(), vy),
                world,
                k,
            );
            &&& m.rect == box_of(s) && m.vy.is_plus() && !m.bonked
            &&& k >= 1 && lowered(box_of(s), rest_drop(p, s)) != box_of(s) ==> m.vy == Val::zero()
        }),
    decreases k,
{
    lemma_rest_velocity(p, s);
    if k > 0 {
        lemma_rest_substeps(p, world, s, k - 1);
        let vy = vy_launched(p, s, no_buttons());
        let prev = after_substeps(
            Moving { rect: box_of(s), vy, bonked: false, ground: false },
            substep_dx(p, Val::zero(), vy),
            substep_dy(p, Val::zero(), vy),
            world,
            k - 1,
        );
        lemma_rest_one_substep(p, world, s, prev);
    }
}

/// A hit is a rectangle of the world that the probe overlaps.
pub proof fn lemma_first_hit_overlaps(probe: RectV, world: Seq<RectV>, from: int)
    requires
        first_hit(probe, world, from) is Some,
    ensures
        ({
            let i = first_hit(probe, world, from).unwrap();
            from <= i < world.len() && overlaps(probe, world[i])
        }),
    decreases world.len() - from,
{
    if 0 <= from < world.len() && !overlaps(probe, world[from]) {
        lemma_first_hit_overlaps(probe, world, from + 1);
    }
}

/// A step with no button held leaves an actor at rest where it is, still
/// grounded, and reports no event. Where gravity moves the actor into the
/// ground at all, the ground stops it, and the state after the step is a
/// state at rest again. The wrap must leave the actor's place alone, as it
/// does when it is off or the actor is inside the world.
pub proof fn law_rest_is_kept(p: ParamsV, world: Seq<RectV>, s: StateV)
    requires
        steady_params(p),
        at_rest(p, world, s),
        wrapped_x(p, s.x, s.w) == s.x,
    ensures
        step_state(p, world, s, no_buttons()).x == s.x,
        step_state(p, world, s, no_buttons()).y == s.y,
        step_state(p, world, s, no_buttons()).vx == Val::zero(),
        step_state(p, world, s, no_buttons()).vy.is_plus(),
        lowered(box_of(s), rest_drop(p, s)) != box_of(s) ==> step_state(
            p,
            world,
            s,
            no_buttons(),
        ).vy == Val::zero(),
        step_state(p, world, s, no_buttons()).grounded == 1,
        step_events(p, world, s, no_buttons()) == (Events { jumped: 0, landed: 0, bonked: 0 }),
{
    let b = no_buttons();
    let r = box_of(s);
    lemma_rest_velocity(p, s);
    lemma_pixel_is_fixed(s.x);
    lemma_pixel_is_fixed(s.y);
    lemma_pixel_is_fixed(s.w);
    lemma_pixel_is_fixed(s.h);
    assert(start_rect(s) == r);
    let vy = vy_launched(p, s, b);
    lemma_rest_substep(p, vy);
    lemma_rest_substeps(p, world, s, tick_substeps(p, Val::zero(), vy));
    let m = moved(p, world, s, b);
    assert(m == traveled(p, world, r, Val::zero(), vy));
    assert(m.rect == r && !m.bonked);
    let reach = p.snap_to_ground.round();
    let probe = RectV { y: m.rect.y.add(reach), ..m.rect };
    assert(probe == lowered(r, reach));
    lemma_first_hit_overlaps(probe, world, 0);
    let f = footing(p, world, m);
    assert(f.grounded && f.y == r.y);
}

/// The default parameters are steady.
pub proof fn lemma_default_is_steady()
    ensures
        steady_params(default_params()),
{
    reveal(Val::lt);
    lemma_val_of_small_int(2600);
    lemma_val_of_small_int(260);
    lemma_val_of_small_int(2300);
    lemma_val_of_small_int(1200);
    lemma_val_of_small_int(6);
    lemma_pow2_pos(149);
    assert(6 * one() > 0);
}

/// With the default parameters an actor at rest gains between 38 and 41
/// pixels per second in a tick of gravity.
pub proof fn lemma_default_fall(s: StateV)
    requires
        s.vx.is_zero(),
        s.vy.is_zero(),
        s.grounded != 0,
        !s.jump_buffer.gt(tick()),
    ensures
        vy_launched(default_params(), s, no_buttons()) is Fin,
        !vy_launched(default_params(), s, no_buttons()).is_neg(),
        38 * one() <= vy_launched(default_params(), s, no_buttons()).mag() <= 41 * one(),
{
    let p = default_params();
    let b = no_buttons();
    lemma_default_is_steady();
    lemma_rest_velocity(p, s);
    lemma_no_buttons();
    lemma_tick_value();
    lemma_val_of_small_int(2300);
    lemma_val_of_small_int(-5000);
    lemma_val_of_small_int(1200);
    lemma2_to64();
    lemma_pow2_sum(29, 120);
    lemma_pow2_sum(128, 149);
    lemma_pow2_monotone(24, 128);
    let u = one();
    let t = tick().mag();
    let unit = pow2(120);
    lemma_pow2_pos(120);
    assert(u == 0x2000_0000 * unit);
    assert(t == 0x88_8889 * unit);
    reveal(Val::mul);
    reveal(Val::add);
    reveal(Val::lt);
    let num = 2300 * u * t;
    assert(38 * pow2(149) * u <= num && num <= 41 * pow2(149) * u) by (nonlinear_arith)
        requires
            num == 2300 * u * t,
            pow2(149) == u,
            u == 0x2000_0000 * unit,
            t == 0x88_8889 * unit,
            unit > 0,
    ;
    lemma_round_ratio_between(num, u, 38, 149, 41, 149);
    let gained = round_ratio(num, u);
    assert(41 * u < pow2(277)) by (nonlinear_arith)
        requires
            pow2(277) == pow2(128) * u,
            pow2(128) >= 0x100_0000,
            u > 0,
    ;
    let pull = p.gravity_down.mul(tick());
    assert(pull == (Val::Fin { neg: false, mag: gained }));
    assert(38 * pow2(149) * 1 <= gained && gained <= 41 * pow2(149) * 1);
    lemma_round_ratio_between(gained, 1, 38, 149, 41, 149);
    let fall = s.vy.add(pull);
    assert(s.vy.signed() == 0);
    assert(fall == (Val::Fin { neg: false, mag: round_ratio(gained, 1) }));
    assert(1200 * u > 41 * u) by (nonlinear_arith)
        requires
            u > 0,
    ;
    assert(5000 * u > 0);
    assert(vy_fallen(p, s, b) == fall);
}

/// With the default parameters gravity moves an actor at rest by one pixel in
/// a tick, in one substep.
pub proof fn lemma_default_drop(s: StateV)
    requires
        s.vx.is_zero(),
        s.vy.is_zero(),
        s.grounded != 0,
        !s.jump_buffer.gt(tick()),
    ensures
        rest_drop(default_params(), s) == val_of_int(1),
{
    let p = default_params();
    let b = no_buttons();
    lemma_default_is_steady();
    lemma_rest_velocity(p, s);
    lemma_default_fall(s);
    lemma_tick_value();
    lemma_val_of_small_int(1);
    lemma_val_of_small_int(6);
    lemma2_to64();
    lemma_pow2_sum(29, 120);
    lemma_pow2_sum(128, 149);
    lemma_pow2_monotone(24, 128);
    lemma_pow2_double(148);
    lemma_pow2_sum(145, 3);
    let u = one();
    let half = pow2(148);
    let t = tick().mag();
    let unit = pow2(120);
    lemma_pow2_pos(120);
    lemma_pow2_pos(145);
    assert(u == 0x2000_0000 * unit);
    assert(t == 0x88_8889 * unit);
    assert(u == 2 * half);
    assert(u < pow2(277)) by (nonlinear_arith)
        requires
            pow2(277) == pow2(128) * u,
            pow2(128) >= 0x100_0000,
            u > 0,
    ;
    let vy = vy_launched(p, s, b);
    let v = vy.mag();
    // The way of the tick: between half a pixel and one.
    reveal(Val::mul);
    let num = v * t;
    assert(1 * half * u <= num && num <= 1 * pow2(149) * u) by (nonlinear_arith)
        requires
            num == v * t,
            38 * u <= v <= 41 * u,
            pow2(149) == u,
            u == 2 * half,
            u == 0x2000_0000 * unit,
            t == 0x88_8889 * unit,
            unit > 0,
    ;
    lemma_round_ratio_between(num, u, 1, 148, 1, 149);
    let way = round_ratio(num, u);
    assert(1 * half == half && 1 * pow2(149) == u);
    let total_dy = vy.mul(tick());
    assert(total_dy == (Val::Fin { neg: false, mag: way }));
    lemma_zero_stays(tick());
    let total_dx = Val::zero().mul(tick());
    assert(total_dx == Val::zero());
    // One substep.
    reveal(Val::lt);
    reveal(Val::div);
    reveal(Val::ceil);
    reveal(Val::to_i32);
    assert(half > 0);
    let longest = max_step(p);
    assert(longest == val_of_int(6));
    let longer = total_dx.abs().max(total_dy.abs());
    assert(longer == total_dy);
    let parts_num = way * u;
    let parts_den = 6 * u;
    let eighth = pow2(145);
    assert(half == eighth * 8);
    assert(1 * eighth * parts_den <= parts_num && parts_num <= 1 * half * parts_den)
        by (nonlinear_arith)
        requires
            parts_num == way * u,
            parts_den == 6 * u,
            half <= way <= u,
            half == eighth * 8,
            u == 2 * half,
            eighth > 0,
    ;
    lemma_round_ratio_between(parts_num, parts_den, 1, 145, 1, 148);
    let part = round_ratio(parts_num, parts_den);
    assert(1 * eighth == eighth);
    assert(0 < part < u);
    let ratio = longer.div(longest);
    assert(ratio == (Val::Fin { neg: false, mag: part }));
    lemma_small_mod(part, u);
    lemma_basic_div(part as int, u as int);
    assert((0 + 1) * u == u);
    assert(ratio.ceil() == (Val::Fin { neg: false, mag: u }));
    assert(val_of_int(1) == (Val::Fin { neg: false, mag: u })) by {
        assert(1 * u == u);
    }
    lemma_div_by_multiple(1, u as int);
    assert(tick_substeps(p, Val::zero(), vy) == 1);
    // The way of the substep is the way of the tick, and rounds to a pixel.
    assert(1 * half * u <= way * u && way * u <= 1 * pow2(149) * u) by (nonlinear_arith)
        requires
            half <= way <= u,
            pow2(149) == u,
            u > 0,
    ;
    lemma_round_ratio_between(way * u, u, 1, 148, 1, 149);
    let dy = substep_dy(p, Val::zero(), vy);
    let d = round_ratio(way * u, u);
    assert(dy == (Val::Fin { neg: false, mag: d }));
    reveal(Val::round);
    assert(2 * u <= 2 * d + u <= 3 * u);
    lemma_fundamental_div_mod_converse((2 * d + u) as int, (2 * u) as int, 1, 2 * d + u - 2 * u);
    assert(1 * u == u);
    assert(vx_after(p, s, b) == Val::zero());
}

/// With the default parameters, an actor that stands still on a floor stays
/// as it is: a step with no button held changes neither place nor velocity,
/// leaves it grounded and reports no event, so that the next step finds the
/// same. The actor stands on whole pixels inside the world, its feet on the
/// floor's top, within the floor's width, and the floor reaches below the
/// ground snap's probe.
pub proof fn law_default_rest_is_kept(s: StateV, floor: RectV)
    requires
        s.x.is_pixel() && s.y.is_pixel() && s.w.is_pixel() && s.h.is_pixel(),
        -0x40_0000 < pixels(s.y) < 0x40_0000,
        0 <= pixels(s.h) < 0x40_0000,
        1 <= pixels(s.w),
        0 <= pixels(s.x),
        pixels(s.x) + pixels(s.w) <= 960,
        s.vx.is_zero(),
        s.vy.is_zero(),
        s.grounded != 0,
        !s.jump_buffer.gt(tick()),
        floor.y == s.y.add(s.h),
        floor.x.le(s.x),
        s.x.add(s.w).le(floor.x.add(floor.w)),
        s.y.add(val_of_int(6)).lt(floor.y.add(floor.h)),
    ensures
        ({
            let after = step_state(default_params(), seq![floor], s, no_buttons());
            &&& after.x == s.x && after.y == s.y
            &&& after.vx == Val::zero() && after.vy == Val::zero()
            &&& after.grounded == 1
            &&& step_events(default_params(), seq![floor], s, no_buttons()) == (Events {
                jumped: 0,
                landed: 0,
                bonked: 0,
            })
        }),
{
    let p = default_params();
    let world = seq![floor];
    let r = box_of(s);
    lemma_default_is_steady();
    lemma_default_drop(s);
    let x = pixels(s.x);
    let y = pixels(s.y);
    let w = pixels(s.w);
    let h = pixels(s.h);
    lemma_pixel_as_int(s.x);
    lemma_pixel_as_int(s.y);
    lemma_pixel_as_int(s.w);
    lemma_pixel_as_int(s.h);
    lemma_int_arith(y, h);
    lemma_int_arith(y, 1);
    lemma_int_arith(y, 6);
    lemma_int_arith(y + 1, h);
    lemma_int_arith(y + 6, h);
    lemma_int_arith(y + h, h);
    lemma_int_arith(y + h, y + 1 + h);
    lemma_int_arith(y + h, y + 6 + h);
    lemma_int_arith(y + 1, y + 6);
    lemma_int_arith(y + 1, y);
    lemma_int_arith(x, w);
    lemma_int_arith(x, x + w);
    lemma_int_arith(x + w, 0);
    lemma_int_arith(960, x);
    lemma_int_arith(960, 1);
    lemma_int_is_pixel(1);
    lemma_int_is_pixel(6);
    lemma_int_is_pixel(960);
    let fallen = lowered(r, rest_drop(p, s));
    let reach = p.snap_to_ground.round();
    let probe = lowered(r, reach);
    assert(fallen.y == val_of_int(y + 1));
    assert(probe.y == val_of_int(y + 6));
    assert(floor.y == val_of_int(y + h));
    reveal(Val::lt);
    reveal(Val::same);
    assert(!fallen.y.same(r.y));
    assert(fallen != r);
    assert(!overlaps(r, floor));
    assert(overlaps(fallen, floor));
    assert(overlaps(probe, floor));
    assert(floor.y.sub(r.h) == r.y);
    assert(world[0] == floor);
    assert(first_hit(probe, world, 0) == Some(0int));
    assert(at_rest(p, world, s));
    // The edge wrap leaves an actor inside the world alone.
    reveal(Val::to_i32);
    lemma_val_of_small_int(1);
    lemma_div_by_multiple(1, one() as int);
    assert(1 * one() == one());
    assert(wrap_mode(p) == 1);
    assert(p.world_w.max(val_of_int(1)).round() == val_of_int(960));
    lemma_pixel_is_fixed(s.x);
    lemma_pixel_is_fixed(s.w);
    assert(wrapped_x(p, s.x, s.w) == s.x);
    law_rest_is_kept(p, world, s);
}

} // verus!
