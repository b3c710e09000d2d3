//! What holds of every step and of every run.
use crate::buttons::Buttons;
use crate::geom::{Rect, RectV};
use crate::host::rects_view;
use crate::events::Events;
use crate::kernel::{driven_vx, stepped, jump_fires, jump_pressed, moved, step_events, step_state, tick, top_speed, vx_after, vy_fallen, vy_launched, wrap_mode, wrapped_center, wrapped_x};
use crate::params::{Params, ParamsV};
use crate::single::facts::{lemma_half_of_even, lemma_int_arith, lemma_int_is_pixel, lemma_int_rem, lemma_canonical_bits, lemma_max_is_upper, lemma_min_is_lower, lemma_neg_le, lemma_order_needs_numbers, lemma_remainder_positive, lemma_round_ratio_bounds, lemma_tick_value, lemma_val_of_small_int};
use crate::single::model::{one, overflow_bound, val_of_int, val_of_ratio, Val};
use crate::single::rounding::lemma_round_ratio_exact;
use vstd::arithmetic::power2::pow2;
use crate::state::{State, StateV};
use crate::trace::{buttons_of, events_at, state_after, state_before, Frame};
use vstd::arithmetic::div_mod::{lemma_fundamental_div_mod, lemma_fundamental_div_mod_converse, lemma_mod_bound};
use vstd::prelude::*;

verus! {

/// A run depends on what the bit patterns of its parameters, world and
/// initial state denote, and on the inputs, and on nothing else: two runs
/// from arguments that denote the same agree in every state and every event.
pub proof fn law_runs_agree(
    p: Params,
    q: Params,
    w: Seq<Rect>,
    v: Seq<Rect>,
    s: State,
    t: State,
    inputs: Seq<u8>,
    i: int,
)
    requires
        p@ == q@,
        rects_view(w) == rects_view(v),
        s@ == t@,
    ensures
        state_after(p@, rects_view(w), s@, inputs, i) == state_after(
            q@,
            rects_view(v),
            t@,
            inputs,
            i,
        ),
        events_at(p@, rects_view(w), s@, inputs, i) == events_at(q@, rects_view(v), t@, inputs, i),
{
}

/// Two states that denote the same numbers in canonical bit patterns are the
/// same bit for bit. A bit pattern that is a number is always canonical.
pub proof fn law_same_numbers_same_bits(a: State, b: State)
    requires
        a@ == b@,
        a.x.canonical() && a.y.canonical() && a.vx.canonical() && a.vy.canonical(),
        a.w.canonical() && a.h.canonical() && a.coyote.canonical() && a.jump_buffer.canonical(),
        b.x.canonical() && b.y.canonical() && b.vx.canonical() && b.vy.canonical(),
        b.w.canonical() && b.h.canonical() && b.coyote.canonical() && b.jump_buffer.canonical(),
    ensures
        a == b,
{
    lemma_canonical_bits(a.x, b.x);
    lemma_canonical_bits(a.y, b.y);
    lemma_canonical_bits(a.vx, b.vx);
    lemma_canonical_bits(a.vy, b.vy);
    lemma_canonical_bits(a.w, b.w);
    lemma_canonical_bits(a.h, b.h);
    lemma_canonical_bits(a.coyote, b.coyote);
    lemma_canonical_bits(a.jump_buffer, b.jump_buffer);
}

/// A step fixes every bit of its outcome. Whatever two calls of the step
/// return for the same parameters, world, state and buttons, they return the
/// same events and states that are equal bit for bit, not-a-number included.
/// The two times that the parameters give must be canonical bit patterns, as
/// every number is.
pub proof fn law_step_fixes_every_bit(
    params: Params,
    world: Seq<RectV>,
    before: State,
    buttons: Buttons,
    first: State,
    first_events: Events,
    second: State,
    second_events: Events,
)
    requires
        params.coyote_time.canonical(),
        params.jump_buffer.canonical(),
        stepped(params, world, before, buttons, first, first_events),
        stepped(params, world, before, buttons, second, second_events),
    ensures
        first == second,
        first_events == second_events,
{
    lemma_canonical_bits(first.x, second.x);
    lemma_canonical_bits(first.y, second.y);
    lemma_canonical_bits(first.vx, second.vx);
    lemma_canonical_bits(first.vy, second.vy);
    lemma_canonical_bits(first.coyote, second.coyote);
    lemma_canonical_bits(first.jump_buffer, second.jump_buffer);
}

/// A run fixes every bit of every tick. Whatever two runs return for the
/// same parameters, world, initial state and inputs, they return the same
/// states, bit for bit, and the same events, tick by tick.
pub proof fn law_run_fixes_every_bit(
    params: Params,
    world: Seq<RectV>,
    start: State,
    inputs: Seq<u8>,
    first: Seq<Frame>,
    second: Seq<Frame>,
    i: int,
)
    requires
        params.coyote_time.canonical(),
        params.jump_buffer.canonical(),
        first.len() == inputs.len(),
        second.len() == inputs.len(),
        forall|j: int|
            0 <= j < inputs.len() ==> stepped(
                params,
                world,
                state_before(start, first, j),
                buttons_of(inputs[j]),
                (#[trigger] first[j]).state,
                first[j].events,
            ),
        forall|j: int|
            0 <= j < inputs.len() ==> stepped(
                params,
                world,
                state_before(start, second, j),
                buttons_of(inputs[j]),
                (#[trigger] second[j]).state,
                second[j].events,
            ),
        0 <= i < inputs.len(),
    ensures
        first[i] == second[i],
    decreases i,
{
    if i > 0 {
        law_run_fixes_every_bit(params, world, start, inputs, first, second, i - 1);
    }
    assert(state_before(start, first, i) == state_before(start, second, i));
    law_step_fixes_every_bit(
        params,
        world,
        state_before(start, first, i),
        buttons_of(inputs[i]),
        first[i].state,
        first[i].events,
        second[i].state,
        second[i].events,
    );
}

/// A landing is reported on the tick on which the actor comes to stand on
/// ground, having been in the air when the tick began, and on no other tick.
pub proof fn law_landing_is_a_transition(p: ParamsV, world: Seq<RectV>, s: StateV, b: Buttons)
    ensures
        step_events(p, world, s, b).landed <= 1,
        step_events(p, world, s, b).landed == 1 <==> s.grounded == 0 && step_state(
            p,
            world,
            s,
            b,
        ).grounded != 0,
{
}

/// In a run, tick `i` reports a landing exactly if the actor was in the air
/// after tick `i - 1` and stands on ground after tick `i`: once for every
/// time in the air, and never while it stays on ground.
pub proof fn law_landing_once_per_flight(
    p: ParamsV,
    world: Seq<RectV>,
    start: StateV,
    inputs: Seq<u8>,
    i: int,
)
    requires
        0 <= i < inputs.len(),
    ensures
        events_at(p, world, start, inputs, i).landed == 1 <==> state_after(
            p,
            world,
            start,
            inputs,
            i,
        ).grounded == 0 && state_after(p, world, start, inputs, i + 1).grounded != 0,
{
    let before = state_after(p, world, start, inputs, i);
    law_landing_is_a_transition(p, world, before, buttons_of(inputs[i]));
    assert(state_after(p, world, start, inputs, i + 1) == step_state(
        p,
        world,
        before,
        buttons_of(inputs[i]),
    ));
}

/// A jump begins exactly if the actor stood on ground when the tick began, or
/// left it less than the coyote time ago, and a jump is asked for: pressed
/// this tick with a positive buffer time, or pressed less than the buffer time
/// ago.
pub proof fn law_jump_gate(p: ParamsV, world: Seq<RectV>, s: StateV, b: Buttons)
    ensures
        step_events(p, world, s, b).jumped == 1 <==> jump_fires(p, s, b),
        jump_fires(p, s, b) <==> (s.grounded != 0 || s.coyote.gt(tick())) && (if jump_pressed(
            s,
            b,
        ) {
            p.jump_buffer.gt(Val::zero())
        } else {
            s.jump_buffer.gt(tick())
        }),
{
    lemma_tick_value();
    lemma_remainder_positive(s.coyote, tick());
    lemma_remainder_positive(s.jump_buffer, tick());
}

/// A jump button that is held in the air after the coyote time has run out
/// starts no jump, and the vertical velocity is what gravity alone makes of
/// it.
pub proof fn law_no_jump_in_the_air(p: ParamsV, world: Seq<RectV>, s: StateV, b: Buttons)
    requires
        s.grounded == 0,
        !s.coyote.gt(tick()),
        b.jump_held(),
    ensures
        step_events(p, world, s, b).jumped == 0,
        vy_launched(p, s, b) == vy_fallen(p, s, b),
{
    law_jump_gate(p, world, s, b);
}

/// The horizontal velocity of a tick lies within the top speed of that tick
/// in both directions, whatever it was before and whatever is held. The top
/// speed has to be a number that is not negative.
pub proof fn law_speed_within_top(p: ParamsV, world: Seq<RectV>, s: StateV, b: Buttons)
    requires
        Val::zero().le(top_speed(p, s, b)),
    ensures
        step_state(p, world, s, b).vx == vx_after(p, s, b),
        vx_after(p, s, b).le(top_speed(p, s, b)),
        top_speed(p, s, b).neg().le(vx_after(p, s, b)),
{
    let top = top_speed(p, s, b);
    let lo = top.neg();
    lemma_order_needs_numbers(Val::zero(), top);
    lemma_neg_le(top);
    let raised = driven_vx(p, s, b).max(lo);
    lemma_max_is_upper(driven_vx(p, s, b), lo);
    lemma_min_is_lower(raised, top);
    assert(vx_after(p, s, b) == raised.min(top));
}

/// With top speeds and a run multiplier that are finite and not negative,
/// the top speed of every tick is a number that is not negative.
pub proof fn law_top_speed_is_a_speed(p: ParamsV, s: StateV, b: Buttons)
    requires
        p.ground_max_speed is Fin && !p.ground_max_speed.is_neg(),
        p.air_max_speed is Fin && !p.air_max_speed.is_neg(),
        p.run_multiplier is Fin && !p.run_multiplier.is_neg(),
    ensures
        Val::zero().le(top_speed(p, s, b)),
{
    reveal(Val::mul);
    reveal(Val::lt);
    reveal(Val::same);
    lemma_val_of_small_int(1);
}

/// In a run with such parameters the velocity after every tick lies within
/// the top speed of that tick, however long a direction is held.
pub proof fn law_speed_bounded_in_a_run(
    p: ParamsV,
    world: Seq<RectV>,
    start: StateV,
    inputs: Seq<u8>,
    i: int,
)
    requires
        0 <= i < inputs.len(),
        p.ground_max_speed is Fin && !p.ground_max_speed.is_neg(),
        p.air_max_speed is Fin && !p.air_max_speed.is_neg(),
        p.run_multiplier is Fin && !p.run_multiplier.is_neg(),
    ensures
        ({
            let before = state_after(p, world, start, inputs, i);
            let after = state_after(p, world, start, inputs, i + 1);
            let top = top_speed(p, before, buttons_of(inputs[i]));
            after.vx.le(top) && top.neg().le(after.vx)
        }),
{
    let before = state_after(p, world, start, inputs, i);
    let b = buttons_of(inputs[i]);
    law_top_speed_is_a_speed(p, before, b);
    law_speed_within_top(p, world, before, b);
    assert(state_after(p, world, start, inputs, i + 1) == step_state(p, world, before, b));
}

/// The world's width as the wrap uses it: the configured one, at least 1.
pub open spec fn wrap_width(p: ParamsV) -> Val {
    p.world_w.max(val_of_int(1))
}

/// The centre that the torus wrap computes lies in the world: it is not
/// below 0 and it is below the world's width. The actor's centre has to be
/// finite, and the width finite and small enough to be doubled.
pub proof fn law_wrapped_center_in_world(p: ParamsV, x: Val, w: Val)
    requires
        x.add(val_of_ratio(1, 2).mul(w)) is Fin,
        wrap_width(p) is Fin,
        4 * wrap_width(p).mag() <= overflow_bound(),
    ensures
        wrapped_center(p, x, w) is Fin,
        Val::zero().le(wrapped_center(p, x, w)),
        wrapped_center(p, x, w).lt(wrap_width(p)),
{
    reveal(Val::rem);
    reveal(Val::add);
    reveal(Val::lt);
    reveal(Val::same);
    let width = wrap_width(p);
    lemma_val_of_small_int(1);
    lemma_max_is_upper(p.world_w, val_of_int(1));
    let wm = width.mag();
    assert(wm > 0 && !width.is_neg());
    let center = x.add(val_of_ratio(1, 2).mul(w));
    let r1 = center.rem(width);
    lemma_mod_bound(center.mag() as int, wm as int);
    assert(r1 is Fin && r1.mag() < wm);
    let sum = r1.signed() + width.signed();
    assert(0 < sum < 2 * wm);
    lemma_round_ratio_bounds(sum as nat);
    let r2 = r1.add(width);
    assert(r2 is Fin && !r2.is_neg());
    lemma_mod_bound(r2.mag() as int, wm as int);
}

/// With the torus wrap the actor's left edge after a step is the one that
/// belongs to the wrapped centre, rounded to a whole pixel.
pub proof fn law_torus_wrap_places_center(p: ParamsV, world: Seq<RectV>, s: StateV, b: Buttons)
    requires
        wrap_mode(p) == 2,
    ensures
        step_state(p, world, s, b).x == wrapped_center(p, moved(p, world, s, b).rect.x, s.w).sub(
            val_of_ratio(1, 2).mul(s.w),
        ).round(),
{
}

/// The world wrap moves the actor along x and changes nothing else: two
/// parameter sets that differ in the world's width and wrap mode alone give
/// steps that agree in everything but x, the velocity included.
pub proof fn law_wrap_keeps_velocity(
    p: ParamsV,
    q: ParamsV,
    world: Seq<RectV>,
    s: StateV,
    b: Buttons,
)
    requires
        q == (ParamsV { world_w: q.world_w, world_wrap_mode: q.world_wrap_mode, ..p }),
    ensures
        step_state(q, world, s, b) == (StateV {
            x: step_state(q, world, s, b).x,
            ..step_state(p, world, s, b)
        }),
        step_events(q, world, s, b) == step_events(p, world, s, b),
        step_state(q, world, s, b).x == wrapped_x(q, moved(p, world, s, b).rect.x, s.w),
{
}

/// On whole pixels the torus wrap is a true modulo. An actor at the whole
/// pixel `x`, of the even width `2 * m`, in a world of the whole width
/// `width`, is set where its centre is `(x + m) mod width`: the centre after
/// the wrap lies in the world, not below 0 and below the width, however far
/// outside the actor was and on whichever side.
pub proof fn law_torus_wrap_on_pixels(p: ParamsV, x: int, m: int, width: int)
    requires
        wrap_mode(p) == 2,
        p.world_w == val_of_int(width),
        1 <= width < 0x40_0000,
        -0x40_0000 < x < 0x40_0000,
        0 <= m < 0x20_0000,
    ensures
        ({
            let w = val_of_int(2 * m);
            let after = wrapped_x(p, val_of_int(x), w);
            let centre = after.add(val_of_ratio(1, 2).mul(w));
            &&& after == val_of_int((x + m) % width - m)
            &&& centre == val_of_int((x + m) % width)
            &&& centre == wrapped_center(p, val_of_int(x), w)
            &&& Val::zero().le(centre) && centre.lt(wrap_width(p))
        }),
{
    let w = val_of_int(2 * m);
    let c = x + m;
    let wide = val_of_int(width);
    lemma_half_of_even(m);
    lemma_int_arith(width, 1);
    lemma_val_of_small_int(width);
    assert(wrap_width(p) == wide);
    lemma_int_arith(x, m);
    lemma_int_rem(c, width);
    let k: int = if c < 0 {
        -c
    } else {
        c
    };
    let r = k % width;
    lemma_mod_bound(k, width);
    lemma_fundamental_div_mod(k, width);
    let first = val_of_int(c).rem(wide);
    let target = c % width;
    lemma_mod_bound(c, width);
    // The remainder with the width added, as a whole number.
    let lifted: int = if c < 0 {
        width - r
    } else {
        r + width
    };
    if c >= 0 {
        lemma_int_arith(r, width);
    } else if r > 0 {
        lemma_val_of_small_int(-r);
        lemma_int_arith(-r, width);
    } else {
        reveal(Val::add);
        lemma_round_ratio_exact(width as nat, 149, 1);
        assert(0 * one() == 0);
        assert((width as nat) * pow2(149) * 1 == width * one());
    }
    assert(first.add(wide) == val_of_int(lifted));
    lemma_int_rem(lifted, width);
    let q = k / width;
    if c >= 0 {
        lemma_fundamental_div_mod_converse(lifted, width, 1, r);
        assert(target == r);
    } else if r > 0 {
        lemma_fundamental_div_mod_converse(lifted, width, 0, width - r);
        assert(c == (-q - 1) * width + (width - r)) by (nonlinear_arith)
            requires
                k == width * q + r,
                c == -k,
        ;
        lemma_fundamental_div_mod_converse(c, width, -q - 1, width - r);
    } else {
        lemma_fundamental_div_mod_converse(lifted, width, 1, 0);
        assert(c == (-q) * width + 0) by (nonlinear_arith)
            requires
                k == width * q + r,
                r == 0,
                c == -k,
        ;
        lemma_fundamental_div_mod_converse(c, width, -q, 0);
    }
    assert(lifted % width == target);
    assert(wrapped_center(p, val_of_int(x), w) == val_of_int(target));
    lemma_int_arith(target, m);
    lemma_int_is_pixel(target - m);
    lemma_int_arith(target - m, m);
    lemma_int_arith(0, target);
    lemma_int_arith(target, width);
}

} // verus!
