//! The step kernel: one fixed tick of movement, collision and grounding.
//!
//! The order of the phases is part of what a step is: edges of the jump
//! button, timers, horizontal velocity, vertical velocity, jump, jump cut,
//! movement in substeps with collisions resolved axis by axis, ground snap,
//! landing, world wrap.
use crate::buttons::Buttons;
use crate::events::Events;
use crate::geom::{overlaps, rects_intersect, Rect, RectV};
use crate::params::{Params, ParamsV};
use crate::single::facts::lemma_val_of_small_int;
use crate::single::model::{one, val_of_int, val_of_ratio, Val};
use crate::single::repr::Single;
use crate::state::{State, StateV};
use vstd::arithmetic::div_mod::{lemma_div_by_multiple, lemma_div_is_ordered};
use vstd::prelude::*;

verus! {

/// The number of ticks in a second.
pub const HZ: i32 = 60;

/// The duration of a tick in seconds: one sixtieth, rounded.
pub open spec fn tick() -> Val {
    val_of_ratio(1, 60)
}

/// The duration of a tick in seconds.
pub fn tick_duration() -> (r: Single)
    ensures
        r@ == tick(),
{
    Single::from_ratio(1, HZ)
}

/// -1, 0 or 1 with the sign of `x`; 0 for a zero and for not-a-number.
pub open spec fn sign_of(x: Val) -> Val {
    if x.lt(Val::zero()) {
        val_of_int(-1)
    } else if x.gt(Val::zero()) {
        val_of_int(1)
    } else {
        val_of_int(0)
    }
}

/// `x` raised to `lo` and then lowered to `hi`.
pub open spec fn clamped(x: Val, lo: Val, hi: Val) -> Val {
    x.max(lo).min(hi)
}

/// `v` brought toward zero by `amount`, and to zero where it is within
/// `amount` of it.
pub open spec fn slowed(v: Val, amount: Val) -> Val {
    if v.abs().le(amount) {
        Val::zero()
    } else {
        v.sub(sign_of(v).mul(amount))
    }
}

/// The rectangle `r`, already moved along x by a step of direction `dx`, after
/// it was set flush against each of the first `n` rectangles of `world` that it
/// overlapped, in their order: to the left edge of one met moving right, to the
/// right edge of one met moving left.
pub open spec fn pushed_x(r: RectV, dx: Val, world: Seq<RectV>, n: int) -> RectV
    decreases n,
{
    if n <= 0 {
        r
    } else {
        let prev = pushed_x(r, dx, world, n - 1);
        let p = world[n - 1];
        if overlaps(prev, p) {
            if dx.gt(Val::zero()) {
                RectV { x: p.x.sub(prev.w), ..prev }
            } else if dx.lt(Val::zero()) {
                RectV { x: p.x.add(p.w), ..prev }
            } else {
                prev
            }
        } else {
            prev
        }
    }
}

/// A rectangle after a move, and what it met on the way down or up.
pub struct Contact {
    pub rect: RectV,
    pub ground: bool,
    pub head: bool,
}

/// As [`pushed_x`], along y: onto the top of a rectangle met moving down,
/// which is ground contact, and below the bottom of one met moving up, which
/// is head contact.
pub open spec fn pushed_y(r: RectV, dy: Val, world: Seq<RectV>, n: int) -> Contact
    decreases n,
{
    if n <= 0 {
        Contact { rect: r, ground: false, head: false }
    } else {
        let prev = pushed_y(r, dy, world, n - 1);
        let p = world[n - 1];
        if overlaps(prev.rect, p) {
            if dy.gt(Val::zero()) {
                Contact { rect: RectV { y: p.y.sub(prev.rect.h), ..prev.rect }, ground: true, ..prev }
            } else if dy.lt(Val::zero()) {
                Contact { rect: RectV { y: p.y.add(p.h), ..prev.rect }, head: true, ..prev }
            } else {
                prev
            }
        } else {
            prev
        }
    }
}

/// One substep: the move along x by `dx` rounded to a whole pixel, resolved
/// against the whole world, and then the same along y.
pub open spec fn resolved(r: RectV, dx: Val, dy: Val, world: Seq<RectV>) -> Contact {
    let along_x = pushed_x(RectV { x: r.x.add(dx.round()), ..r }, dx, world, world.len() as int);
    pushed_y(RectV { y: along_x.y.add(dy.round()), ..along_x }, dy, world, world.len() as int)
}

/// The jump button went down this tick.
pub open spec fn jump_pressed(s: StateV, b: Buttons) -> bool {
    b.jump_held() && s.jump_was_down == 0
}

/// The jump button went up this tick.
pub open spec fn jump_released(s: StateV, b: Buttons) -> bool {
    !b.jump_held() && s.jump_was_down != 0
}

/// The coyote timer after its update: full while grounded, else one tick
/// less, not below zero.
pub open spec fn coyote_after(p: ParamsV, s: StateV) -> Val {
    if s.grounded != 0 {
        p.coyote_time
    } else {
        s.coyote.sub(tick()).max(Val::zero())
    }
}

/// The jump buffer after its update: full on a press, else one tick less, not
/// below zero.
pub open spec fn buffer_after(p: ParamsV, s: StateV, b: Buttons) -> Val {
    if jump_pressed(s, b) {
        p.jump_buffer
    } else {
        s.jump_buffer.sub(tick()).max(Val::zero())
    }
}

/// The top speed of this tick: that of the ground or of the air, by where the
/// actor was when the tick began, times the run multiplier while running.
pub open spec fn top_speed(p: ParamsV, s: StateV, b: Buttons) -> Val {
    let run = if b.run_held() {
        p.run_multiplier
    } else {
        val_of_int(1)
    };
    if s.grounded != 0 {
        p.ground_max_speed.mul(run)
    } else {
        p.air_max_speed.mul(run)
    }
}

/// 1 for right, -1 for left, 0 for both or neither.
pub open spec fn move_dir(b: Buttons) -> int {
    (if b.right_held() {
        1int
    } else {
        0int
    }) - (if b.left_held() {
        1int
    } else {
        0int
    })
}

/// The horizontal velocity before it is clamped: accelerated toward the held
/// direction, at the deceleration rate while that opposes the motion; slowed
/// by friction on the ground while no direction is held; then, in the air,
/// slowed by drag where drag is positive.
pub open spec fn driven_vx(p: ParamsV, s: StateV, b: Buttons) -> Val {
    let grounded = s.grounded != 0;
    let dir = move_dir(b);
    let pushed = if dir != 0 {
        let desired = val_of_int(dir);
        let turning = !s.vx.same(Val::zero()) && !sign_of(s.vx).same(desired);
        let rate = if turning {
            if grounded {
                p.ground_decel
            } else {
                p.air_decel
            }
        } else {
            if grounded {
                p.ground_accel
            } else {
                p.air_accel
            }
        };
        s.vx.add(rate.mul(tick()).mul(desired))
    } else if grounded {
        slowed(s.vx, p.ground_friction.mul(tick()))
    } else {
        s.vx
    };
    if !grounded && p.air_drag.gt(Val::zero()) {
        slowed(pushed, p.air_drag.mul(tick()))
    } else {
        pushed
    }
}

/// The horizontal velocity of this tick, within the top speed either way.
pub open spec fn vx_after(p: ParamsV, s: StateV, b: Buttons) -> Val {
    clamped(driven_vx(p, s, b), top_speed(p, s, b).neg(), top_speed(p, s, b))
}

/// The vertical velocity after gravity: the upward gravity while rising, the
/// downward one else, that one times the fast-fall multiplier while falling
/// with the down button held; not above the terminal velocity.
pub open spec fn vy_fallen(p: ParamsV, s: StateV, b: Buttons) -> Val {
    let g = if s.vy.lt(Val::zero()) {
        p.gravity_up
    } else {
        p.gravity_down
    };
    let applied = if b.down_held() && s.vy.gt(Val::zero()) {
        g.mul(p.fast_fall_multiplier)
    } else {
        g
    };
    clamped(s.vy.add(applied.mul(tick())), val_of_int(-5000), p.terminal_velocity)
}

/// A jump begins: the actor stood on ground when the tick began or its coyote
/// time still runs, and a jump press is buffered.
pub open spec fn jump_fires(p: ParamsV, s: StateV, b: Buttons) -> bool {
    (s.grounded != 0 || coyote_after(p, s).gt(Val::zero())) && buffer_after(p, s, b).gt(
        Val::zero(),
    )
}

/// The vertical velocity after the jump and the jump cut: a jump sets it to
/// the jump velocity upward; a release of the button while rising slows the
/// rise to the cut fraction of the jump velocity.
pub open spec fn vy_launched(p: ParamsV, s: StateV, b: Buttons) -> Val {
    let vy = if jump_fires(p, s, b) {
        p.jump_velocity.neg()
    } else {
        vy_fallen(p, s, b)
    };
    let cut = p.jump_velocity.neg().mul(p.jump_cut_multiplier);
    if jump_released(s, b) && vy.lt(Val::zero()) && vy.lt(cut) {
        cut
    } else {
        vy
    }
}

/// The actor's box with every coordinate rounded to a whole pixel.
pub open spec fn start_rect(s: StateV) -> RectV {
    RectV { x: s.x.round(), y: s.y.round(), w: s.w.round(), h: s.h.round() }
}

/// The longest move of one substep: the configured one, at least 1.
pub open spec fn max_step(p: ParamsV) -> Val {
    p.max_step_px.max(val_of_int(1))
}

/// The number of substeps for a tick that moves by `total_dx` and `total_dy`:
/// the longer of the two over the longest substep, rounded up, at least 1.
pub open spec fn substep_count(p: ParamsV, total_dx: Val, total_dy: Val) -> int {
    total_dx.abs().max(total_dy.abs()).div(max_step(p)).ceil().max(val_of_int(1)).to_i32()
}

/// What the substeps carry along.
pub struct Moving {
    pub rect: RectV,
    pub vy: Val,
    pub bonked: bool,
    pub ground: bool,
}

/// One more substep of `dx` and `dy`. Head contact while rising stops the rise
/// and is a bonk; ground contact while falling stops the fall; ground contact
/// is remembered.
pub open spec fn next_substep(prev: Moving, dx: Val, dy: Val, world: Seq<RectV>) -> Moving {
    let c = resolved(prev.rect, dx, dy, world);
    let bonk = c.head && prev.vy.lt(Val::zero());
    let vy = if bonk {
        Val::zero()
    } else {
        prev.vy
    };
    Moving {
        rect: c.rect,
        vy: if c.ground && vy.gt(Val::zero()) {
            Val::zero()
        } else {
            vy
        },
        bonked: prev.bonked || bonk,
        ground: prev.ground || c.ground,
    }
}

/// The actor after `k` substeps of `dx` and `dy` each.
pub open spec fn after_substeps(
    start: Moving,
    dx: Val,
    dy: Val,
    world: Seq<RectV>,
    k: int,
) -> Moving
    decreases k,
{
    if k <= 0 {
        start
    } else {
        next_substep(after_substeps(start, dx, dy, world, k - 1), dx, dy, world)
    }
}

/// The box `rect` after a tick at the velocity `vx`, `vy`: the way of the
/// tick, split evenly over its substeps.
pub open spec fn traveled(p: ParamsV, world: Seq<RectV>, rect: RectV, vx: Val, vy: Val) -> Moving {
    after_substeps(
        Moving { rect, vy, bonked: false, ground: false },
        substep_dx(p, vx, vy),
        substep_dy(p, vx, vy),
        world,
        tick_substeps(p, vx, vy),
    )
}

/// The number of substeps of a tick at the velocity `vx`, `vy`.
pub open spec fn tick_substeps(p: ParamsV, vx: Val, vy: Val) -> int {
    substep_count(p, vx.mul(tick()), vy.mul(tick()))
}

/// The way along x of one substep of a tick at the velocity `vx`, `vy`,
/// before it is rounded.
pub open spec fn substep_dx(p: ParamsV, vx: Val, vy: Val) -> Val {
    vx.mul(tick()).div(val_of_int(tick_substeps(p, vx, vy)))
}

/// The way along y of one substep of a tick at the velocity `vx`, `vy`,
/// before it is rounded.
pub open spec fn substep_dy(p: ParamsV, vx: Val, vy: Val) -> Val {
    vy.mul(tick()).div(val_of_int(tick_substeps(p, vx, vy)))
}

/// The actor after the substeps of this tick.
pub open spec fn moved(p: ParamsV, world: Seq<RectV>, s: StateV, b: Buttons) -> Moving {
    traveled(p, world, start_rect(s), vx_after(p, s, b), vy_launched(p, s, b))
}

/// The index of the first rectangle from `i` on that `probe` overlaps.
pub open spec fn first_hit(probe: RectV, world: Seq<RectV>, i: int) -> Option<int>
    decreases world.len() - i,
{
    if i < 0 || i >= world.len() {
        None
    } else if overlaps(probe, world[i]) {
        Some(i)
    } else {
        first_hit(probe, world, i + 1)
    }
}

/// Where the actor stands after the ground snap, and whether on ground.
pub struct Footing {
    pub y: Val,
    pub grounded: bool,
}

/// The ground snap. With a positive snap distance the actor's box, moved down
/// by that distance rounded, is held against the world: the first rectangle
/// that it overlaps is ground, and the actor is set onto it if its lower edge
/// lies within the snap distance of the rectangle's top. With no snap
/// distance the actor is on ground if a substep met ground.
pub open spec fn footing(p: ParamsV, world: Seq<RectV>, m: Moving) -> Footing {
    if p.snap_to_ground.gt(Val::zero()) {
        let reach = p.snap_to_ground.round();
        let probe = RectV { y: m.rect.y.add(reach), ..m.rect };
        match first_hit(probe, world, 0) {
            Some(i) => Footing {
                y: if m.rect.y.add(m.rect.h).le(world[i].y.add(reach)) {
                    world[i].y.sub(m.rect.h)
                } else {
                    m.rect.y
                },
                grounded: true,
            },
            None => Footing { y: m.rect.y, grounded: false },
        }
    } else {
        Footing { y: m.rect.y, grounded: m.ground }
    }
}

/// The world wrap mode: the parameter rounded to a whole number.
pub open spec fn wrap_mode(p: ParamsV) -> int {
    p.world_wrap_mode.round().to_i32()
}

/// The centre of an actor at `x` of width `w`, brought into the world's width
/// by a true modulo: the remainder, the width added, the remainder again.
pub open spec fn wrapped_center(p: ParamsV, x: Val, w: Val) -> Val {
    let width = p.world_w.max(val_of_int(1));
    x.add(val_of_ratio(1, 2).mul(w)).rem(width).add(width).rem(width)
}

/// The actor's left edge after the world wrap. Mode 1: an actor whose whole
/// box has left the world on the left, its right edge below 0, reappears with
/// its right edge at the world's right edge; one whose whole box has left it
/// on the right, its left edge beyond the width, reappears at 0; a box that
/// is still partly inside stays, on whole pixels. Mode 2: the left edge that
/// belongs to the wrapped centre, rounded. Any other mode: no wrap.
pub open spec fn wrapped_x(p: ParamsV, x: Val, w: Val) -> Val {
    if wrap_mode(p) == 1 {
        let width = p.world_w.max(val_of_int(1)).round();
        let left = x.round();
        let right = left.add(w.round());
        if right.lt(Val::zero()) {
            width.sub(w.round())
        } else if left.gt(width) {
            Val::zero()
        } else {
            left
        }
    } else if wrap_mode(p) == 2 {
        wrapped_center(p, x, w).sub(val_of_ratio(1, 2).mul(w)).round()
    } else {
        x
    }
}

/// The state after one tick.
pub open spec fn step_state(p: ParamsV, world: Seq<RectV>, s: StateV, b: Buttons) -> StateV {
    let m = moved(p, world, s, b);
    let f = footing(p, world, m);
    let fires = jump_fires(p, s, b);
    StateV {
        x: wrapped_x(p, m.rect.x, s.w),
        y: f.y,
        vx: vx_after(p, s, b),
        vy: m.vy,
        w: s.w,
        h: s.h,
        grounded: if f.grounded {
            1
        } else {
            0
        },
        coyote: if fires {
            Val::zero()
        } else {
            coyote_after(p, s)
        },
        jump_buffer: if fires {
            Val::zero()
        } else {
            buffer_after(p, s, b)
        },
        jump_was_down: if b.jump_held() {
            1
        } else {
            0
        },
    }
}

/// The events of one tick.
pub open spec fn step_events(p: ParamsV, world: Seq<RectV>, s: StateV, b: Buttons) -> Events {
    let m = moved(p, world, s, b);
    let f = footing(p, world, m);
    Events {
        jumped: if jump_fires(p, s, b) {
            1
        } else {
            0
        },
        landed: if f.grounded && s.grounded == 0 {
            1
        } else {
            0
        },
        bonked: if m.bonked {
            1
        } else {
            0
        },
    }
}

/// What a step makes of a state, bit for bit: `after` and `ev` denote the
/// state and the events of the step; place and velocity in `after` are
/// canonical bit patterns, the size is that of `before` unchanged, and the
/// two timers are canonical if the times that the parameters give are.
pub open spec fn stepped(
    params: Params,
    world: Seq<RectV>,
    before: State,
    buttons: Buttons,
    after: State,
    ev: Events,
) -> bool {
    &&& after@ == step_state(params@, world, before@, buttons)
    &&& ev == step_events(params@, world, before@, buttons)
    &&& after.x.canonical() && after.y.canonical()
    &&& after.vx.canonical() && after.vy.canonical()
    &&& after.w == before.w && after.h == before.h
    &&& params.coyote_time.canonical() ==> after.coyote.canonical()
    &&& params.jump_buffer.canonical() ==> after.jump_buffer.canonical()
}

/// -1, 0 or 1 with the sign of `x`.
pub fn sign(x: Single) -> (r: Single)
    ensures
        r@ == sign_of(x@),
        r.canonical(),
{
    let zero = Single::zero(false);
    if x.lt(zero) {
        Single::from_i32(-1)
    } else if x.gt(zero) {
        Single::from_i32(1)
    } else {
        Single::from_i32(0)
    }
}

/// `x` raised to `lo` and then lowered to `hi`.
pub fn clamp(x: Single, lo: Single, hi: Single) -> (r: Single)
    ensures
        r@ == clamped(x@, lo@, hi@),
        r.canonical(),
{
    x.max(lo).min(hi)
}

/// `v` brought toward zero by `amount`.
pub fn slow(v: Single, amount: Single) -> (r: Single)
    ensures
        r@ == slowed(v@, amount@),
        r.canonical(),
{
    if v.abs().le(amount) {
        Single::zero(false)
    } else {
        v.sub(sign(v).mul(amount))
    }
}

/// One substep of the collision resolver: moves `r` by `dx` along x, rounded
/// to a whole pixel, and sets it flush against every rectangle of `world` that
/// it then overlaps; then does the same along y. Returns the rectangle and
/// whether it met ground and whether it met a ceiling.
pub fn resolve_axis_separated(r: Rect, dx: Single, dy: Single, world: &[Rect]) -> (out: (
    Rect,
    bool,
    bool,
))
    ensures
        out.0@ == resolved(r@, dx@, dy@, world.deep_view()).rect,
        out.1 == resolved(r@, dx@, dy@, world.deep_view()).ground,
        out.2 == resolved(r@, dx@, dy@, world.deep_view()).head,
        out.0.x.canonical() && out.0.y.canonical(),
        out.0.w == r.w && out.0.h == r.h,
{
    let zero = Single::zero(false);
    let n: usize = world.len();
    let ghost w = world.deep_view();
    let ghost given = r;
    let mut r = r;
    let mut hit_ground = false;
    let mut hit_head = false;

    r.x = r.x.add(dx.round());
    let ghost x_start = r@;
    let mut i: usize = 0;
    while i < n
        invariant
            n == world@.len(),
            i <= n,
            w == world.deep_view(),
            zero@ == Val::zero(),
            r@ == pushed_x(x_start, dx@, w, i as int),
            r.x.canonical(),
            r.w == given.w && r.h == given.h,
        decreases n - i,
    {
        let p = &world[i];
        assert(w[i as int] == p@);
        if rects_intersect(&r, p) {
            if dx.gt(zero) {
                r.x = p.x.sub(r.w);
            } else if dx.lt(zero) {
                r.x = p.x.add(p.w);
            }
        }
        i = i + 1;
    }

    r.y = r.y.add(dy.round());
    let ghost y_start = r@;
    let mut j: usize = 0;
    while j < n
        invariant
            n == world@.len(),
            j <= n,
            w == world.deep_view(),
            zero@ == Val::zero(),
            r@ == pushed_y(y_start, dy@, w, j as int).rect,
            r.x.canonical() && r.y.canonical(),
            r.w == given.w && r.h == given.h,
            hit_ground == pushed_y(y_start, dy@, w, j as int).ground,
            hit_head == pushed_y(y_start, dy@, w, j as int).head,
        decreases n - j,
    {
        let p = &world[j];
        assert(w[j as int] == p@);
        if rects_intersect(&r, p) {
            if dy.gt(zero) {
                r.y = p.y.sub(r.h);
                hit_ground = true;
            } else if dy.lt(zero) {
                r.y = p.y.add(p.h);
                hit_head = true;
            }
        }
        j = j + 1;
    }
    (r, hit_ground, hit_head)
}

/// The first rectangle of `world` that `probe` overlaps.
pub fn find_ground(probe: &Rect, world: &[Rect]) -> (r: Option<usize>)
    ensures
        match r {
            Some(i) => first_hit(probe@, world.deep_view(), 0) == Some(i as int) && i < world@.len(),
            None => first_hit(probe@, world.deep_view(), 0) is None,
        },
{
    let n: usize = world.len();
    let ghost w = world.deep_view();
    let mut i: usize = 0;
    while i < n
        invariant
            n == world@.len(),
            i <= n,
            w == world.deep_view(),
            first_hit(probe@, w, 0) == first_hit(probe@, w, i as int),
        decreases n - i,
    {
        assert(w[i as int] == world@[i as int]@);
        if rects_intersect(probe, &world[i]) {
            return Some(i);
        }
        i = i + 1;
    }
    None
}

/// The actor's left edge after the world wrap.
pub fn wrap_x(params: &Params, x: Single, w: Single) -> (r: Single)
    ensures
        r@ == wrapped_x(params@, x@, w@),
        x.canonical() ==> r.canonical(),
{
    let zero = Single::zero(false);
    let one = Single::from_i32(1);
    let mode: i32 = params.world_wrap_mode.round().to_i32();
    if mode == 1 {
        let width = params.world_w.max(one).round();
        let left = x.round();
        let right = left.add(w.round());
        if right.lt(zero) {
            width.sub(w.round())
        } else if left.gt(width) {
            zero
        } else {
            left
        }
    } else if mode == 2 {
        let width = params.world_w.max(one);
        let half = Single::from_ratio(1, 2);
        let center = x.add(half.mul(w));
        let wrapped = center.rem(width).add(width).rem(width);
        wrapped.sub(half.mul(w)).round()
    } else {
        x
    }
}

/// The horizontal velocity of this tick.
pub fn run_velocity(params: &Params, s: &State, buttons: Buttons) -> (vx: Single)
    ensures
        vx@ == vx_after(params@, s@, buttons),
        vx.canonical(),
{
    let zero = Single::zero(false);
    let dt = tick_duration();
    let left = buttons.contains(Buttons::left());
    let right = buttons.contains(Buttons::right());
    let run = buttons.contains(Buttons::run());
    let dir: i32 = (if right {
        1i32
    } else {
        0i32
    }) - (if left {
        1i32
    } else {
        0i32
    });
    let was_grounded = s.grounded != 0;
    let run_mul = if run {
        params.run_multiplier
    } else {
        Single::from_i32(1)
    };
    let top = if was_grounded {
        params.ground_max_speed.mul(run_mul)
    } else {
        params.air_max_speed.mul(run_mul)
    };
    let mut vx = s.vx;
    if dir != 0 {
        let desired = Single::from_i32(dir);
        let turning = !vx.same(zero) && !sign(vx).same(desired);
        let rate = if turning {
            if was_grounded {
                params.ground_decel
            } else {
                params.air_decel
            }
        } else {
            if was_grounded {
                params.ground_accel
            } else {
                params.air_accel
            }
        };
        vx = vx.add(rate.mul(dt).mul(desired));
    } else if was_grounded {
        vx = slow(vx, params.ground_friction.mul(dt));
    }
    if !was_grounded && params.air_drag.gt(zero) {
        vx = slow(vx, params.air_drag.mul(dt));
    }
    clamp(vx, top.neg(), top)
}

/// The two timers after their update: coyote time and jump buffer.
pub fn run_timers(params: &Params, s: &State, buttons: Buttons) -> (t: (Single, Single))
    ensures
        t.0@ == coyote_after(params@, s@),
        t.1@ == buffer_after(params@, s@, buttons),
        params.coyote_time.canonical() ==> t.0.canonical(),
        params.jump_buffer.canonical() ==> t.1.canonical(),
{
    let zero = Single::zero(false);
    let dt = tick_duration();
    let pressed = buttons.contains(Buttons::jump()) && s.jump_was_down == 0;
    let coyote = if s.grounded != 0 {
        params.coyote_time
    } else {
        s.coyote.sub(dt).max(zero)
    };
    let buffer = if pressed {
        params.jump_buffer
    } else {
        s.jump_buffer.sub(dt).max(zero)
    };
    (coyote, buffer)
}

/// The vertical velocity after gravity, jump and jump cut, and whether a jump
/// began.
pub fn rise_velocity(params: &Params, s: &State, buttons: Buttons) -> (out: (Single, bool))
    ensures
        out.0@ == vy_launched(params@, s@, buttons),
        out.1 == jump_fires(params@, s@, buttons),
        out.0.canonical(),
{
    let (coyote, buffer) = run_timers(params, s, buttons);
    let zero = Single::zero(false);
    let dt = tick_duration();
    let down = buttons.contains(Buttons::down());
    let released = !buttons.contains(Buttons::jump()) && s.jump_was_down != 0;
    let g = if s.vy.lt(zero) {
        params.gravity_up
    } else {
        params.gravity_down
    };
    let applied = if down && s.vy.gt(zero) {
        g.mul(params.fast_fall_multiplier)
    } else {
        g
    };
    let mut vy = clamp(s.vy.add(applied.mul(dt)), Single::from_i32(-5000), params.terminal_velocity);
    let fires = (s.grounded != 0 || coyote.gt(zero)) && buffer.gt(zero);
    if fires {
        vy = params.jump_velocity.neg();
    }
    if released && vy.lt(zero) {
        let cut = params.jump_velocity.neg().mul(params.jump_cut_multiplier);
        if vy.lt(cut) {
            vy = cut;
        }
    }
    (vy, fires)
}

/// What a tick's movement leaves: the box, the vertical velocity, and the
/// contacts.
pub struct Travel {
    pub rect: Rect,
    pub vy: Single,
    pub bonked: bool,
    pub ground: bool,
}

impl View for Travel {
    type V = Moving;

    open spec fn view(&self) -> Moving {
        Moving { rect: self.rect@, vy: self.vy@, bonked: self.bonked, ground: self.ground }
    }
}

/// A tick has at least one substep.
pub proof fn lemma_substep_count_positive(p: ParamsV, total_dx: Val, total_dy: Val)
    ensures
        substep_count(p, total_dx, total_dy) >= 1,
{
    let raw = total_dx.abs().max(total_dy.abs()).div(max_step(p)).ceil();
    lemma_at_least_one(raw);
}

/// A number raised to 1 is at least 1 as a whole number.
pub proof fn lemma_at_least_one(x: Val)
    ensures
        x.max(val_of_int(1)).to_i32() >= 1,
{
    reveal(Val::to_i32);
    reveal(Val::lt);
    lemma_val_of_small_int(1);
    lemma_div_by_multiple(1, one() as int);
    let m = x.max(val_of_int(1));
    if m is Fin {
        lemma_div_is_ordered(one() as int, m.mag() as int, one() as int);
    }
}

/// The number of substeps for a tick that moves by `total_dx` and `total_dy`.
pub fn count_substeps(params: &Params, total_dx: Single, total_dy: Single) -> (steps: i32)
    ensures
        steps == substep_count(params@, total_dx@, total_dy@),
        steps >= 1,
{
    let one = Single::from_i32(1);
    let longest = params.max_step_px.max(one);
    proof {
        lemma_substep_count_positive(params@, total_dx@, total_dy@);
    }
    total_dx.abs().max(total_dy.abs()).div(longest).ceil().max(one).to_i32()
}

/// Moves the box `rect` through one tick at the velocity `vx`, `vy`, substep
/// by substep.
pub fn travel(params: &Params, world: &[Rect], rect: Rect, vx: Single, vy: Single) -> (out: Travel)
    ensures
        out@ == traveled(params@, world.deep_view(), rect@, vx@, vy@),
        out.rect.carries(rect),
        vy.canonical() ==> out.vy.canonical(),
{
    let dt = tick_duration();
    let total_dx = vx.mul(dt);
    let total_dy = vy.mul(dt);
    let steps: i32 = count_substeps(params, total_dx, total_dy);
    let dx = total_dx.div(Single::from_i32(steps));
    let dy = total_dy.div(Single::from_i32(steps));
    let ghost w = world.deep_view();
    let ghost start = Moving { rect: rect@, vy: vy@, bonked: false, ground: false };
    let mut t = Travel { rect, vy, bonked: false, ground: false };
    let mut k: i32 = 0;
    while k < steps
        invariant
            0 <= k <= steps,
            w == world.deep_view(),
            after_substeps(start, dx@, dy@, w, k as int) == t@,
            t.rect.carries(rect),
            vy.canonical() ==> t.vy.canonical(),
        decreases steps - k,
    {
        t = substep(t, dx, dy, world);
        k = k + 1;
    }
    t
}

/// One more substep.
pub fn substep(t: Travel, dx: Single, dy: Single, world: &[Rect]) -> (out: Travel)
    ensures
        out@ == next_substep(t@, dx@, dy@, world.deep_view()),
        out.rect.x.canonical() && out.rect.y.canonical(),
        out.rect.w == t.rect.w && out.rect.h == t.rect.h,
        t.vy.canonical() ==> out.vy.canonical(),
{
    let zero = Single::zero(false);
    let (rect, hit_ground, hit_head) = resolve_axis_separated(t.rect, dx, dy, world);
    let mut vy = t.vy;
    let mut bonked = t.bonked;
    if hit_head && vy.lt(zero) {
        vy = zero;
        bonked = true;
    }
    if hit_ground && vy.gt(zero) {
        vy = zero;
    }
    Travel { rect, vy, bonked, ground: t.ground || hit_ground }
}

/// The ground snap: the actor's y and whether it stands on ground.
pub fn find_footing(params: &Params, world: &[Rect], t: &Travel) -> (out: (Single, bool))
    ensures
        (Footing { y: out.0@, grounded: out.1 }) == footing(params@, world.deep_view(), t@),
        t.rect.y.canonical() ==> out.0.canonical(),
{
    let zero = Single::zero(false);
    let rect = t.rect;
    if params.snap_to_ground.gt(zero) {
        let reach = params.snap_to_ground.round();
        let probe = Rect { x: rect.x, y: rect.y.add(reach), w: rect.w, h: rect.h };
        match find_ground(&probe, world) {
            Some(i) => {
                let ground = &world[i];
                assert(world.deep_view()[i as int] == ground@);
                if rect.y.add(rect.h).le(ground.y.add(reach)) {
                    (ground.y.sub(rect.h), true)
                } else {
                    (rect.y, true)
                }
            },
            None => (rect.y, false),
        }
    } else {
        (rect.y, t.ground)
    }
}

/// Advances the actor `s` by one tick among the rectangles of `world`, with
/// the buttons held during this tick, and reports what happened.
pub fn step(params: &Params, world: &[Rect], s: &mut State, buttons: Buttons) -> (ev: Events)
    ensures
        stepped(*params, world.deep_view(), *old(s), buttons, *final(s), ev),
        final(s)@ == step_state(params@, world.deep_view(), old(s)@, buttons),
        ev == step_events(params@, world.deep_view(), old(s)@, buttons),
        ev.jumped <= 1 && ev.landed <= 1 && ev.bonked <= 1,
        ev.jumped == 1 <==> jump_fires(params@, old(s)@, buttons),
        ev.landed == 1 <==> old(s).grounded == 0 && final(s).grounded == 1,
        final(s).grounded <= 1 && final(s).jump_was_down <= 1,
        final(s).w == old(s).w && final(s).h == old(s).h,
{
    let zero = Single::zero(false);
    let jump = buttons.contains(Buttons::jump());
    let was_grounded = s.grounded != 0;
    let (coyote, buffer) = run_timers(params, s, buttons);
    let vx = run_velocity(params, s, buttons);
    let (vy, fires) = rise_velocity(params, s, buttons);
    let start = Rect { x: s.x.round(), y: s.y.round(), w: s.w.round(), h: s.h.round() };
    let t = travel(params, world, start, vx, vy);
    let (y, now_grounded) = find_footing(params, world, &t);

    s.x = wrap_x(params, t.rect.x, s.w);
    s.y = y;
    s.vx = vx;
    s.vy = t.vy;
    s.grounded = if now_grounded {
        1
    } else {
        0
    };
    s.coyote = if fires {
        zero
    } else {
        coyote
    };
    s.jump_buffer = if fires {
        zero
    } else {
        buffer
    };
    s.jump_was_down = if jump {
        1
    } else {
        0
    };
    Events {
        jumped: if fires {
            1
        } else {
            0
        },
        landed: if now_grounded && !was_grounded {
            1
        } else {
            0
        },
        bonked: if t.bonked {
            1
        } else {
            0
        },
    }
}

} // verus!
