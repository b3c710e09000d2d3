//! The self-contained actor of a managed host, the three exported calls, and
//! the button set.
use platlab_core::buttons::{ALL_BITS, JUMP_BIT, RIGHT_BIT};
use platlab_core::params::{param_index, param_name, PARAM_COUNT};
use platlab_core::{core_default_params, core_init_state, core_step, step, Buttons, Core, Params, Rect, Single, State};

fn num(v: f32) -> Single {
    Single::from_bits(v.to_bits())
}

fn val(s: Single) -> f32 {
    f32::from_bits(s.to_bits())
}

#[test]
fn a_new_core_stands_by() {
    let core = Core::new();
    assert_eq!(val(core.params.world_w), 960.0);
    assert_eq!(val(core.params.world_wrap_mode), 2.0);
    assert_eq!(val(core.params.ground_max_speed), 260.0);
    assert_eq!(
        [val(core.state.x), val(core.state.y), val(core.state.w), val(core.state.h)],
        [80.0, 436.0, 28.0, 44.0]
    );
    assert_eq!((core.state.grounded, val(core.state.vx), val(core.state.vy)), (0, 0.0, 0.0));
    assert_eq!(core.world.len(), 1);
    let f = core.world[0];
    assert_eq!([val(f.x), val(f.y), val(f.w), val(f.h)], [0.0, 480.0, 960.0, 60.0]);
}

#[test]
fn core_steps_as_the_kernel_does() {
    let mut core = Core::new();
    let mut state = core.state;
    let mut landed = 0;
    for tick in 0..120u32 {
        let bits: u8 = if tick == 40 { RIGHT_BIT | JUMP_BIT } else { RIGHT_BIT | 0x80 };
        let ev = step(&core.params, &core.world.clone(), &mut state, Buttons::from_bits_truncate(bits));
        let report = core.step(bits);
        assert_eq!(report.x.to_bits(), state.x.to_bits());
        assert_eq!(report.y.to_bits(), state.y.to_bits());
        assert_eq!(report.vx.to_bits(), state.vx.to_bits());
        assert_eq!(report.vy.to_bits(), state.vy.to_bits());
        assert_eq!(report.coyote.to_bits(), state.coyote.to_bits());
        assert_eq!(report.jump_buffer.to_bits(), state.jump_buffer.to_bits());
        assert_eq!(report.grounded, state.grounded != 0);
        assert_eq!((report.jumped, report.landed, report.bonked), (ev.jumped != 0, ev.landed != 0, ev.bonked != 0));
        assert_eq!(report.jumped, tick == 40);
        landed += report.landed as u32;
    }
    assert_eq!(landed, 2);
}

#[test]
fn reset_puts_a_new_actor() {
    let mut core = Core::new();
    for _ in 0..20 {
        core.step(RIGHT_BIT | JUMP_BIT);
    }
    core.reset(num(5.0), num(6.0), num(7.0), num(8.0));
    let s = core.state;
    assert_eq!([val(s.x), val(s.y), val(s.w), val(s.h)], [5.0, 6.0, 7.0, 8.0]);
    assert_eq!([val(s.vx), val(s.vy), val(s.coyote), val(s.jump_buffer)], [0.0; 4]);
    assert_eq!((s.grounded, s.jump_was_down), (0, 0));
    assert_eq!(core.world.len(), 1);
}

#[test]
fn set_world_takes_four_numbers_per_rectangle() {
    let mut core = Core::new();
    let flat: Vec<Single> = [1.0f32, 2.0, 3.0, 4.0, 5.0, 6.0, 7.0, 8.0, 9.0, 10.0].iter().map(|v| num(*v)).collect();
    core.set_world(&flat);
    assert_eq!(core.world.len(), 2);
    let got: Vec<[f32; 4]> = core.world.iter().map(|r| [val(r.x), val(r.y), val(r.w), val(r.h)]).collect();
    assert_eq!(got, vec![[1.0, 2.0, 3.0, 4.0], [5.0, 6.0, 7.0, 8.0]]);
    core.set_world(&flat[..3]);
    assert_eq!(core.world.len(), 0);
}

#[test]
fn parameters_are_set_by_name() {
    let mut core = Core::new();
    assert!(core.set_param("gravity_down", num(10.0)));
    assert!(core.set_param("world_wrap_mode", num(0.0)));
    assert!(!core.set_param("gravity", num(99.0)));
    assert!(!core.set_param("", num(99.0)));
    assert!(!core.set_param("Gravity_down", num(99.0)));
    assert_eq!(val(core.params.gravity_down), 10.0);
    assert_eq!(val(core.params.world_wrap_mode), 0.0);
    assert_eq!(val(core.params.gravity_up), 1500.0);
    // Every name stands for its own field.
    for i in 0..PARAM_COUNT {
        assert_eq!(param_index(param_name(i)), Some(i));
        let mut p = Params::default();
        assert!(p.set_by_name(param_name(i), num(-77.0)));
        for j in 0..PARAM_COUNT {
            assert_eq!(val(p.get(j)) == -77.0, i == j, "{} {}", param_name(i), param_name(j));
        }
    }
    assert_eq!(param_name(0), "ground_max_speed");
    assert_eq!(param_name(16), "jump_buffer");
    assert_eq!(param_name(20), "world_wrap_mode");
}

#[test]
fn exported_calls() {
    let p = core_default_params();
    let d = Params::default();
    for i in 0..PARAM_COUNT {
        assert_eq!(p.get(i).to_bits(), d.get(i).to_bits());
    }
    let mut s = core_init_state(num(80.0), num(436.0), num(28.0), num(44.0));
    assert_eq!((s.grounded, s.jump_was_down, val(s.vx), val(s.coyote)), (0, 0, 0.0, 0.0));
    let world = [Rect { x: num(0.0), y: num(480.0), w: num(960.0), h: num(60.0) }];
    let mut t: State = s;
    // Bits that name no button are dropped.
    let a = core_step(&p, &world, &mut s, 0xe2);
    let b = step(&p, &world, &mut t, Buttons::right());
    assert_eq!(a, b);
    assert_eq!(s.vx.to_bits(), t.vx.to_bits());
    assert_eq!(a.landed, 1);
}

#[test]
fn button_sets() {
    let mut b = Buttons::empty();
    assert_eq!(b.bits(), 0);
    assert!(!b.contains(Buttons::left()));
    assert!(b.contains(Buttons::empty()));
    b.insert(Buttons::right());
    b.insert(Buttons::jump());
    assert_eq!(b.bits(), 0x12);
    assert!(b.contains(Buttons::right()) && b.contains(Buttons::jump()));
    assert!(b.contains(Buttons::right().union(Buttons::jump())));
    assert!(!b.contains(Buttons::right().union(Buttons::left())));
    assert_eq!(Buttons::from_bits_truncate(0xff).bits(), ALL_BITS);
    assert_eq!(Buttons::from_bits_truncate(0xe0).bits(), 0);
    assert_eq!(
        [Buttons::left().bits(), Buttons::right().bits(), Buttons::down().bits(), Buttons::run().bits(), Buttons::jump().bits()],
        [1, 2, 4, 8, 16]
    );
    assert_eq!(Buttons::from_bits_truncate(5), Buttons::left().union(Buttons::down()));
}
