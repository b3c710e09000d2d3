//! Numbers, sections and whole replay documents.
use platlab_core::document::{integer, number, parse_params, parse_replay, parse_state, parse_world, replay};
use platlab_core::replay::Fault;
use platlab_core::{step, Buttons, Params, Single};

fn num(v: f32) -> Single {
    Single::from_bits(v.to_bits())
}

fn val(s: Single) -> f32 {
    f32::from_bits(s.to_bits())
}

const DOC: &str = r#"{
  "params": { "ground_max_speed": 300, "run_multiplier": 1.5, "world_wrap_mode": 2 },
  "world": [
    { "x": 0, "y": 480, "w": 960, "h": 60 },
    { "x": 400.5, "y": 1e2, "w": -3, "h": 2.5e-1, "tags": { "solid": 1 } }
  ],
  "initial_state": { "x": 80, "y": 436, "w": 28, "h": 44, "grounded": 1 },
  "inputs": [2, 2, 18, 2, 0]
}"#;

#[test]
fn number_reads_the_first_run_after_the_colon() {
    let src = br#"{"a": 12.5, "b" : "x-3e1y", "c": true, "d": [ 7 ], "e":-0}"#;
    assert_eq!(val(number(src, b"a", None).unwrap()), 12.5);
    assert_eq!(val(number(src, b"b", None).unwrap()), -30.0);
    assert_eq!(val(number(src, b"d", None).unwrap()), 7.0);
    assert_eq!(number(src, b"e", None).unwrap().to_bits(), (-0.0f32).to_bits());
    // The letter e of "true" is a number byte, and no number.
    assert_eq!(number(src, b"c", None).unwrap_err().fault, Fault::InvalidNumber);
    assert_eq!(number(src, b"c", None).unwrap_err().key, b"c".to_vec());
}

#[test]
fn number_falls_back_to_its_default() {
    let src = br#"{"a": 1, "b" 2, "c": }"#;
    assert_eq!(val(number(src, b"z", Some(num(4.5))).unwrap()), 4.5);
    assert_eq!(number(src, b"z", None).unwrap_err().fault, Fault::MissingKey);
    assert_eq!(number(src, b"z", None).unwrap_err().key, b"z".to_vec());
    // A key that is there is read, default or not.
    assert_eq!(val(number(src, b"a", Some(num(4.5))).unwrap()), 1.0);
    // After "b" the next colon is that of "c", and no number follows it.
    assert_eq!(number(src, b"b", Some(num(4.5))).unwrap_err().fault, Fault::InvalidNumber);
    assert_eq!(number(br#"{"b" 2}"#, b"b", None).unwrap_err().fault, Fault::MissingColon);
}

#[test]
fn integer_rounds_half_away_from_zero() {
    let src = br#"{"a": 2.5, "b": -2.5, "c": 2.4, "d": 1e20, "e": -1e20, "f": 7}"#;
    assert_eq!(integer(src, b"a", None).unwrap(), 3);
    assert_eq!(integer(src, b"b", None).unwrap(), -3);
    assert_eq!(integer(src, b"c", None).unwrap(), 2);
    assert_eq!(integer(src, b"d", None).unwrap(), i32::MAX);
    assert_eq!(integer(src, b"e", None).unwrap(), i32::MIN);
    assert_eq!(integer(src, b"f", Some(9)).unwrap(), 7);
    assert_eq!(integer(src, b"g", Some(9)).unwrap(), 9);
    assert_eq!(integer(src, b"g", Some(16_777_217)).unwrap(), 16_777_216);
    assert_eq!(integer(src, b"g", None).unwrap_err().fault, Fault::MissingKey);
}

#[test]
fn world_is_the_list_of_objects() {
    let world = parse_world(DOC.as_bytes()).unwrap();
    assert_eq!(world.len(), 2);
    let got: Vec<[f32; 4]> = world.iter().map(|r| [val(r.x), val(r.y), val(r.w), val(r.h)]).collect();
    assert_eq!(got, vec![[0.0, 480.0, 960.0, 60.0], [400.5, 100.0, -3.0, 0.25]]);
    assert_eq!(parse_world(br#"{"world": []}"#).unwrap().len(), 0);
    assert_eq!(parse_world(br#"{"world": [1, 2]}"#).unwrap().len(), 0);
}

#[test]
fn world_faults() {
    let fault = |doc: &str| parse_world(doc.as_bytes()).unwrap_err();
    assert_eq!(fault(r#"{"word": []}"#).fault, Fault::MissingKey);
    assert_eq!(fault(r#"{"world": 3}"#).fault, Fault::MissingOpener);
    assert_eq!(fault(r#"{"world": [ {"x": 1} "#).fault, Fault::Unclosed);
    let e = fault(r#"{"world": [ {"x": 1, "y": 2, "h": 4} ]}"#);
    assert_eq!((e.fault, e.key), (Fault::MissingKey, b"w".to_vec()));
    let e = fault(r#"{"world": [ {"x": 1, "y": 2, "w": 3, "h": 4}, {"x": 1, "y": -, "w": 3, "h": 4} ]}"#);
    assert_eq!((e.fault, e.key), (Fault::InvalidNumber, b"y".to_vec()));
    let e = fault(r#"{"world": [ {"x": 1, "y": 2, "w": 3, "h": 4}, {"x": 1 ]}"#);
    assert_eq!((e.fault, e.key), (Fault::Unclosed, b"world".to_vec()));
}

#[test]
fn params_override_the_defaults() {
    let p = parse_params(DOC.as_bytes()).unwrap();
    let d = Params::default();
    assert_eq!(val(p.ground_max_speed), 300.0);
    assert_eq!(val(p.run_multiplier), 1.5);
    assert_eq!(val(p.world_wrap_mode), 2.0);
    assert_eq!(p.ground_accel.to_bits(), d.ground_accel.to_bits());
    assert_eq!(p.coyote_time.to_bits(), d.coyote_time.to_bits());
    assert_eq!(p.jump_cut_multiplier.to_bits(), d.jump_cut_multiplier.to_bits());
    assert_eq!(p.world_w.to_bits(), d.world_w.to_bits());
}

#[test]
fn params_default_when_the_section_is_absent() {
    let p = parse_params(br#"{"world": []}"#).unwrap();
    let d = Params::default();
    for i in 0..platlab_core::params::PARAM_COUNT {
        assert_eq!(p.get(i).to_bits(), d.get(i).to_bits());
    }
    let e = parse_params(br#"{"params": 3"#).unwrap_err();
    assert_eq!((e.fault, e.key), (Fault::MissingOpener, b"params".to_vec()));
    let e = parse_params(br#"{"params": {"air_drag": x}}"#).unwrap_err();
    assert_eq!((e.fault, e.key), (Fault::InvalidNumber, b"air_drag".to_vec()));
}

#[test]
fn state_needs_place_and_size() {
    let s = parse_state(DOC.as_bytes()).unwrap();
    assert_eq!([val(s.x), val(s.y), val(s.w), val(s.h)], [80.0, 436.0, 28.0, 44.0]);
    assert_eq!([val(s.vx), val(s.vy), val(s.coyote), val(s.jump_buffer)], [0.0; 4]);
    assert_eq!((s.grounded, s.jump_was_down), (1, 0));
    let s = parse_state(
        br#"{"initial_state": {"x": 1, "y": 2, "w": 3, "h": 4, "vx": -5, "vy": 6.5, "grounded": 257, "jump_was_down": -1, "coyote": 0.05, "jump_buffer": 0.1}}"#,
    )
    .unwrap();
    assert_eq!([val(s.vx), val(s.vy), val(s.coyote), val(s.jump_buffer)], [-5.0, 6.5, 0.05, 0.1]);
    assert_eq!((s.grounded, s.jump_was_down), (1, 255));
    let e = parse_state(br#"{"initial_state": {"x": 1, "y": 2, "w": 3}}"#).unwrap_err();
    assert_eq!((e.fault, e.key), (Fault::MissingKey, b"h".to_vec()));
    let e = parse_state(br#"{"state": {}}"#).unwrap_err();
    assert_eq!((e.fault, e.key), (Fault::MissingKey, b"initial_state".to_vec()));
}

#[test]
fn replay_steps_once_per_input() {
    let doc = parse_replay(DOC.as_bytes()).unwrap();
    assert_eq!(doc.inputs, vec![2, 2, 18, 2, 0]);
    let frames = replay(DOC.as_bytes()).unwrap();
    assert_eq!(frames.len(), 5);
    let mut state = doc.state;
    for (i, bits) in doc.inputs.iter().enumerate() {
        let ev = step(&doc.params, &doc.world, &mut state, Buttons::from_bits_truncate(*bits));
        assert_eq!(frames[i].state.x.to_bits(), state.x.to_bits());
        assert_eq!(frames[i].state.y.to_bits(), state.y.to_bits());
        assert_eq!(frames[i].state.vx.to_bits(), state.vx.to_bits());
        assert_eq!(frames[i].state.vy.to_bits(), state.vy.to_bits());
        assert_eq!(frames[i].state.grounded, state.grounded);
        assert_eq!(frames[i].events, ev);
    }
    assert_eq!(frames[2].events.jumped, 1);
    assert_eq!(val(frames[2].state.vy), -520.0);
    // One tick of ground acceleration, in single precision.
    assert_eq!(val(frames[0].state.vx), 0.0 + 1800.0f32 * (1.0f32 / 60.0f32) * 1.0);
}

#[test]
fn replay_reports_the_first_fault() {
    let e = replay(br#"{"world": [], "initial_state": {"x": 1}, "inputs": [300]}"#).unwrap_err();
    assert_eq!((e.fault, e.key), (Fault::MissingKey, b"y".to_vec()));
    let e = replay(br#"{"world": [], "initial_state": {"x": 1, "y": 1, "w": 1, "h": 1}, "inputs": [300]}"#)
        .unwrap_err();
    assert_eq!((e.fault, e.key), (Fault::InvalidInput, b"inputs".to_vec()));
    let e = replay(br#"{"initial_state": {"x": 1, "y": 1, "w": 1, "h": 1}, "inputs": [3]}"#).unwrap_err();
    assert_eq!((e.fault, e.key), (Fault::MissingKey, b"world".to_vec()));
}
