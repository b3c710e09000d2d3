//! Sections and input lists of a replay document.
use platlab_core::replay::{parse_inputs, section, Fault};

#[test]
fn section_is_what_stands_between_matching_brackets() {
    let doc = br#"{"world": [ {"x": 1}, [2, 3] ], "inputs": [1, 2]}"#;
    assert_eq!(section(doc, b"world", b'[', b']').unwrap(), &br#" {"x": 1}, [2, 3] "#[..]);
    assert_eq!(section(doc, b"inputs", b'[', b']').unwrap(), &b"1, 2"[..]);
    assert_eq!(section(doc, b"world", b'{', b'}').unwrap(), &br#""x": 1"#[..]);
}

#[test]
fn section_faults() {
    let doc = br#"{"world": [ 1, [2, 3 ], "inputs" "#;
    assert_eq!(section(doc, b"params", b'{', b'}').unwrap_err().fault, Fault::MissingKey);
    assert_eq!(section(doc, b"params", b'{', b'}').unwrap_err().key, b"params".to_vec());
    assert_eq!(section(doc, b"inputs", b'[', b']').unwrap_err().fault, Fault::MissingOpener);
    assert_eq!(section(doc, b"world", b'[', b']').unwrap_err().fault, Fault::Unclosed);
    assert_eq!(section(b"\"k\" |a|", b"k", b'|', b'|').unwrap_err().fault, Fault::Unclosed);
}

#[test]
fn inputs_are_bytes_between_commas() {
    assert_eq!(parse_inputs(br#"{"inputs": [0, 2,18 ,  +16,,255, 007 ]}"#).unwrap(), vec![0, 2, 18, 16, 255, 7]);
    assert_eq!(parse_inputs(br#"{"inputs": []}"#).unwrap(), Vec::<u8>::new());
    assert_eq!(parse_inputs(br#"{"inputs": [  ]}"#).unwrap(), Vec::<u8>::new());
    assert_eq!(parse_inputs("{\"inputs\": [\u{a0}3\u{2003},\n4\u{3000}]}".as_bytes()).unwrap(), vec![3, 4]);
}

#[test]
fn inputs_faults() {
    assert_eq!(parse_inputs(br#"{"inputs": [1, 256]}"#).unwrap_err().fault, Fault::InvalidInput);
    assert_eq!(parse_inputs(br#"{"inputs": [1, -2]}"#).unwrap_err().fault, Fault::InvalidInput);
    assert_eq!(parse_inputs(br#"{"inputs": [1, 2 3]}"#).unwrap_err().fault, Fault::InvalidInput);
    assert_eq!(parse_inputs(br#"{"inputs": [+]}"#).unwrap_err().fault, Fault::InvalidInput);
    assert_eq!(parse_inputs(br#"{"inputs": [1.0]}"#).unwrap_err().fault, Fault::InvalidInput);
    assert_eq!(parse_inputs(br#"{"input": [1]}"#).unwrap_err().fault, Fault::MissingKey);
    assert_eq!(parse_inputs(br#"{"inputs": 1}"#).unwrap_err().fault, Fault::MissingOpener);
    assert_eq!(parse_inputs(br#"{"inputs": [1, 2"#).unwrap_err().fault, Fault::Unclosed);
}
