//! Decimal text to single precision, held against the standard library.
use platlab_core::decimal::parse_decimal;

fn check(text: &str) {
    let got = parse_decimal(text.as_bytes()).map(|v| v.to_bits());
    let want = text.parse::<f32>().ok().map(|v| v.to_bits());
    assert_eq!(got, want, "{text:?}");
}

struct Rng(u64);

impl Rng {
    fn next(&mut self) -> u32 {
        self.0 = self.0.wrapping_mul(6364136223846793005).wrapping_add(1442695040888963407);
        (self.0 >> 33) as u32
    }

    fn digits(&mut self, max: u32) -> String {
        let n = self.next() % (max + 1);
        (0..n).map(|_| char::from(b'0' + (self.next() % 10) as u8)).collect()
    }
}

#[test]
fn well_formed_numbers() {
    for text in [
        "0", "-0", "+0", "1", "-1", "436", "436.0", "0.1", ".5", "5.", "1.35", "0.085", "0.45",
        "1e5", "1E5", "1e+5", "1e-5", "1.e5", ".1e1", "00001.2500e0003", "16777216", "16777217",
        "16777218", "16777219", "33554433", "0.016666668", "1e-45", "1.4e-45", "7e-46", "7.1e-46",
        "0.7006492321624085e-45", "0.7006492321624086e-45", "1e-46", "1e-60", "1e-400",
        "3.4028235e38", "3.4028236e38", "3.40282357e38", "3.4028234e38", "3.5e38", "1e38", "1e39",
        "1e40", "1e400", "1e99999999999999999999999", "1e-99999999999999999999999",
        "0e99999999999999999999999", "0.0e-99999999999999999999999", "1.17549435e-38",
        "1.17549428e-38", "1.1754942e-38", "5.877471754111438e-39", "123456789012345678901234567890",
        "0.000000000000000000000000000000000000000000001", "8388608.5", "8388609.5", "0.5", "1.5",
        "2.5", "4294967295", "4294967296", "9007199254740993", "1.00000005960464477539062500000",
        "1.0000000596046447753906250000001", "1.00000017881393432617187500", "340282356779733661637539395458142568447",
        "340282356779733661637539395458142568448", "340282346638528859811704183484516925440",
    ] {
        check(text);
        let minus = format!("-{text}");
        if !text.starts_with('-') && !text.starts_with('+') {
            check(&minus);
        }
    }
}

#[test]
fn malformed_numbers() {
    for text in [
        "", "+", "-", ".", "e", "E", "e5", ".e5", "1e", "1e+", "1e-", "--1", "+-1", "1-", "1+1",
        "1.2.3", "1e5e", "1e5.", "1ee5", "1e5+", "1..", "..1", "+.e1", "1 ", " 1", "1,0", "0x10",
        "1_000", "1f", "-e1", "1.5e1.5",
    ] {
        check(text);
        assert!(parse_decimal(text.as_bytes()).is_none() || text.parse::<f32>().is_ok());
    }
    assert!(parse_decimal(b"e").is_none());
    assert!(parse_decimal(b"1e").is_none());
    // Words are no decimal numbers.
    assert!(parse_decimal(b"inf").is_none());
    assert!(parse_decimal(b"nan").is_none());
}

#[test]
fn random_numbers() {
    let mut rng = Rng(0x9e37_79b9_7f4a_7c15);
    for _ in 0..20_000 {
        let mut text = String::new();
        match rng.next() % 4 {
            0 => text.push('-'),
            1 => text.push('+'),
            _ => {},
        }
        text.push_str(&rng.digits(12));
        if rng.next() % 2 == 0 {
            text.push('.');
            text.push_str(&rng.digits(20));
        }
        if rng.next() % 2 == 0 {
            text.push(if rng.next() % 2 == 0 { 'e' } else { 'E' });
            match rng.next() % 3 {
                0 => text.push('-'),
                1 => text.push('+'),
                _ => {},
            }
            text.push_str(&format!("{}", rng.next() % 60));
        }
        check(&text);
    }
}

#[test]
fn numbers_close_to_a_tie() {
    // Every number is written out exactly, then nudged in its last digit.
    let mut rng = Rng(42);
    for _ in 0..3_000 {
        let bits = rng.next() % 0x7f80_0000;
        let lo = f32::from_bits(bits) as f64;
        let hi = f32::from_bits(bits + 1) as f64;
        let mid = (lo + hi) / 2.0;
        let text = format!("{:.80e}", mid);
        check(&text);
        let (mantissa, exponent) = text.split_once('e').unwrap();
        check(&format!("{mantissa}1e{exponent}"));
        let mut lower: Vec<u8> = mantissa.bytes().collect();
        let mut i = lower.len();
        while i > 0 {
            i -= 1;
            if lower[i] == b'.' {
                continue;
            }
            if lower[i] == b'0' {
                lower[i] = b'9';
            } else {
                lower[i] -= 1;
                break;
            }
        }
        check(&format!("{}e{exponent}", String::from_utf8(lower).unwrap()));
    }
}

#[test]
fn a_very_long_number() {
    let mut text = String::from("0.");
    for i in 0..3000 {
        text.push(char::from(b'0' + (i * 7 % 10) as u8));
    }
    check(&text);
    let mut whole = String::from("1");
    for _ in 0..30 {
        whole.push('0');
    }
    whole.push_str(".000000000000001");
    check(&whole);
}
