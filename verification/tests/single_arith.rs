//! The arithmetic on bit patterns, held against the machine's own single
//! precision on many operands.
use platlab_core::Single;

fn edge_bits() -> Vec<u32> {
    let mut v: Vec<u32> = vec![
        0x0000_0000, 0x0000_0001, 0x0000_0002, 0x0000_0003, 0x007f_ffff, 0x0080_0000, 0x0080_0001,
        0x00ff_ffff, 0x0100_0000, 0x3380_0000, 0x3400_0000, 0x3eff_ffff, 0x3f00_0000, 0x3f00_0001,
        0x3f7f_ffff, 0x3f80_0000, 0x3f80_0001, 0x3fc0_0000, 0x4000_0000, 0x4040_0000, 0x4020_0000,
        0x4060_0000, 0x40a0_0000, 0x4b00_0000, 0x4b00_0001, 0x4b7f_ffff, 0x4b80_0000, 0x4b80_0001,
        0x4c00_0000, 0x4eff_ffff, 0x4f00_0000, 0x4f00_0001, 0x5f00_0000, 0x7e80_0000, 0x7f00_0000,
        0x7f7f_fffe, 0x7f7f_ffff, 0x7f80_0000, 0x7fc0_0000, 0x3c88_8889, 0x3fac_cccd, 0x4382_0000,
        0x4470_0000, 0x42f0_0000, 0x3e99_999a, 0x3dcc_cccd, 0x3dae_147b, 0x4110_0000, 0x3ee6_6666,
        0x7f00_0001, 0x0040_0000, 0x0000_0100, 0x3300_0000, 0x3480_0000, 0x7380_0000, 0x0c00_0000,
    ];
    let n = v.len();
    for i in 0..n {
        v.push(v[i] | 0x8000_0000);
    }
    v
}

struct Rng(u64);

impl Rng {
    fn next(&mut self) -> u32 {
        self.0 = self.0.wrapping_mul(6364136223846793005).wrapping_add(1442695040888963407);
        (self.0 >> 32) as u32
    }

    /// A bit pattern; often one whose exponent is close to that of `near`.
    fn operand(&mut self, near: u32) -> u32 {
        let r = self.next();
        match r % 4 {
            0 => r ^ self.next(),
            1 => {
                let e = ((near >> 23) & 0xff) as i32 + (self.next() % 60) as i32 - 30;
                let e = e.clamp(0, 255) as u32;
                (self.next() & 0x807f_ffff) | (e << 23)
            },
            2 => {
                let e = ((near >> 23) & 0xff) as i32 + (self.next() % 5) as i32 - 2;
                let e = e.clamp(0, 255) as u32;
                (self.next() & 0x807f_ffff) | (e << 23)
            },
            _ => (self.next() & 0x8000_0fff) | (self.next() % 0x7f80_0000 & 0xffff_f000),
        }
    }
}

fn same_result(name: &str, a: u32, b: u32, got: u32, want: f32) {
    let want_bits = want.to_bits();
    if want.is_nan() {
        assert!(f32::from_bits(got).is_nan(), "{name}({a:#x}, {b:#x}): got {got:#x}, want nan");
    } else {
        assert_eq!(got, want_bits, "{name}({a:#x}, {b:#x})");
    }
}

fn check_pair(a: u32, b: u32) {
    let x = Single::from_bits(a);
    let y = Single::from_bits(b);
    let fx = f32::from_bits(a);
    let fy = f32::from_bits(b);
    same_result("add", a, b, x.add(y).to_bits(), fx + fy);
    same_result("sub", a, b, x.sub(y).to_bits(), fx - fy);
    same_result("mul", a, b, x.mul(y).to_bits(), fx * fy);
    same_result("div", a, b, x.div(y).to_bits(), fx / fy);
    same_result("rem", a, b, x.rem(y).to_bits(), fx % fy);
    assert_eq!(x.lt(y), fx < fy, "lt({a:#x}, {b:#x})");
    assert_eq!(x.le(y), fx <= fy, "le({a:#x}, {b:#x})");
    assert_eq!(x.gt(y), fx > fy, "gt({a:#x}, {b:#x})");
    assert_eq!(x.ge(y), fx >= fy, "ge({a:#x}, {b:#x})");
    assert_eq!(x.same(y), fx == fy, "same({a:#x}, {b:#x})");
    if fx != fy {
        same_result("max", a, b, x.max(y).to_bits(), fx.max(fy));
        same_result("min", a, b, x.min(y).to_bits(), fx.min(fy));
    } else {
        assert!(f32::from_bits(x.max(y).to_bits()) == fx);
        assert!(f32::from_bits(x.min(y).to_bits()) == fx);
    }
}

fn check_one(a: u32) {
    let x = Single::from_bits(a);
    let fx = f32::from_bits(a);
    same_result("round", a, 0, x.round().to_bits(), fx.round());
    same_result("ceil", a, 0, x.ceil().to_bits(), fx.ceil());
    same_result("abs", a, 0, x.abs().to_bits(), fx.abs());
    same_result("neg", a, 0, x.neg().to_bits(), -fx);
    assert_eq!(x.to_i32(), fx as i32, "to_i32({a:#x})");
    assert_eq!(x.is_nan(), fx.is_nan());
}

#[test]
fn edge_operands_agree_with_the_machine() {
    let edges = edge_bits();
    for &a in &edges {
        check_one(a);
        for &b in &edges {
            check_pair(a, b);
        }
    }
}

#[test]
fn random_operands_agree_with_the_machine() {
    let mut rng = Rng(0x243f_6a88_85a3_08d3);
    for _ in 0..150_000 {
        let a = rng.operand(0x3f80_0000);
        let b = rng.operand(a);
        check_one(a);
        check_pair(a, b);
    }
}

#[test]
fn whole_numbers_round_trip() {
    let mut rng = Rng(7);
    for n in [0i32, 1, -1, 2, 16_777_215, 16_777_216, 16_777_217, 33_554_433, i32::MAX, i32::MIN, -16_777_217] {
        assert_eq!(Single::from_i32(n).to_bits(), (n as f32).to_bits(), "from_i32({n})");
    }
    for _ in 0..100_000 {
        let n = rng.next() as i32;
        assert_eq!(Single::from_i32(n).to_bits(), (n as f32).to_bits(), "from_i32({n})");
        let m = n >> (rng.next() % 32);
        assert_eq!(Single::from_i32(m).to_bits(), (m as f32).to_bits(), "from_i32({m})");
    }
}

#[test]
fn sum_is_rounded_to_nearest_even() {
    // 2^24 + 1 lies half-way between 2^24 and 2^24 + 2: the even one wins.
    let a = Single::from_bits(0x4b80_0000);
    let one = Single::from_bits(0x3f80_0000);
    assert_eq!(a.add(one).to_bits(), 0x4b80_0000);
    // 2^24 + 2 + 1 lies half-way between 2^24 + 2 and 2^24 + 4.
    let b = Single::from_bits(0x4b80_0001);
    assert_eq!(b.add(one).to_bits(), 0x4b80_0002);
    // One sixtieth times sixty is not one.
    let tick = Single::from_bits(0x3c88_8889);
    assert_eq!(tick.mul(Single::from_i32(60)).to_bits(), (f32::from_bits(0x3c88_8889) * 60.0).to_bits());
}
