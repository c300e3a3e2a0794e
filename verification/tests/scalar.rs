use linear_solvers::scalar::Scalar;

fn s(x: f32) -> Scalar {
    Scalar::from_bits(x.to_bits())
}

fn f(x: Scalar) -> f32 {
    f32::from_bits(x.to_bits())
}

/// The result of the library agrees with that of the machine: both NaN, or
/// the same bits.
fn agree(ours: Scalar, theirs: f32) -> bool {
    if theirs.is_nan() {
        ours.to_bits() == 0x7FC0_0000
    } else {
        ours.to_bits() == theirs.to_bits()
    }
}

fn interesting() -> Vec<u32> {
    let mut v: Vec<u32> = vec![
        0x0000_0000, 0x8000_0000, 0x0000_0001, 0x8000_0001, 0x0000_0002, 0x0000_0003,
        0x007F_FFFF, 0x0080_0000, 0x0080_0001, 0x00FF_FFFF, 0x0100_0000, 0x3F7F_FFFF,
        0x3F80_0000, 0x3F80_0001, 0xBF80_0000, 0x4000_0000, 0x4040_0000, 0x3F00_0000,
        0x3EAA_AAAB, 0x3E2A_AAAB, 0x7F7F_FFFF, 0xFF7F_FFFF, 0x7F00_0000, 0x7F80_0000,
        0xFF80_0000, 0x7FC0_0000, 0xFFC0_0000, 0x7F80_0001, 0x4B80_0000, 0x4B00_0000,
        0x4B7F_FFFF, 0x3380_0000, 0x3400_0000, 0x1E3C_E508, 0x5F00_0000, 0x2000_0000,
        0x0040_0000, 0x8040_0000, 0x4B00_0001, 0xCB00_0001, 0x3FC0_0000, 0x4110_0000,
    ];
    let mut e: u32 = 0;
    while e < 255 {
        v.push(e << 23);
        v.push((e << 23) | 0x007F_FFFF);
        v.push((e << 23) | 0x0040_0000 | 0x8000_0000);
        e += 17;
    }
    v
}

fn next(state: &mut u64) -> u32 {
    *state = state
        .wrapping_mul(6364136223846793005)
        .wrapping_add(1442695040888963407);
    (*state >> 32) as u32
}

#[test]
fn multiplication_agrees_with_the_machine_on_edge_patterns() {
    for a in interesting() {
        for b in interesting() {
            let (x, y) = (f32::from_bits(a), f32::from_bits(b));
            assert!(agree(s(x).mul(s(y)), x * y), "{:#x} * {:#x}", a, b);
        }
    }
}

#[test]
fn division_agrees_with_the_machine_on_edge_patterns() {
    for a in interesting() {
        for b in interesting() {
            let (x, y) = (f32::from_bits(a), f32::from_bits(b));
            assert!(agree(s(x).div(s(y)), x / y), "{:#x} / {:#x}", a, b);
        }
    }
}

#[test]
fn addition_agrees_with_the_machine_on_edge_patterns() {
    for a in interesting() {
        for b in interesting() {
            let (x, y) = (f32::from_bits(a), f32::from_bits(b));
            assert!(agree(s(x).add(s(y)), x + y), "{:#x} + {:#x}", a, b);
        }
    }
}

#[test]
fn subtraction_agrees_with_the_machine_on_edge_patterns() {
    for a in interesting() {
        for b in interesting() {
            let (x, y) = (f32::from_bits(a), f32::from_bits(b));
            assert!(agree(s(x).sub(s(y)), x - y), "{:#x} - {:#x}", a, b);
        }
    }
}

#[test]
fn arithmetic_agrees_with_the_machine_on_scattered_patterns() {
    let mut state: u64 = 0x1234_5678_9ABC_DEF0;
    let mut i: u32 = 0;
    while i < 20000 {
        let a = next(&mut state);
        let b = next(&mut state);
        let (x, y) = (f32::from_bits(a), f32::from_bits(b));
        assert!(agree(s(x).mul(s(y)), x * y), "{:#x} * {:#x}", a, b);
        assert!(agree(s(x).div(s(y)), x / y), "{:#x} / {:#x}", a, b);
        assert!(agree(s(x).add(s(y)), x + y), "{:#x} + {:#x}", a, b);
        assert!(agree(s(x).sub(s(y)), x - y), "{:#x} - {:#x}", a, b);
        i += 1;
    }
}

#[test]
fn arithmetic_agrees_with_the_machine_on_close_exponents() {
    let mut state: u64 = 0x0F1E_2D3C_4B5A_6978;
    let mut i: u32 = 0;
    while i < 20000 {
        let a = next(&mut state);
        let nudge = next(&mut state);
        let exponent = ((a >> 23) & 0xFF) as i32 + (nudge % 60) as i32 - 30;
        let exponent = exponent.clamp(0, 254) as u32;
        let b = (nudge & 0x8000_0000) | (exponent << 23) | (next(&mut state) & 0x007F_FFFF);
        let (x, y) = (f32::from_bits(a), f32::from_bits(b));
        assert!(agree(s(x).mul(s(y)), x * y), "{:#x} * {:#x}", a, b);
        assert!(agree(s(x).div(s(y)), x / y), "{:#x} / {:#x}", a, b);
        assert!(agree(s(x).add(s(y)), x + y), "{:#x} + {:#x}", a, b);
        assert!(agree(s(x).sub(s(y)), x - y), "{:#x} - {:#x}", a, b);
        i += 1;
    }
}

#[test]
fn exact_values_of_each_operation() {
    assert_eq!(f(s(1.5).add(s(2.25))), 3.75);
    assert_eq!(f(s(1.5).sub(s(2.25))), -0.75);
    assert_eq!(f(s(1.5).mul(s(-2.0))), -3.0);
    assert_eq!(f(s(1.0).div(s(4.0))), 0.25);
    assert_eq!(s(1.0).div(s(3.0)).to_bits(), 0x3EAA_AAAB);
    assert_eq!(s(1.0).div(s(6.0)).to_bits(), 0x3E2A_AAAB);
    assert_eq!(s(16777216.0).add(s(1.0)).to_bits(), s(16777216.0).to_bits());
    assert_eq!(s(16777216.0).add(s(3.0)).to_bits(), s(16777220.0).to_bits());
}

#[test]
fn zeros_keep_their_signs() {
    assert_eq!(s(0.0).add(s(-0.0)).to_bits(), 0);
    assert_eq!(s(-0.0).add(s(-0.0)).to_bits(), 0x8000_0000);
    assert_eq!(s(2.0).sub(s(2.0)).to_bits(), 0);
    assert_eq!(s(-2.0).add(s(2.0)).to_bits(), 0);
    assert_eq!(s(0.0).mul(s(-3.0)).to_bits(), 0x8000_0000);
    assert_eq!(s(-0.0).div(s(-3.0)).to_bits(), 0);
}

#[test]
fn invalid_operations_give_the_quiet_nan() {
    let inf = s(f32::INFINITY);
    assert_eq!(s(0.0).div(s(0.0)).to_bits(), 0x7FC0_0000);
    assert_eq!(inf.sub(inf).to_bits(), 0x7FC0_0000);
    assert_eq!(inf.mul(s(0.0)).to_bits(), 0x7FC0_0000);
    assert_eq!(inf.div(inf).to_bits(), 0x7FC0_0000);
    assert_eq!(s(f32::NAN).add(s(1.0)).to_bits(), 0x7FC0_0000);
    assert_eq!(f(s(1.0).div(s(0.0))), f32::INFINITY);
    assert_eq!(f(s(-1.0).div(s(0.0))), f32::NEG_INFINITY);
}

#[test]
fn results_overflow_to_infinity_and_underflow_to_zero() {
    assert_eq!(f(s(f32::MAX).add(s(f32::MAX))), f32::INFINITY);
    assert_eq!(f(s(f32::MAX).mul(s(-2.0))), f32::NEG_INFINITY);
    assert_eq!(s(f32::MIN_POSITIVE).mul(s(f32::MIN_POSITIVE)).to_bits(), 0);
    assert_eq!(s(1.0e-30).mul(s(-1.0e-30)).to_bits(), 0x8000_0000);
    assert_eq!(s(f32::MIN_POSITIVE).div(s(2.0)).to_bits(), 0x0040_0000);
}

#[test]
fn classification_reads_the_bit_pattern() {
    assert!(s(f32::NAN).is_nan());
    assert!(!s(f32::INFINITY).is_nan());
    assert!(s(f32::NEG_INFINITY).is_infinite());
    assert!(s(1.0).is_finite());
    assert!(!s(f32::INFINITY).is_finite());
    assert!(s(0.0).is_zero());
    assert!(s(-0.0).is_zero());
    assert!(!s(1.0e-45).is_zero());
    assert!(s(-0.0).is_negative());
    assert!(!s(3.0).is_negative());
    assert_eq!(s(-2.5).magnitude(), 2.5f32.to_bits());
    assert_eq!(Scalar::pack(true, 0x3F80_0000).to_bits(), (-1.0f32).to_bits());
    assert_eq!(Scalar::pack(false, 0x3F80_0000).to_bits(), 1.0f32.to_bits());
}

#[test]
fn abs_and_neg_touch_the_sign_only() {
    assert_eq!(f(s(-2.5).abs()), 2.5);
    assert_eq!(f(s(2.5).abs()), 2.5);
    assert_eq!(f(s(2.5).neg()), -2.5);
    assert_eq!(s(0.0).neg().to_bits(), 0x8000_0000);
    assert_eq!(s(-0.0).abs().to_bits(), 0);
}

#[test]
fn comparison_agrees_with_the_machine() {
    for a in interesting() {
        for b in interesting() {
            let (x, y) = (f32::from_bits(a), f32::from_bits(b));
            assert_eq!(s(x).gt(s(y)), x > y, "{:#x} > {:#x}", a, b);
            assert_eq!(s(x).same_value(s(y)), x == y, "{:#x} == {:#x}", a, b);
        }
    }
}
