use simplex_oscillator::binary32::Binary32;

fn single(x: f32) -> Binary32 {
    Binary32 { bits: x.to_bits() }
}

/// Encodings spread over the whole 32-bit range, with every exponent field
/// visited near both of its ends.
fn encodings() -> Vec<u32> {
    let mut all: Vec<u32> = Vec::new();
    let mut bits: u64 = 0;
    while bits <= u32::MAX as u64 {
        all.push(bits as u32);
        bits += 104_729;
    }
    for exponent in 0..=255u32 {
        for sign in [0u32, 0x8000_0000] {
            let base = sign | (exponent << 23);
            for fraction in [0u32, 1, 2, 3, 0x3F_FFFF, 0x40_0000, 0x40_0001, 0x7F_FFFE, 0x7F_FFFF] {
                all.push(base | fraction);
            }
        }
    }
    all
}

#[test]
fn round_to_i32_matches_the_hardware_on_samples() {
    let samples: [f32; 24] = [
        0.0, -0.0, 0.25, 0.49999997, 0.5, -0.5, 0.75, 1.0, 1.5, -1.5, 2.5, 3.6, -2.4, 8388607.5,
        16777216.0, 2147483520.0, 2147483648.0, -2147483648.0, -2147483904.0, 3.0e38,
        f32::INFINITY, f32::NEG_INFINITY, f32::NAN, f32::MIN_POSITIVE,
    ];
    for x in samples {
        assert_eq!(single(x).round_to_i32(), x.round() as i32, "rounding {x}");
    }
}

#[test]
fn round_to_i32_matches_the_hardware_across_the_range() {
    for bits in encodings() {
        let x = f32::from_bits(bits);
        assert_eq!(Binary32 { bits }.round_to_i32(), x.round() as i32, "rounding {x} ({bits:#x})");
    }
}

#[test]
fn round_to_i32_takes_halves_away_from_zero() {
    assert_eq!(single(0.5).round_to_i32(), 1);
    assert_eq!(single(-0.5).round_to_i32(), -1);
    assert_eq!(single(1.5).round_to_i32(), 2);
    assert_eq!(single(2.5).round_to_i32(), 3);
    assert_eq!(single(-2.5).round_to_i32(), -3);
    assert_eq!(single(0.49999997).round_to_i32(), 0);
}

#[test]
fn round_to_i32_saturates_and_sends_nan_to_zero() {
    assert_eq!(single(2147483648.0).round_to_i32(), i32::MAX);
    assert_eq!(single(1.0e20).round_to_i32(), i32::MAX);
    assert_eq!(single(f32::INFINITY).round_to_i32(), i32::MAX);
    assert_eq!(single(-2147483648.0).round_to_i32(), i32::MIN);
    assert_eq!(single(-1.0e20).round_to_i32(), i32::MIN);
    assert_eq!(single(f32::NEG_INFINITY).round_to_i32(), i32::MIN);
    assert_eq!(single(f32::NAN).round_to_i32(), 0);
    assert_eq!(Binary32 { bits: 0xFFC0_0001 }.round_to_i32(), 0);
}

#[test]
fn from_i32_matches_the_hardware_on_samples() {
    let samples: [i32; 16] = [
        0, 1, -1, 22, 220, 880, 16777215, 16777216, 16777217, 16777219, 33554431, -33554433,
        i32::MAX, i32::MIN, 2147483584, 123456789,
    ];
    for v in samples {
        assert_eq!(Binary32::from_i32(v).bits, (v as f32).to_bits(), "converting {v}");
    }
}

#[test]
fn from_i32_matches_the_hardware_across_the_range() {
    let mut v: i64 = i32::MIN as i64;
    while v <= i32::MAX as i64 {
        let v32 = v as i32;
        assert_eq!(Binary32::from_i32(v32).bits, (v32 as f32).to_bits(), "converting {v32}");
        v += 15_485_863;
    }
    for shift in 0..31 {
        let power: i32 = 1 << shift;
        for v in [power - 1, power, power + 1, power + power / 2, power + power / 2 + 1] {
            assert_eq!(Binary32::from_i32(v).bits, (v as f32).to_bits(), "converting {v}");
            let w = v.wrapping_neg();
            assert_eq!(Binary32::from_i32(w).bits, (w as f32).to_bits(), "converting {w}");
        }
    }
}

#[test]
fn from_i32_breaks_ties_towards_the_even_fraction() {
    // 2^24 + 1 lies half-way between 2^24 and 2^24 + 2; 2^24 + 3 half-way
    // between 2^24 + 2 and 2^24 + 4.
    assert_eq!(Binary32::from_i32(16_777_217).bits, 16_777_216.0f32.to_bits());
    assert_eq!(Binary32::from_i32(16_777_219).bits, 16_777_220.0f32.to_bits());
    assert_eq!(Binary32::from_i32(-16_777_217).bits, (-16_777_216.0f32).to_bits());
}

#[test]
fn from_i32_gives_the_known_encodings() {
    assert_eq!(Binary32::from_i32(0).bits, 0);
    assert_eq!(Binary32::from_i32(1).bits, 0x3F80_0000);
    assert_eq!(Binary32::from_i32(-1).bits, 0xBF80_0000);
    assert_eq!(Binary32::from_i32(220).bits, 0x435C_0000);
    assert_eq!(Binary32::from_i32(i32::MIN).bits, 0xCF00_0000);
    assert_eq!(Binary32::from_i32(i32::MAX).bits, 0x4F00_0000);
}

#[test]
fn is_at_least_one_matches_the_hardware_across_the_range() {
    for bits in encodings() {
        let x = f32::from_bits(bits);
        assert_eq!(Binary32 { bits }.is_at_least_one(), x >= 1.0, "comparing {x} ({bits:#x})");
    }
}

#[test]
fn is_at_least_one_at_the_boundary() {
    assert!(single(1.0).is_at_least_one());
    assert!(!single(0.99999994).is_at_least_one());
    assert!(!single(-1.0).is_at_least_one());
    assert!(!single(-0.0).is_at_least_one());
    assert!(single(f32::INFINITY).is_at_least_one());
    assert!(!single(f32::NEG_INFINITY).is_at_least_one());
    assert!(!single(f32::NAN).is_at_least_one());
}

#[test]
fn wrap_once_matches_the_hardware_on_samples() {
    let samples: [f32; 14] = [
        0.0, 0.99999994, 1.0, 1.0000001, 1.5, 1.9999999, 2.0, 879.0, 16777216.0, 16777218.0,
        16777220.0, 33554432.0, 1.0e30, f32::INFINITY,
    ];
    for x in samples {
        let expected = if x >= 1.0 { x - 1.0 } else { x };
        assert_eq!(single(x).wrap_once().bits, expected.to_bits(), "wrapping {x}");
    }
}

#[test]
fn wrap_once_matches_the_hardware_across_the_range() {
    for bits in encodings() {
        let x = f32::from_bits(bits);
        let expected = if x >= 1.0 { x - 1.0 } else { x };
        assert_eq!(Binary32 { bits }.wrap_once().bits, expected.to_bits(), "wrapping {x} ({bits:#x})");
    }
}

#[test]
fn wrap_once_keeps_the_remainder() {
    assert_eq!(single(1.25).wrap_once().bits, 0.25f32.to_bits());
    assert_eq!(single(1.0).wrap_once().bits, 0);
    assert_eq!(single(2.75).wrap_once().bits, 1.75f32.to_bits());
    assert_eq!(single(0.75).wrap_once().bits, 0.75f32.to_bits());
    assert_eq!(single(-3.0).wrap_once().bits, (-3.0f32).to_bits());
}

#[test]
fn wrap_once_leaves_nan_as_it_is() {
    assert_eq!(Binary32 { bits: 0x7FC0_0000 }.wrap_once().bits, 0x7FC0_0000);
    assert_eq!(Binary32 { bits: 0x7F80_0001 }.wrap_once().bits, 0x7F80_0001);
    assert_eq!(Binary32 { bits: 0xFFC0_1234 }.wrap_once().bits, 0xFFC0_1234);
}

#[test]
fn wrap_once_rounds_where_the_difference_has_no_encoding() {
    // Between 2^24 and 2^25 values are two apart: one less is a tie.
    assert_eq!(single(16_777_218.0).wrap_once().bits, 16_777_216.0f32.to_bits());
    assert_eq!(single(16_777_220.0).wrap_once().bits, 16_777_220.0f32.to_bits());
    assert_eq!(single(16_777_216.0).wrap_once().bits, 16_777_215.0f32.to_bits());
    assert_eq!(single(33_554_432.0).wrap_once().bits, 33_554_432.0f32.to_bits());
}

#[test]
fn from_u32_matches_the_hardware_across_the_range() {
    let mut v: u64 = 0;
    while v <= u32::MAX as u64 {
        let v32 = v as u32;
        assert_eq!(Binary32::from_u32(v32).bits, (v32 as f32).to_bits(), "converting {v32}");
        v += 7_368_787;
    }
    for shift in 0..32 {
        let power: u32 = 1 << shift;
        for v in [power.wrapping_sub(1), power, power + 1, power + power / 2, power + power / 2 + 1] {
            assert_eq!(Binary32::from_u32(v).bits, (v as f32).to_bits(), "converting {v}");
        }
    }
    assert_eq!(Binary32::from_u32(44_100).bits, 44_100.0f32.to_bits());
    assert_eq!(Binary32::from_u32(u32::MAX).bits, 4_294_967_296.0f32.to_bits());
}

#[test]
fn classification_matches_the_hardware_across_the_range() {
    for bits in encodings() {
        let x = f32::from_bits(bits);
        let ours = Binary32 { bits };
        assert_eq!(ours.is_nan_value(), x.is_nan(), "{bits:#x}");
        assert_eq!(ours.is_infinite_value(), x.is_infinite(), "{bits:#x}");
        assert_eq!(ours.is_zero_value(), x == 0.0, "{bits:#x}");
    }
}
