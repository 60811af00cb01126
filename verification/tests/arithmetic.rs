//! The software arithmetic against the machine's own binary32 arithmetic.

use mandelbrot::binary32::Binary32;

/// A small generator of well mixed 32-bit patterns.
fn next(state: &mut u64) -> u32 {
    *state ^= *state << 13;
    *state ^= *state >> 7;
    *state ^= *state << 17;
    (*state >> 16) as u32
}

/// Patterns at the edges of each class of value, of both signs.
fn edges() -> Vec<u32> {
    let magnitudes: [u32; 30] = [
        0x0000_0000,
        0x0000_0001,
        0x0000_0002,
        0x0000_0003,
        0x0040_0000,
        0x007f_ffff,
        0x0080_0000,
        0x0080_0001,
        0x00ff_ffff,
        0x0100_0000,
        0x3300_0000,
        0x3380_0000,
        0x3eff_ffff,
        0x3f00_0000,
        0x3f00_0001,
        0x3f7f_ffff,
        0x3f80_0000,
        0x3f80_0001,
        0x3fc0_0000,
        0x4000_0000,
        0x4020_0000,
        0x4060_0000,
        0x4080_0000,
        0x437f_0000,
        0x4b00_0000,
        0x4b80_0000,
        0x7f00_0000,
        0x7f7f_ffff,
        0x7f80_0000,
        0x7fc0_0000,
    ];
    let mut all = Vec::new();
    for m in magnitudes {
        all.push(m);
        all.push(m | 0x8000_0000);
    }
    all
}

/// Pairs of patterns: every pair of edges, then random pairs, half of them
/// with exponents close to each other.
fn pairs() -> Vec<(u32, u32)> {
    let mut all = Vec::new();
    for a in edges() {
        for b in edges() {
            all.push((a, b));
        }
    }
    let mut state: u64 = 0x9e37_79b9_7f4a_7c15;
    for i in 0..200_000 {
        let a = next(&mut state);
        let mut b = next(&mut state);
        if i % 2 == 0 {
            let shift = next(&mut state) % 60;
            let field = ((a >> 23) & 0xff) as i64 + shift as i64 - 30;
            let field = field.clamp(0, 255) as u32;
            b = (b & 0x807f_ffff) | (field << 23);
        }
        all.push((a, b));
    }
    all
}

fn same(soft: Binary32, hard: f32) -> bool {
    if hard.is_nan() {
        soft.is_nan()
    } else {
        soft.to_bits() == hard.to_bits()
    }
}

#[test]
fn add_matches_the_machine() {
    for (a, b) in pairs() {
        let soft = Binary32::from_bits(a).add(Binary32::from_bits(b));
        let hard = f32::from_bits(a) + f32::from_bits(b);
        assert!(same(soft, hard), "{a:#x} + {b:#x}: {:#x} not {:#x}", soft.to_bits(), hard.to_bits());
    }
}

#[test]
fn sub_matches_the_machine() {
    for (a, b) in pairs() {
        let soft = Binary32::from_bits(a).sub(Binary32::from_bits(b));
        let hard = f32::from_bits(a) - f32::from_bits(b);
        assert!(same(soft, hard), "{a:#x} - {b:#x}: {:#x} not {:#x}", soft.to_bits(), hard.to_bits());
    }
}

#[test]
fn mul_matches_the_machine() {
    for (a, b) in pairs() {
        let soft = Binary32::from_bits(a).mul(Binary32::from_bits(b));
        let hard = f32::from_bits(a) * f32::from_bits(b);
        assert!(same(soft, hard), "{a:#x} * {b:#x}: {:#x} not {:#x}", soft.to_bits(), hard.to_bits());
    }
}

#[test]
fn mul_of_small_values_matches_the_machine() {
    let mut state: u64 = 0x1234_5678_9abc_def1;
    for _ in 0..200_000 {
        // products that land among the subnormal values
        let a = (next(&mut state) & 0x807f_ffff) | ((next(&mut state) % 127) << 23);
        let fa = (a >> 23) & 0xff;
        let fb = (127 + next(&mut state) % 30).saturating_sub(fa).min(254);
        let b = (next(&mut state) & 0x807f_ffff) | (fb << 23);
        let soft = Binary32::from_bits(a).mul(Binary32::from_bits(b));
        let hard = f32::from_bits(a) * f32::from_bits(b);
        assert!(same(soft, hard), "{a:#x} * {b:#x}: {:#x} not {:#x}", soft.to_bits(), hard.to_bits());
    }
}

#[test]
fn div_matches_the_machine() {
    for (a, b) in pairs() {
        let soft = Binary32::from_bits(a).div(Binary32::from_bits(b));
        let hard = f32::from_bits(a) / f32::from_bits(b);
        assert!(same(soft, hard), "{a:#x} / {b:#x}: {:#x} not {:#x}", soft.to_bits(), hard.to_bits());
    }
}

#[test]
fn div_of_whole_numbers_matches_the_machine() {
    let mut state: u64 = 0x0bad_cafe_dead_beef;
    for i in 0..200_000u32 {
        let a = if i % 2 == 0 { next(&mut state) % 20_000 } else { next(&mut state) };
        let b = if i % 3 == 0 { next(&mut state) % 20_000 } else { next(&mut state) };
        let soft = Binary32::from_u32(a).div(Binary32::from_u32(b));
        let hard = a as f32 / b as f32;
        assert!(same(soft, hard), "{a} / {b}: {:#x} not {:#x}", soft.to_bits(), hard.to_bits());
    }
}

#[test]
fn le_matches_the_machine() {
    for (a, b) in pairs() {
        let soft = Binary32::from_bits(a).le(Binary32::from_bits(b));
        let hard = f32::from_bits(a) <= f32::from_bits(b);
        assert_eq!(soft, hard, "{a:#x} <= {b:#x}");
    }
}

#[test]
fn neg_matches_the_machine() {
    for a in edges() {
        let soft = Binary32::from_bits(a).neg();
        let hard = -f32::from_bits(a);
        assert!(same(soft, hard), "-{a:#x}");
    }
}

#[test]
fn from_u32_matches_the_machine() {
    let mut values: Vec<u32> = vec![
        0,
        1,
        2,
        3,
        255,
        0x00ff_ffff,
        0x0100_0000,
        0x0100_0001,
        0x0100_0002,
        0x0100_0003,
        0x01ff_ffff,
        0x7fff_ffbf,
        0x7fff_ffc0,
        0x7fff_ffff,
        0x8000_0000,
        0xffff_ff7f,
        0xffff_ff80,
        0xffff_ffff,
    ];
    let mut state: u64 = 0x2545_f491_4f6c_dd1d;
    for _ in 0..200_000 {
        let v = next(&mut state);
        values.push(v);
        values.push(v >> (next(&mut state) % 32));
    }
    for v in values {
        let soft = Binary32::from_u32(v);
        let hard = v as f32;
        assert!(same(soft, hard), "{v}: {:#x} not {:#x}", soft.to_bits(), hard.to_bits());
    }
}

#[test]
fn from_u32_rounds_ties_to_even() {
    // 2^24 + 1 lies half way between 2^24 and 2^24 + 2
    assert_eq!(Binary32::from_u32(0x0100_0001).to_bits(), 0x4b80_0000);
    // 2^24 + 3 lies half way between 2^24 + 2 and 2^24 + 4
    assert_eq!(Binary32::from_u32(0x0100_0003).to_bits(), 0x4b80_0002);
    assert_eq!(Binary32::from_u32(1).to_bits(), 0x3f80_0000);
    assert_eq!(Binary32::from_u32(u32::MAX).to_bits(), 0x4f80_0000);
}

#[test]
fn round_matches_the_machine() {
    let mut patterns = edges();
    let mut state: u64 = 0x853c_49e6_748f_ea9b;
    for _ in 0..200_000 {
        patterns.push(next(&mut state));
        // values around the whole numbers
        let field = 120 + next(&mut state) % 35;
        patterns.push((next(&mut state) & 0x807f_ffff) | (field << 23));
    }
    for k in 0..600u32 {
        patterns.push((k as f32 / 2.0).to_bits());
        patterns.push((-(k as f32) / 2.0).to_bits());
        patterns.push((k as f32 / 2.0).to_bits() + 1);
        patterns.push((k as f32 / 2.0).to_bits().wrapping_sub(1));
    }
    for a in patterns {
        let soft = Binary32::from_bits(a).round();
        let hard = f32::from_bits(a).round();
        assert!(same(soft, hard), "round {a:#x}: {:#x} not {:#x}", soft.to_bits(), hard.to_bits());
    }
}

#[test]
fn to_u8_matches_the_machine() {
    let mut patterns = edges();
    let mut state: u64 = 0xda94_2042_e4dd_58b5;
    for _ in 0..200_000 {
        patterns.push(next(&mut state));
        let field = 120 + next(&mut state) % 20;
        patterns.push((next(&mut state) & 0x807f_ffff) | (field << 23));
    }
    for k in 0..1200u32 {
        patterns.push((k as f32 / 4.0).to_bits());
    }
    for a in patterns {
        let soft = Binary32::from_bits(a).to_u8();
        let hard = f32::from_bits(a) as u8;
        assert_eq!(soft, hard, "{a:#x} as u8");
    }
}

#[test]
fn bits_go_in_and_out_unchanged() {
    for a in edges() {
        assert_eq!(Binary32::from_bits(a).to_bits(), a);
    }
    assert!(Binary32::from_bits(0x7fc0_0000).is_nan());
    assert!(Binary32::from_bits(0xff80_0001).is_nan());
    assert!(!Binary32::from_bits(0x7f80_0000).is_nan());
    assert!(Binary32::from_bits(0x8000_0000).is_negative());
    assert!(!Binary32::from_bits(0x7fff_ffff).is_negative());
}

#[test]
fn sums_of_opposite_values_are_positive_zero() {
    let x = Binary32::from_u32(5);
    assert_eq!(x.add(x.neg()).to_bits(), 0);
    assert_eq!(x.sub(x).to_bits(), 0);
    let negative_zero = Binary32::from_bits(0x8000_0000);
    assert_eq!(negative_zero.add(negative_zero).to_bits(), 0x8000_0000);
    assert_eq!(negative_zero.add(Binary32::from_bits(0)).to_bits(), 0);
}

#[test]
fn exact_results_of_each_operation() {
    let three = Binary32::from_u32(3);
    let two = Binary32::from_u32(2);
    assert_eq!(three.add(two).to_bits(), 5.0f32.to_bits());
    assert_eq!(three.sub(two).to_bits(), 1.0f32.to_bits());
    assert_eq!(two.sub(three).to_bits(), (-1.0f32).to_bits());
    assert_eq!(three.mul(two).to_bits(), 6.0f32.to_bits());
    assert_eq!(three.div(two).to_bits(), 1.5f32.to_bits());
    // 1 / 3 is rounded: 0x3eaaaaab
    assert_eq!(Binary32::from_u32(1).div(three).to_bits(), 0x3eaa_aaab);
    assert_eq!(three.div(two).round().to_bits(), 2.0f32.to_bits());
    assert_eq!(three.div(two).to_u8(), 1);
    assert!(two.le(three));
    assert!(!three.le(two));
    assert!(two.le(two));
}

#[test]
fn overflow_gives_infinity_and_invalid_gives_nan() {
    let big = Binary32::from_bits(0x7f7f_ffff);
    assert_eq!(big.add(big).to_bits(), 0x7f80_0000);
    assert_eq!(big.mul(big).to_bits(), 0x7f80_0000);
    assert_eq!(big.neg().mul(big).to_bits(), 0xff80_0000);
    let zero = Binary32::from_u32(0);
    assert!(zero.div(zero).is_nan());
    assert_eq!(Binary32::from_u32(1).div(zero).to_bits(), 0x7f80_0000);
    let infinity = Binary32::from_bits(0x7f80_0000);
    assert!(infinity.sub(infinity).is_nan());
    assert!(infinity.mul(zero).is_nan());
    assert!(infinity.div(infinity).is_nan());
    assert_eq!(infinity.to_u8(), 255);
    assert_eq!(infinity.neg().to_u8(), 0);
    assert_eq!(zero.div(zero).to_u8(), 0);
    assert!(!zero.div(zero).le(zero));
}
