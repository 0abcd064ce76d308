use pointcloud_engine::ieee::{
    count_bits, double_to_single, power_of_two, round_to_unit, single_to_double,
};

fn next(state: &mut u64) -> u64 {
    *state ^= *state << 13;
    *state ^= *state >> 7;
    *state ^= *state << 17;
    *state
}

fn same_single(left: u32, right: f32) -> bool {
    if right.is_nan() {
        f32::from_bits(left).is_nan()
    } else {
        left == right.to_bits()
    }
}

fn same_double(left: u64, right: f64) -> bool {
    if right.is_nan() {
        f64::from_bits(left).is_nan()
    } else {
        left == right.to_bits()
    }
}

#[test]
fn widening_agrees_with_the_machine() {
    let chosen: [u32; 16] = [
        0,
        0x8000_0000,
        1,
        2,
        3,
        0x007f_ffff,
        0x0080_0000,
        0x0080_0001,
        0x3f80_0000,
        0x4060_0000,
        0x7f7f_ffff,
        0x7f80_0000,
        0xff80_0000,
        0x7fc0_0000,
        0x7f80_0001,
        0xffff_ffff,
    ];
    for bits in chosen {
        assert!(
            same_double(single_to_double(bits), f32::from_bits(bits) as f64),
            "{:#x}",
            bits
        );
    }
    let mut state = 0x1234_5678_9abc_def1u64;
    for _ in 0..200_000 {
        let bits = next(&mut state) as u32;
        assert!(
            same_double(single_to_double(bits), f32::from_bits(bits) as f64),
            "{:#x}",
            bits
        );
    }
    for fraction in 1..2000u32 {
        assert_eq!(single_to_double(fraction), (f32::from_bits(fraction) as f64).to_bits());
    }
    assert_eq!(f64::from_bits(single_to_double(3.5f32.to_bits())), 3.5);
    assert_eq!(f64::from_bits(single_to_double((-0.1f32).to_bits())), -0.1f32 as f64);
}

#[test]
fn narrowing_agrees_with_the_machine() {
    let chosen: [f64; 20] = [
        0.0,
        -0.0,
        1.0,
        -1.0,
        0.1,
        3.5,
        1.0e-45,
        7.0e-46,
        7.1e-46,
        1.4e-45,
        1.0e-40,
        1.1754943508222875e-38,
        1.1754942e-38,
        3.4028234663852886e38,
        3.4028235677973366e38,
        3.402823567797337e38,
        1.0e39,
        f64::INFINITY,
        f64::NEG_INFINITY,
        f64::MIN_POSITIVE,
    ];
    for value in chosen {
        assert!(
            same_single(double_to_single(value.to_bits()), value as f32),
            "{:e}",
            value
        );
    }
    assert!(f32::from_bits(double_to_single(f64::NAN.to_bits())).is_nan());
    assert!(f32::from_bits(double_to_single(0x7ff0_0000_0000_0001)).is_nan());
    let mut state = 0x0fed_cba9_8765_4321u64;
    for _ in 0..200_000 {
        let bits = next(&mut state);
        assert!(
            same_single(double_to_single(bits), f64::from_bits(bits) as f32),
            "{:#x}",
            bits
        );
        let near = (bits & 0x800f_ffff_ffff_ffff) | ((873 + (bits >> 52) % 160) << 52);
        assert!(
            same_single(double_to_single(near), f64::from_bits(near) as f32),
            "{:#x}",
            near
        );
        let tie = near & 0xffff_ffff_f000_0000 | ((bits >> 20) & 1) << 28;
        assert!(
            same_single(double_to_single(tie), f64::from_bits(tie) as f32),
            "{:#x}",
            tie
        );
    }
}

#[test]
fn narrowing_undoes_widening() {
    let mut state = 0x2468_ace0_1357_9bdfu64;
    for _ in 0..100_000 {
        let bits = next(&mut state) as u32;
        if !f32::from_bits(bits).is_nan() {
            assert_eq!(double_to_single(single_to_double(bits)), bits);
        }
    }
    assert_eq!(double_to_single(single_to_double(0x7f80_0001)), 0x7fc0_0001);
    assert_eq!(double_to_single(single_to_double(0xffc0_1234)), 0xffc0_1234);
}

#[test]
fn rounding_to_units() {
    assert_eq!(round_to_unit(0, 3), 0);
    assert_eq!(round_to_unit(3, 3), 0);
    assert_eq!(round_to_unit(4, 3), 0);
    assert_eq!(round_to_unit(5, 3), 1);
    assert_eq!(round_to_unit(12, 3), 2);
    assert_eq!(round_to_unit(20, 3), 2);
    assert_eq!(round_to_unit(21, 3), 3);
    assert_eq!(round_to_unit(7, 0), 7);
    assert_eq!(power_of_two(0), 1);
    assert_eq!(power_of_two(63), 1 << 63);
    assert_eq!(count_bits(0), 0);
    assert_eq!(count_bits(1), 1);
    assert_eq!(count_bits(255), 8);
    assert_eq!(count_bits(256), 9);
    assert_eq!(count_bits(u64::MAX), 64);
}
