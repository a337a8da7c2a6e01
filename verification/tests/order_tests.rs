use heaps::min_finder::{f32_lt, min_index, LANES};
use heaps::priority::{less, less_or_equal, nan, rank_of, INFINITY, SIGN_BIT};

fn bits(x: f32) -> u32 {
    x.to_bits()
}

fn group(values: [f32; 16]) -> Vec<u32> {
    values.iter().map(|v| v.to_bits()).collect()
}

#[test]
fn constants_are_the_ieee_patterns() {
    assert_eq!(INFINITY, f32::INFINITY.to_bits());
    assert_eq!(SIGN_BIT, (-0.0f32).to_bits());
    assert_eq!(LANES, 16);
}

#[test]
fn rank_of_exact_values() {
    assert_eq!(rank_of(bits(0.0)), 0);
    assert_eq!(rank_of(bits(-0.0)), 0);
    assert_eq!(rank_of(bits(1.0)), 0x3f80_0000);
    assert_eq!(rank_of(bits(-1.0)), -0x3f80_0000);
    assert_eq!(rank_of(bits(f32::INFINITY)), 0x7f80_0000);
    assert_eq!(rank_of(bits(f32::NEG_INFINITY)), -0x7f80_0000);
    assert_eq!(rank_of(1), 1);
    assert_eq!(rank_of(0x8000_0001), -1);
}

#[test]
fn nan_is_recognised() {
    assert!(nan(bits(f32::NAN)));
    assert!(nan(0x7f80_0001));
    assert!(nan(0xffc0_0000));
    assert!(!nan(bits(f32::INFINITY)));
    assert!(!nan(bits(f32::NEG_INFINITY)));
    assert!(!nan(bits(0.0)));
    assert!(!nan(bits(f32::MAX)));
}

#[test]
fn comparisons_agree_with_floats() {
    let samples = [
        f32::NEG_INFINITY,
        -1.0e30,
        -2.5,
        -1.0,
        -f32::MIN_POSITIVE,
        -0.0,
        0.0,
        f32::MIN_POSITIVE,
        0.5,
        1.0,
        3.0,
        1.0e30,
        f32::MAX,
        f32::INFINITY,
        f32::NAN,
    ];
    for &a in samples.iter() {
        for &b in samples.iter() {
            assert_eq!(less_or_equal(bits(a), bits(b)), a <= b, "{} <= {}", a, b);
            assert_eq!(less(bits(a), bits(b)), a < b, "{} < {}", a, b);
        }
    }
}

#[test]
fn less_or_equal_on_equal_values() {
    assert!(less_or_equal(bits(2.0), bits(2.0)));
    assert!(!less(bits(2.0), bits(2.0)));
    assert!(less_or_equal(bits(-0.0), bits(0.0)));
    assert!(less_or_equal(bits(0.0), bits(-0.0)));
}

#[test]
fn min_index_finds_each_position() {
    for at in 0..16 {
        let mut values = [0.0f32; 16];
        for i in 0..16 {
            values[i] = 10.0 + i as f32;
        }
        values[at] = 1.0;
        assert_eq!(min_index(&group(values)), at);
    }
}

#[test]
fn min_index_on_shuffled_distinct_values() {
    let mut values = [0.0f32; 16];
    for round in 0..16 {
        for i in 0..16 {
            values[i] = ((i * 7 + round * 5) % 16) as f32 - 8.0;
        }
        let expected = (0..16).find(|&i| values[i] == -8.0).unwrap();
        assert_eq!(min_index(&group(values)), expected);
    }
}

#[test]
fn min_index_takes_the_lowest_of_equal_minima() {
    let mut values = [2.0f32; 16];
    values[4] = 1.0;
    values[8] = 1.0;
    assert_eq!(min_index(&group(values)), 4);
    let mut values = [2.0f32; 16];
    values[9] = 1.0;
    values[3] = 1.0;
    values[15] = 1.0;
    assert_eq!(min_index(&group(values)), 3);
    assert_eq!(min_index(&group([7.0f32; 16])), 0);
}

#[test]
fn min_index_with_infinite_padding() {
    let mut values = [f32::INFINITY; 16];
    values[0] = f32::INFINITY;
    values[1] = 5.0;
    assert_eq!(min_index(&group(values)), 1);
    assert_eq!(min_index(&group([f32::INFINITY; 16])), 0);
}

#[test]
fn min_index_with_negative_values_and_zeros() {
    let mut values = [0.0f32; 16];
    values[6] = -0.0;
    assert_eq!(min_index(&group(values)), 0);
    values[11] = -3.5;
    values[12] = -3.25;
    assert_eq!(min_index(&group(values)), 11);
}

#[test]
fn lane_mask_is_less_or_equal_per_lane() {
    let a: Vec<u32> = [1.0f32, 2.0, 3.0, -1.0, 0.0, f32::INFINITY, 5.0, f32::NAN]
        .iter()
        .map(|v| v.to_bits())
        .collect();
    let b: Vec<u32> = [2.0f32, 2.0, 1.0, -2.0, -0.0, f32::INFINITY, f32::INFINITY, 1.0]
        .iter()
        .map(|v| v.to_bits())
        .collect();
    assert_eq!(f32_lt(&a, &b), vec![true, true, false, false, true, true, true, false]);
    assert_eq!(f32_lt(&b, &a), vec![false, true, true, true, true, true, false, false]);
    assert_eq!(f32_lt(&[], &[]), Vec::<bool>::new());
}
