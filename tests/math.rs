use asphalt_saints::math::{
    blend_of, ceil_sqrt_i128, clamp_i64, cosine_of, div_trunc, heading_of, mul_div, sine_of,
    FULL_TURN, HALF_TURN, QUARTER_TURN, UNIT,
};

#[test]
fn clamp_keeps_values_in_range() {
    assert_eq!(clamp_i64(5, 0, 10), 5);
    assert_eq!(clamp_i64(-5, 0, 10), 0);
    assert_eq!(clamp_i64(15, 0, 10), 10);
}

#[test]
fn division_rounds_toward_zero() {
    assert_eq!(mul_div(7, 3, 2), 10);
    assert_eq!(mul_div(-7, 3, 2), -10);
    assert_eq!(mul_div(7, -3, 2), -10);
    assert_eq!(div_trunc(-1, 3), 0);
    assert_eq!(div_trunc(-9, 3), -3);
}

#[test]
fn square_root_rounds_up() {
    assert_eq!(ceil_sqrt_i128(0), 0);
    assert_eq!(ceil_sqrt_i128(1), 1);
    assert_eq!(ceil_sqrt_i128(10), 4);
    assert_eq!(ceil_sqrt_i128(16), 4);
    assert_eq!(ceil_sqrt_i128(17), 5);
    assert_eq!(ceil_sqrt_i128(7_800 * 7_800), 7_800);
}

#[test]
fn sine_and_cosine_at_the_quarters() {
    assert_eq!(sine_of(0), 0);
    assert_eq!(sine_of(QUARTER_TURN), UNIT);
    assert_eq!(sine_of(HALF_TURN), 0);
    assert_eq!(sine_of(3 * QUARTER_TURN), -UNIT);
    assert_eq!(cosine_of(0), UNIT);
    assert_eq!(cosine_of(HALF_TURN), -UNIT);
    // sin 45 degrees is 0.7071
    assert_eq!(sine_of(FULL_TURN / 8), 7_058);
}

#[test]
fn heading_turns_forward_about_the_vertical() {
    assert_eq!(heading_of(0), (0, -UNIT));
    assert_eq!(heading_of(QUARTER_TURN), (-UNIT, 0));
    assert_eq!(heading_of(HALF_TURN), (0, UNIT));
    let (x, z) = heading_of(FULL_TURN / 8);
    assert_eq!((x, z), (-7_070, -7_070));
    assert!(x * x + z * z <= UNIT * UNIT);
}

#[test]
fn smoothing_weight_follows_the_exponential() {
    assert_eq!(blend_of(60_000, 0), 0);
    // 1 - e^(-0.1) is 0.0952
    assert_eq!(blend_of(60_000, 16_667), 951);
    // 1 - e^(-1) is 0.6321
    assert_eq!(blend_of(10_000, 1_000_000), 6_307);
    assert_eq!(blend_of(0x7fff_ffff, 0x7fff_ffff), 9_999);
}
