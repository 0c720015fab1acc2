use game::fixed::{
    fx_abs, fx_add, fx_clamp, fx_div, fx_mul, fx_neg, fx_round_div, fx_sqrt, fx_sub, fx_times,
    HALF, UNIT,
};

#[test]
fn product_of_two_halves_is_a_quarter() {
    assert_eq!(fx_mul(HALF, HALF), 250_000);
}

#[test]
fn product_is_cut_toward_zero() {
    assert_eq!(fx_mul(1, HALF), 0);
    assert_eq!(fx_mul(-1, HALF), 0);
    assert_eq!(fx_mul(3, HALF), 1);
    assert_eq!(fx_mul(-3, HALF), -1);
}

#[test]
fn product_saturates() {
    assert_eq!(fx_mul(i64::MAX, 2 * UNIT), i64::MAX);
    assert_eq!(fx_mul(i64::MIN, 2 * UNIT), i64::MIN);
    assert_eq!(fx_mul(i64::MIN, -UNIT), i64::MAX);
}

#[test]
fn quotient_is_cut_toward_zero() {
    assert_eq!(fx_div(UNIT, 3 * UNIT), 333_333);
    assert_eq!(fx_div(-UNIT, 3 * UNIT), -333_333);
    assert_eq!(fx_div(UNIT, -3 * UNIT), -333_333);
    assert_eq!(fx_div(-UNIT, -3 * UNIT), 333_333);
}

#[test]
fn quotient_saturates() {
    assert_eq!(fx_div(i64::MAX, 1), i64::MAX);
    assert_eq!(fx_div(i64::MIN, 1), i64::MIN);
}

#[test]
fn sums_saturate() {
    assert_eq!(fx_add(i64::MAX, 1), i64::MAX);
    assert_eq!(fx_add(i64::MIN, -1), i64::MIN);
    assert_eq!(fx_sub(i64::MIN, 1), i64::MIN);
    assert_eq!(fx_sub(i64::MAX, -1), i64::MAX);
    assert_eq!(fx_add(2, 3), 5);
    assert_eq!(fx_sub(2, 3), -1);
}

#[test]
fn negative_of_the_least_number_saturates() {
    assert_eq!(fx_neg(i64::MIN), i64::MAX);
    assert_eq!(fx_neg(5), -5);
}

#[test]
fn clamp_brings_into_range() {
    assert_eq!(fx_clamp(i64::MAX as i128 + 10), i64::MAX);
    assert_eq!(fx_clamp(i64::MIN as i128 - 10), i64::MIN);
    assert_eq!(fx_clamp(-7), -7);
}

#[test]
fn count_times_scalar() {
    assert_eq!(fx_times(16, 1_400_000), 22_400_000);
    assert_eq!(fx_times(-3, 1_400_000), -4_200_000);
    assert_eq!(fx_times(2, i64::MAX), i64::MAX);
}

#[test]
fn absolute_value_is_wide() {
    assert_eq!(fx_abs(i64::MIN), 9_223_372_036_854_775_808i128);
    assert_eq!(fx_abs(-3), 3);
    assert_eq!(fx_abs(3), 3);
}

#[test]
fn square_root_of_two() {
    assert_eq!(fx_sqrt(2 * UNIT), 1_414_213);
}

#[test]
fn square_root_of_squares_is_exact() {
    assert_eq!(fx_sqrt(100 * UNIT), 10 * UNIT);
    assert_eq!(fx_sqrt(UNIT), UNIT);
    assert_eq!(fx_sqrt(250_000), HALF);
}

#[test]
fn square_root_below_zero_is_zero() {
    assert_eq!(fx_sqrt(0), 0);
    assert_eq!(fx_sqrt(-5), 0);
}

#[test]
fn square_root_of_the_largest_number() {
    let r = fx_sqrt(i64::MAX) as i128;
    let n = i64::MAX as i128 * UNIT as i128;
    assert!(r * r <= n);
    assert!((r + 1) * (r + 1) > n);
}

#[test]
fn rounding_division_goes_to_the_nearest() {
    assert_eq!(fx_round_div(4, 10), 0);
    assert_eq!(fx_round_div(6, 10), 1);
    assert_eq!(fx_round_div(-4, 10), 0);
    assert_eq!(fx_round_div(-6, 10), -1);
    assert_eq!(fx_round_div(14, 10), 1);
    assert_eq!(fx_round_div(16, 10), 2);
}

#[test]
fn rounding_division_breaks_ties_away_from_zero() {
    assert_eq!(fx_round_div(5, 10), 1);
    assert_eq!(fx_round_div(-5, 10), -1);
    assert_eq!(fx_round_div(15, 10), 2);
    assert_eq!(fx_round_div(-15, 10), -2);
}

#[test]
fn rounding_division_at_the_ends_of_the_range() {
    assert_eq!(fx_round_div(i64::MAX, 1), i64::MAX);
    assert_eq!(fx_round_div(i64::MIN, 1), i64::MIN);
    assert_eq!(fx_round_div(i64::MIN, i64::MAX), -1);
}
