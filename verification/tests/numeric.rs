use ismcts::fixed::{div_trunc_i64, isqrt, ln_fp, mul_div_fp, sat_add_i64, uct_fp_exec, FP_ONE};

#[test]
fn ln_fp_exact_values() {
    assert_eq!(ln_fp(1), 0);
    assert_eq!(ln_fp(2), 45426);
    assert_eq!(ln_fp(3), 68139);
    assert_eq!(ln_fp(4), 90852);
    assert!(ln_fp(u64::MAX) <= 2907263);
    assert!(ln_fp(u64::MAX) > ln_fp(u64::MAX / 2));
}

#[test]
fn isqrt_exact_values() {
    assert_eq!(isqrt(0), 0);
    assert_eq!(isqrt(1), 1);
    assert_eq!(isqrt(15), 3);
    assert_eq!(isqrt(16), 4);
    assert_eq!(isqrt(65536), 256);
    assert_eq!(isqrt(u64::MAX), 4294967295);
}

#[test]
fn saturating_addition() {
    assert_eq!(sat_add_i64(2, 3), 5);
    assert_eq!(sat_add_i64(i64::MAX, 1), i64::MAX);
    assert_eq!(sat_add_i64(i64::MIN, -1), i64::MIN);
    assert_eq!(sat_add_i64(i64::MAX, i64::MIN), -1);
}

#[test]
fn truncating_division() {
    assert_eq!(div_trunc_i64(7, 2), 3);
    assert_eq!(div_trunc_i64(-7, 2), -3);
    assert_eq!(div_trunc_i64(0, 5), 0);
    assert_eq!(div_trunc_i64(i64::MIN, 1), i64::MIN);
}

#[test]
fn fixed_point_scaling() {
    assert_eq!(mul_div_fp(92682, 65536), 92682);
    assert_eq!(mul_div_fp(-3 * FP_ONE, 65536), -3 * FP_ONE);
    assert_eq!(mul_div_fp(FP_ONE, 32768), 32768);
    assert_eq!(mul_div_fp(i64::MAX, u64::MAX), i64::MAX);
    assert_eq!(mul_div_fp(i64::MIN, u64::MAX), i64::MIN);
}

#[test]
fn uct_of_an_unvisited_node_is_maximal() {
    assert_eq!(uct_fp_exec(0, 0, 1, 92682), i64::MAX);
}

#[test]
fn uct_with_no_exploration_term_is_the_average() {
    // One visit, availability one: ln(1) = 0, so the score is the average.
    assert_eq!(uct_fp_exec(FP_ONE, 1, 1, 92682), FP_ONE);
    assert_eq!(uct_fp_exec(3 * FP_ONE, 2, 1, 92682), 3 * FP_ONE / 2);
}

#[test]
fn uct_composes_the_public_pieces() {
    let c: i64 = 92682;
    let lnv = ln_fp(2);
    let t = (lnv * 65536) / 1;
    let s = isqrt(t);
    let expected = sat_add_i64(div_trunc_i64(0, 1), mul_div_fp(c, s));
    assert_eq!(uct_fp_exec(0, 1, 2, c), expected);
    assert!(expected > 0);
    // More availability at equal visits means a larger exploration bonus.
    assert!(uct_fp_exec(0, 1, 4, c) > uct_fp_exec(0, 1, 2, c));
}

#[test]
fn uct_bonus_is_monotone_in_availability_but_not_strictly() {
    // Rising availability never lowers the score...
    assert!(uct_fp_exec(0, 1, 2, 92682) <= uct_fp_exec(0, 1, 3, 92682));
    assert!(uct_fp_exec(0, 1, 3, 92682) <= uct_fp_exec(0, 1, 4, 92682));
    // ...but truncation can level neighbours: the interpolated logarithm
    // gives these two availabilities the same fixed-point value.
    assert_eq!(ln_fp(131072), ln_fp(131073));
    assert_eq!(uct_fp_exec(0, 1, 131072, 92682), uct_fp_exec(0, 1, 131073, 92682));
}

#[test]
fn uct_exploration_term_has_the_right_scale() {
    // score 0, one visit, availability 2, c = 1.0: the bonus is
    // sqrt(ln 2) = 0.8325..., which is 54564 in units of 1/65536; the
    // truncated fixed-point route may land a few units below.
    let bonus = uct_fp_exec(0, 1, 2, FP_ONE);
    assert!(54500 <= bonus && bonus <= 54570);
    // c = sqrt(2): the bonus is sqrt(2 * ln 2) = 1.1774... = 77163 in
    // units of 1/65536.
    let bonus_sqrt2 = uct_fp_exec(0, 1, 2, 92682);
    assert!(77000 <= bonus_sqrt2 && bonus_sqrt2 <= 77170);
    // The exploration term adds onto the average.
    assert_eq!(uct_fp_exec(FP_ONE, 1, 2, FP_ONE), FP_ONE + bonus);
}
