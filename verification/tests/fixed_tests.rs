use rpeg::fixed::{clamp_i64, rdiv_i64};

#[test]
fn rounded_division_rounds_half_away_from_zero() {
    assert_eq!(rdiv_i64(7, 2), 4);
    assert_eq!(rdiv_i64(-7, 2), -4);
    assert_eq!(rdiv_i64(6, 4), 2);
    assert_eq!(rdiv_i64(5, 4), 1);
    assert_eq!(rdiv_i64(-5, 4), -1);
    assert_eq!(rdiv_i64(-6, 4), -2);
    assert_eq!(rdiv_i64(0, 1_000_000), 0);
    assert_eq!(rdiv_i64(128_000_000, 255), 501_961);
}

#[test]
fn clamp_forces_into_interval() {
    assert_eq!(clamp_i64(5, 0, 10), 5);
    assert_eq!(clamp_i64(-5, 0, 10), 0);
    assert_eq!(clamp_i64(15, 0, 10), 10);
    assert_eq!(clamp_i64(-300_001, -300_000, 300_000), -300_000);
}
