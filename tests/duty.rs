use soc_temp::{get_pwm, CEILING_MILLI, FLOOR_MILLI, FULL_DUTY};

#[test]
fn off_at_and_below_floor() {
    for t in [i64::MIN, -273_150, -1, 0, 20_000, 39_999, 40_000] {
        assert_eq!(get_pwm(t), 0, "temperature {}", t);
    }
}

#[test]
fn full_at_and_above_ceiling() {
    for t in [60_000, 60_001, 85_000, 1_000_000, i64::MAX] {
        assert_eq!(get_pwm(t), 255, "temperature {}", t);
    }
}

#[test]
fn boundaries_are_exact() {
    assert_eq!(get_pwm(FLOOR_MILLI), 0);
    assert_eq!(get_pwm(CEILING_MILLI), FULL_DUTY);
    assert_eq!(get_pwm(40_000), 0);
    assert_eq!(get_pwm(60_000), 255);
}

#[test]
fn midpoint_rounds_up() {
    // (50.0 - 40.0) * 12.75 = 127.5
    assert_eq!(get_pwm(50_000), 128);
}

#[test]
fn just_below_ceiling_rounds_up() {
    // 19.9 * 12.75 = 253.725
    assert_eq!(get_pwm(59_900), 254);
}

#[test]
fn exact_products_are_not_raised() {
    // 4.0 * 12.75 = 51 and 8.0 * 12.75 = 102
    assert_eq!(get_pwm(44_000), 51);
    assert_eq!(get_pwm(48_000), 102);
}

#[test]
fn smallest_step_above_floor_turns_fan_on() {
    // 0.001 * 12.75 = 0.01275
    assert_eq!(get_pwm(40_001), 1);
    assert_eq!(get_pwm(45_000), 64);
    assert_eq!(get_pwm(59_999), 255);
}

#[test]
fn ramp_never_decreases() {
    let mut prev = get_pwm(39_000);
    let mut t: i64 = 39_000;
    while t <= 61_000 {
        let d = get_pwm(t);
        assert!(d >= prev, "duty fell at {}", t);
        prev = d;
        t += 1;
    }
}
