use jelper::format_hours;

fn float_rendering(seconds: i64) -> String {
    let total_minutes = seconds / 60;
    if total_minutes % 60 == 0 {
        format!("{}h", total_minutes / 60)
    } else {
        format!("{:.1}h", seconds as f64 / 3600.0)
    }
}

#[test]
fn whole_hours_have_no_decimal() {
    assert_eq!(format_hours(0), "0h");
    assert_eq!(format_hours(3600), "1h");
    assert_eq!(format_hours(28800), "8h");
    assert_eq!(format_hours(144000), "40h");
    assert_eq!(format_hours(59), "0h");
    assert_eq!(format_hours(3659), "1h");
    assert_eq!(format_hours(-3600), "-1h");
    assert_eq!(format_hours(-59), "0h");
}

#[test]
fn fractions_have_one_decimal() {
    assert_eq!(format_hours(5400), "1.5h");
    assert_eq!(format_hours(1800), "0.5h");
    assert_eq!(format_hours(60), "0.0h");
    assert_eq!(format_hours(-5400), "-1.5h");
    assert_eq!(format_hours(-60), "-0.0h");
    assert_eq!(format_hours(27000), "7.5h");
    assert_eq!(format_hours(900), "0.2h");
    assert_eq!(format_hours(2700), "0.8h");
    assert_eq!(format_hours(180), "0.1h");
    assert_eq!(format_hours(540), "0.1h");
}

#[test]
fn matches_float_formatting_on_small_values() {
    for s in -200_000i64..200_000 {
        assert_eq!(format_hours(s), float_rendering(s), "seconds = {}", s);
    }
}

#[test]
fn matches_float_formatting_on_large_values() {
    let mut x: u64 = 0x9E37_79B9_7F4A_7C15;
    for _ in 0..200_000 {
        x ^= x << 13;
        x ^= x >> 7;
        x ^= x << 17;
        let s = x as i64;
        assert_eq!(format_hours(s), float_rendering(s), "seconds = {}", s);
        let small = (x >> 20) as i64;
        assert_eq!(format_hours(small), float_rendering(small), "seconds = {}", small);
    }
    for s in [i64::MIN, i64::MAX, i64::MIN + 1, i64::MAX - 1, 1 << 53, (1 << 53) + 1, (1 << 53) - 1] {
        assert_eq!(format_hours(s), float_rendering(s), "seconds = {}", s);
    }
}
