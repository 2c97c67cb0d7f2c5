use soc_temp::{get_pwm, parse_temp_output, parse_temp_text, MAX_MILLI};

#[test]
fn reads_tool_output() {
    assert_eq!(parse_temp_output(b"temp=48.3'C\n"), 48_300);
    assert_eq!(parse_temp_text("temp=48.3'C\n"), 48_300);
}

#[test]
fn garbage_reads_as_zero() {
    assert_eq!(parse_temp_output(b"garbage"), 0);
    assert_eq!(parse_temp_text("garbage"), 0);
}

#[test]
fn empty_output_reads_as_zero() {
    assert_eq!(parse_temp_output(b""), 0);
    assert_eq!(parse_temp_text(""), 0);
}

#[test]
fn takes_last_field_and_first_unit_part() {
    assert_eq!(parse_temp_text("a=b=7'x'y"), 7_000);
    assert_eq!(parse_temp_text("48.3'C"), 48_300);
    assert_eq!(parse_temp_text("temp=48.3"), 48_300);
    assert_eq!(parse_temp_text("temp=48.3'C=12"), 12_000);
}

#[test]
fn trims_whitespace() {
    assert_eq!(parse_temp_text("temp=  42.8 \t'C"), 42_800);
    assert_eq!(parse_temp_text("temp=\u{a0}42.8\u{3000}'C"), 42_800);
    assert_eq!(parse_temp_text("temp=4 2'C"), 0);
}

#[test]
fn decimal_forms() {
    assert_eq!(parse_temp_text("temp=-5.25'C"), -5_250);
    assert_eq!(parse_temp_text("temp=+3.'C"), 3_000);
    assert_eq!(parse_temp_text("temp=.5'C"), 500);
    assert_eq!(parse_temp_text("temp=61'C"), 61_000);
    assert_eq!(parse_temp_text("temp=1.23456'C"), 1_234);
    assert_eq!(parse_temp_text("temp=-0.0009'C"), 0);
}

#[test]
fn malformed_numbers_read_as_zero() {
    for text in ["temp=1.2.3'C", "temp=-'C", "temp=.'C", "temp=+-5'C", "temp='C", "temp=12a'C"] {
        assert_eq!(parse_temp_text(text), 0, "text {:?}", text);
    }
}

#[test]
fn huge_numbers_are_held() {
    assert_eq!(parse_temp_text("temp=99999999999999999999999'C"), MAX_MILLI);
    assert_eq!(parse_temp_text("temp=-99999999999999999999999'C"), -MAX_MILLI);
    assert_eq!(parse_temp_text("temp=9223372036854775.807'C"), MAX_MILLI);
    assert_eq!(parse_temp_text("temp=9223372036854775.806'C"), MAX_MILLI - 1);
}

#[test]
fn invalid_utf8_is_replaced() {
    assert_eq!(parse_temp_output(b"\xfftemp=51.0'C"), 51_000);
    assert_eq!(parse_temp_output(b"temp=\xff51.0'C"), 0);
}

#[test]
fn reading_feeds_duty_cycle() {
    assert_eq!(get_pwm(parse_temp_output(b"temp=50.0'C\n")), 128);
    assert_eq!(get_pwm(parse_temp_output(b"temp=59.9'C\n")), 254);
    assert_eq!(get_pwm(parse_temp_output(b"garbage")), 0);
}

#[test]
fn exponent_notation() {
    assert_eq!(parse_temp_text("temp=1e1'C"), 10_000);
    assert_eq!(parse_temp_text("temp=4.83E1'C"), 48_300);
    assert_eq!(parse_temp_text("temp=483e-1'C"), 48_300);
    assert_eq!(parse_temp_text("temp=+5.e+0'C"), 5_000);
    assert_eq!(parse_temp_text("temp=-2.5e2'C"), -250_000);
    assert_eq!(parse_temp_text("temp=1e-3'C"), 1);
    assert_eq!(parse_temp_text("temp=1e-4'C"), 0);
    assert_eq!(parse_temp_text("temp=12345e-6'C"), 12);
    assert_eq!(parse_temp_text("temp=.5e1'C"), 5_000);
}

#[test]
fn far_exponents_are_held() {
    assert_eq!(parse_temp_text("temp=1e400'C"), MAX_MILLI);
    assert_eq!(parse_temp_text("temp=-1e400'C"), -MAX_MILLI);
    assert_eq!(parse_temp_text("temp=1e-400'C"), 0);
    assert_eq!(parse_temp_text("temp=0e999999999999999999999999999999999'C"), 0);
    assert_eq!(parse_temp_text("temp=3e999999999999999999999999999999999'C"), MAX_MILLI);
    assert_eq!(parse_temp_text("temp=3e-999999999999999999999999999999999'C"), 0);
}

#[test]
fn malformed_exponents_read_as_zero() {
    for text in ["temp=1e'C", "temp=1e+'C", "temp=e5'C", "temp=.e5'C", "temp=1e5e2'C", "temp=1e2.5'C"] {
        assert_eq!(parse_temp_text(text), 0, "text {:?}", text);
    }
}

#[test]
fn infinity_reads_as_held_maximum() {
    assert_eq!(parse_temp_text("temp=inf'C"), MAX_MILLI);
    assert_eq!(parse_temp_text("temp=Infinity'C"), MAX_MILLI);
    assert_eq!(parse_temp_text("temp=-INF'C"), -MAX_MILLI);
    assert_eq!(parse_temp_text("temp=+iNfInItY'C"), MAX_MILLI);
    assert_eq!(get_pwm(parse_temp_text("temp=inf'C")), 255);
    assert_eq!(get_pwm(parse_temp_text("temp=-inf'C")), 0);
}

#[test]
fn nan_and_near_words_read_as_zero() {
    for text in ["temp=nan'C", "temp=NaN'C", "temp=infin'C", "temp=infinite'C", "temp=in'C"] {
        assert_eq!(parse_temp_text(text), 0, "text {:?}", text);
    }
}
