use monitoring_backend::codec::{get_datetime_string, parse_datetime_string, TimeFormatError};
use monitoring_backend::instant::Instant;

fn at(year: u32, month: u32, day: u32, hour: u32, minute: u32, second: u32) -> Instant {
    Instant::new(year, month, day, hour, minute, second)
}

#[test]
fn render_canonical_form() {
    let s = get_datetime_string(&at(2024, 1, 1, 0, 0, 0));
    assert_eq!(s, "2024-01-01T00:00:00Z");
}

#[test]
fn render_pads_every_field() {
    let s = get_datetime_string(&at(1, 2, 3, 4, 5, 6));
    assert_eq!(s, "0001-02-03T04:05:06Z");
}

#[test]
fn parse_utc_z() {
    let t = parse_datetime_string("2024-06-15T12:34:56Z").unwrap();
    assert_eq!(t, at(2024, 6, 15, 12, 34, 56));
}

#[test]
fn parse_lowercase_separators() {
    let t = parse_datetime_string("2024-06-15t12:34:56z").unwrap();
    assert_eq!(t, at(2024, 6, 15, 12, 34, 56));
}

#[test]
fn parse_positive_offset_normalizes_to_utc() {
    let t = parse_datetime_string("2024-01-01T05:30:00+05:30").unwrap();
    assert_eq!(t, at(2024, 1, 1, 0, 0, 0));
}

#[test]
fn parse_negative_offset_normalizes_to_utc() {
    let t = parse_datetime_string("2023-12-31T23:00:00-02:00").unwrap();
    assert_eq!(t, at(2024, 1, 1, 1, 0, 0));
}

#[test]
fn parse_offset_crosses_midnight_backward() {
    let t = parse_datetime_string("2024-01-01T00:30:00+01:00").unwrap();
    assert_eq!(t, at(2023, 12, 31, 23, 30, 0));
}

#[test]
fn parse_offset_crosses_month_forward() {
    let t = parse_datetime_string("2024-02-29T23:30:00-01:00").unwrap();
    assert_eq!(t, at(2024, 3, 1, 0, 30, 0));
}

#[test]
fn parse_minus_zero_offset_is_utc() {
    let t = parse_datetime_string("2024-01-01T00:00:00-00:00").unwrap();
    assert_eq!(t, at(2024, 1, 1, 0, 0, 0));
}

#[test]
fn parse_fraction_truncated_to_seconds() {
    let t = parse_datetime_string("2024-01-01T00:00:00.999999Z").unwrap();
    assert_eq!(t, at(2024, 1, 1, 0, 0, 0));
}

#[test]
fn parse_fraction_needs_at_least_one_digit() {
    assert_eq!(parse_datetime_string("2024-01-01T00:00:00.Z"), Err(TimeFormatError));
}

#[test]
fn parse_rejects_date_only() {
    assert_eq!(parse_datetime_string("2024-01-01"), Err(TimeFormatError));
}

#[test]
fn parse_rejects_naive_datetime_without_offset() {
    assert_eq!(parse_datetime_string("2024-01-01T00:00:00"), Err(TimeFormatError));
}

#[test]
fn parse_rejects_bad_fields() {
    assert_eq!(parse_datetime_string("2024-13-01T00:00:00Z"), Err(TimeFormatError));
    assert_eq!(parse_datetime_string("2024-00-01T00:00:00Z"), Err(TimeFormatError));
    assert_eq!(parse_datetime_string("2024-01-32T00:00:00Z"), Err(TimeFormatError));
    assert_eq!(parse_datetime_string("2024-01-00T00:00:00Z"), Err(TimeFormatError));
    assert_eq!(parse_datetime_string("2023-02-29T00:00:00Z"), Err(TimeFormatError));
    assert_eq!(parse_datetime_string("2024-01-01T24:00:00Z"), Err(TimeFormatError));
    assert_eq!(parse_datetime_string("2024-01-01T00:60:00Z"), Err(TimeFormatError));
    assert_eq!(parse_datetime_string("2024-01-01T00:00:60Z"), Err(TimeFormatError));
}

#[test]
fn parse_accepts_leap_day() {
    let t = parse_datetime_string("2024-02-29T00:00:00Z").unwrap();
    assert_eq!(t, at(2024, 2, 29, 0, 0, 0));
}

#[test]
fn leap_years_follow_the_century_rule() {
    assert!(parse_datetime_string("2000-02-29T00:00:00Z").is_ok());
    assert_eq!(parse_datetime_string("1900-02-29T00:00:00Z"), Err(TimeFormatError));
}

#[test]
fn parse_rejects_bad_offsets() {
    assert_eq!(parse_datetime_string("2024-01-01T00:00:00+24:00"), Err(TimeFormatError));
    assert_eq!(parse_datetime_string("2024-01-01T00:00:00+00:60"), Err(TimeFormatError));
    assert_eq!(parse_datetime_string("2024-01-01T00:00:00+0000"), Err(TimeFormatError));
    assert_eq!(parse_datetime_string("2024-01-01T00:00:00Zx"), Err(TimeFormatError));
    assert_eq!(parse_datetime_string("2024-01-01T00:00:00+01:000"), Err(TimeFormatError));
}

#[test]
fn parse_rejects_garbage() {
    assert_eq!(parse_datetime_string(""), Err(TimeFormatError));
    assert_eq!(parse_datetime_string("not a time"), Err(TimeFormatError));
    assert_eq!(parse_datetime_string("2024/01/01T00:00:00Z"), Err(TimeFormatError));
}

#[test]
fn parse_rejects_instants_outside_representable_years() {
    assert_eq!(parse_datetime_string("0000-01-01T00:00:00+01:00"), Err(TimeFormatError));
    assert_eq!(parse_datetime_string("9999-12-31T23:59:59-01:00"), Err(TimeFormatError));
}

#[test]
fn round_trip_samples() {
    let samples = [
        at(2024, 1, 1, 0, 0, 0),
        at(0, 1, 1, 0, 0, 0),
        at(9999, 12, 31, 23, 59, 59),
        at(2024, 2, 29, 12, 30, 45),
        at(1970, 1, 1, 0, 0, 1),
    ];
    for x in samples {
        let rendered = get_datetime_string(&x);
        assert_eq!(parse_datetime_string(&rendered), Ok(x));
    }
}

#[test]
fn parse_then_render_normalizes_offsets() {
    let t = parse_datetime_string("2024-01-01T05:30:00+05:30").unwrap();
    assert_eq!(get_datetime_string(&t), "2024-01-01T00:00:00Z");
}
