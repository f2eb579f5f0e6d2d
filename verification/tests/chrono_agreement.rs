//! Cross-checks the library's RFC 3339 codec against chrono's parser on
//! the same inputs.

use chrono::{Datelike, Timelike};
use monitoring_backend::codec::parse_datetime_string;
use monitoring_backend::instant::Instant;

fn chrono_utc_fields(s: &str) -> Instant {
    let n = chrono::DateTime::parse_from_rfc3339(s).unwrap().naive_utc();
    Instant::new(
        n.year() as u32,
        n.month(),
        n.day(),
        n.hour(),
        n.minute(),
        n.second(),
    )
}

#[test]
fn parse_agrees_with_chrono_on_valid_inputs() {
    let samples = [
        "2024-01-01T00:00:00Z",
        "2024-06-15T12:34:56Z",
        "2024-06-15t12:34:56z",
        "2024-01-01T05:30:00+05:30",
        "2023-12-31T23:00:00-02:00",
        "2024-01-01T00:30:00+01:00",
        "2024-02-29T23:30:00-01:00",
        "2024-01-01T00:00:00.123456Z",
        "1999-12-31T23:59:59-00:00",
        "2000-02-29T06:07:08+13:45",
    ];
    for s in samples {
        assert_eq!(parse_datetime_string(s).unwrap(), chrono_utc_fields(s), "input: {}", s);
    }
}

#[test]
fn parse_agrees_with_chrono_on_rejections() {
    let samples = [
        "",
        "2024-01-01",
        "2024-01-01T00:00:00",
        "2024-13-01T00:00:00Z",
        "2024-01-32T00:00:00Z",
        "2023-02-29T00:00:00Z",
        "2024-01-01T24:00:00Z",
        "2024-01-01T00:60:00Z",
        "2024-01-01T00:00:00+24:00",
        "2024-01-01T00:00:00.Z",
        "not a time",
    ];
    for s in samples {
        assert!(parse_datetime_string(s).is_err(), "library accepted: {}", s);
        assert!(chrono::DateTime::parse_from_rfc3339(s).is_err(), "chrono accepted: {}", s);
    }
}
