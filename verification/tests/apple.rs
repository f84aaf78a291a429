//! Apple's dates, `--since`, and the archived bodies of messages.
use msg::apple::{
    ParseTimeError, decode_attributed_body, from_apple_date, message_body, since_to_apple_date,
    to_apple_date,
};
use msg::iso::serialize;

const STREAM_HEADER: &[u8] = b"\x04\x0bstreamtyped";
const INT_16: u8 = 0x81;
const STRING_MARKER: u8 = 0x2b;

fn typed_stream(text: &str) -> Vec<u8> {
    let body = text.as_bytes();
    let mut blob = Vec::new();
    blob.extend_from_slice(STREAM_HEADER);
    blob.extend_from_slice(&[0x81, 0xe8, 0x03, 0x84, 0x01, 0x40, 0x84, 0x84, 0x84]);
    blob.extend_from_slice(b"NSString");
    blob.extend_from_slice(&[0x01, 0x94, 0x84, 0x01, 0x2b]);
    if body.len() < 0x80 {
        blob.push(body.len() as u8);
    } else {
        blob.push(INT_16);
        blob.extend_from_slice(&(body.len() as u16).to_le_bytes());
    }
    blob.extend_from_slice(body);
    blob
}

fn iso(date: Option<i64>) -> String {
    serialize(date).expect("a date")
}

#[test]
fn reads_nanosecond_timestamps() {
    let date = from_apple_date(Some(807_667_200 * 1_000_000_000));
    assert_eq!(iso(date), "2026-08-06T00:00:00.000Z");
}

#[test]
fn reads_legacy_second_timestamps() {
    assert_eq!(
        iso(from_apple_date(Some(807_667_200))),
        "2026-08-06T00:00:00.000Z"
    );
}

#[test]
fn survives_values_beyond_the_javascript_safe_integer() {
    let raw = 807_667_200i64 * 1_000_000_000;
    assert!(raw > 9_007_199_254_740_991);
    assert!(from_apple_date(Some(raw)).is_some());
}

#[test]
fn round_trips_through_to_apple_date() {
    let original = chrono::DateTime::parse_from_rfc3339("2026-03-01T12:34:56Z")
        .unwrap()
        .timestamp_millis();
    assert_eq!(from_apple_date(to_apple_date(original)), Some(original));
}

#[test]
fn treats_null_and_zero_as_no_date() {
    assert_eq!(from_apple_date(None), None);
    assert_eq!(from_apple_date(Some(0)), None);
}

#[test]
fn accepts_durations() {
    let two_hours = from_apple_date(Some(since_to_apple_date("2h").unwrap())).unwrap();
    let expected = chrono::Utc::now().timestamp_millis() - 2 * 3_600_000;
    assert!((two_hours - expected).abs() < 5_000);
}

#[test]
fn accepts_fractional_durations() {
    let ninety = from_apple_date(Some(since_to_apple_date("1.5h").unwrap())).unwrap();
    let expected = chrono::Utc::now().timestamp_millis() - 90 * 60_000;
    assert!((ninety - expected).abs() < 5_000);
}

#[test]
fn accepts_iso_dates() {
    let date = from_apple_date(Some(since_to_apple_date("2026-01-15").unwrap()));
    assert_eq!(iso(date), "2026-01-15T00:00:00.000Z");
}

#[test]
fn accepts_a_full_timestamp() {
    let date = from_apple_date(Some(since_to_apple_date("2026-01-15T17:30:00Z").unwrap()));
    assert_eq!(iso(date), "2026-01-15T17:30:00.000Z");
}

#[test]
fn rejects_nonsense() {
    for spec in [
        "soonish",
        "",
        "-1h",
        "1e3h",
        ".5h",
        "1.h",
        "h",
        "2026-13-45",
        "2y",
    ] {
        assert!(since_to_apple_date(spec).is_err(), "accepted {spec:?}");
    }
}

#[test]
fn refuses_a_date_outside_what_an_apple_timestamp_can_hold() {
    for spec in ["9999-01-01", "1700-01-01", "1000-01-01", "2500-06-01"] {
        let error = since_to_apple_date(spec).unwrap_err();
        assert!(
            matches!(error, ParseTimeError::OutOfRange(_)),
            "{spec} gave {error:?}"
        );
        assert!(error.to_string().contains("outside the range"), "{spec}");
    }
}

#[test]
fn accepts_the_edges_of_what_does_fit() {
    for spec in ["1710-01-01", "2292-01-01", "2026-08-07"] {
        assert!(since_to_apple_date(spec).is_ok(), "{spec} was refused");
    }
}

#[test]
fn an_enormous_duration_saturates_rather_than_wrapping() {
    let since = since_to_apple_date("99999999999w");
    assert!(
        since.is_err() || since.is_ok_and(|value| value < 0),
        "a huge duration produced a cutoff in the future"
    );
}

#[test]
fn the_error_names_what_it_could_not_parse() {
    let error = since_to_apple_date("soonish").unwrap_err();
    assert!(matches!(error, ParseTimeError::Unparsed(_)), "{error:?}");
    let text = error.to_string();
    assert!(text.contains("cannot parse time"), "{text}");
    // An amount no float can hold is no amount.
    let endless = format!("{}h", "9".repeat(400));
    let error = since_to_apple_date(&endless).unwrap_err();
    assert!(matches!(error, ParseTimeError::Unparsed(_)), "{error:?}");
    let long = format!("{}h", "9".repeat(300));
    let error = since_to_apple_date(&long).unwrap_err();
    assert!(!matches!(error, ParseTimeError::Unparsed(_)), "{error:?}");
    assert!(text.contains("soonish"), "{text}");
}

#[test]
fn decodes_a_short_string() {
    assert_eq!(
        decode_attributed_body(Some(&typed_stream("hey are you around"))).as_deref(),
        Some("hey are you around")
    );
}

#[test]
fn decodes_a_string_longer_than_one_length_byte() {
    let long = "x".repeat(500);
    assert_eq!(
        decode_attributed_body(Some(&typed_stream(&long))).as_deref(),
        Some(long.as_str())
    );
}

#[test]
fn decodes_multi_byte_characters() {
    assert_eq!(
        decode_attributed_body(Some(&typed_stream("café ☕️"))).as_deref(),
        Some("café ☕️")
    );
}

#[test]
fn returns_none_for_a_blob_that_is_not_a_typedstream() {
    assert_eq!(decode_attributed_body(Some(b"not an archive")), None);
}

#[test]
fn returns_none_for_empty_input() {
    assert_eq!(decode_attributed_body(None), None);
    assert_eq!(decode_attributed_body(Some(&[])), None);
}

#[test]
fn survives_a_truncated_blob() {
    let full = typed_stream("hey are you around");
    for length in 0..full.len() {
        let decoded = decode_attributed_body(Some(&full[..length]));
        assert!(
            decoded.is_none_or(|text| "hey are you around".starts_with(&text)),
            "invented text from a {length}-byte prefix"
        );
    }
}

#[test]
fn refuses_a_length_that_runs_past_the_end() {
    let mut blob = typed_stream("hello");
    let marker = blob
        .iter()
        .rposition(|&byte| byte == STRING_MARKER)
        .unwrap();
    blob[marker + 1] = 0x7f;
    assert_eq!(decode_attributed_body(Some(&blob)), None);
}

#[test]
fn refuses_a_negative_length() {
    let mut blob = typed_stream("hello");
    let marker = blob
        .iter()
        .rposition(|&byte| byte == STRING_MARKER)
        .unwrap();
    blob[marker + 1] = 0x84;
    assert_eq!(decode_attributed_body(Some(&blob)), None);
}

#[test]
fn message_body_prefers_the_text_column() {
    let archived = typed_stream("archived");
    assert_eq!(
        message_body(Some("plain text".into()), Some(&archived)).as_deref(),
        Some("plain text")
    );
}

#[test]
fn message_body_falls_back_to_the_archived_body() {
    let archived = typed_stream("archived");
    assert_eq!(
        message_body(None, Some(&archived)).as_deref(),
        Some("archived")
    );
}

#[test]
fn message_body_is_none_when_both_are_missing() {
    assert_eq!(message_body(None, None), None);
}
