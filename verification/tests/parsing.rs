use power_monitor::current_monitor::{parse_frame, ReadError};
use power_monitor::decimal::{format_milli, parse_milli};

// A frame: one header token, five channel magnitudes, and enough
// trailing status fields to exceed the 15-token threshold.
const FRAME: &str = "HDR 1.2 1 9.3 1.5 7.6 0 0 0 0 0 0 0 0 0 0 0";

#[test]
fn parse_frame_reads_channel_magnitudes() {
    let arr = parse_frame(FRAME, 5).unwrap();
    assert_eq!(arr.len(), 5);
    assert_eq!(arr.get(0).milli, 1200);
    assert_eq!(arr.get(1).milli, 1000);
    assert_eq!(arr.get(2).milli, 9300);
    assert_eq!(arr.get(3).milli, 1500);
    assert_eq!(arr.get(4).milli, 7600);
}

#[test]
fn parse_frame_takes_last_record() {
    let batch = format!("stale partial junk\nHDR 9 9 9 9 9\n{}", FRAME);
    let arr = parse_frame(&batch, 5).unwrap();
    assert_eq!(arr.get(0).milli, 1200);
    assert_eq!(arr.get(4).milli, 7600);
}

#[test]
fn parse_frame_rejects_short_record() {
    // 15 tokens or fewer is malformed, whatever they hold
    match parse_frame("1 2 3 4 5 6 7 8 9 10 11 12 13 14 15", 5) {
        Err(ReadError::MalformedFrame { line, token_count }) => {
            assert_eq!(token_count, 15);
            assert_eq!(line, "1 2 3 4 5 6 7 8 9 10 11 12 13 14 15");
        }
        other => panic!("expected MalformedFrame, got {:?}", other),
    }
}

#[test]
fn parse_frame_rejects_empty_input() {
    match parse_frame("", 5) {
        Err(ReadError::MalformedFrame { token_count, .. }) => assert_eq!(token_count, 1),
        other => panic!("expected MalformedFrame, got {:?}", other),
    }
}

#[test]
fn parse_frame_sixteen_tokens_accepted() {
    let arr = parse_frame("H 1 2 3 4 5 6 7 8 9 10 11 12 13 14 15", 5).unwrap();
    assert_eq!(arr.get(0).milli, 1000);
    assert_eq!(arr.get(4).milli, 5000);
}

#[test]
fn parse_frame_reports_bad_token() {
    match parse_frame("HDR 1.2 oops 9.3 1.5 7.6 0 0 0 0 0 0 0 0 0 0 0", 5) {
        Err(ReadError::ParseError { index, token }) => {
            assert_eq!(index, 2);
            assert_eq!(token, "oops");
        }
        other => panic!("expected ParseError, got {:?}", other),
    }
}

#[test]
fn parse_frame_reports_oversized_magnitude() {
    // 5000000 units is 5 000 000 000 milli-units, past the u32 range
    match parse_frame("HDR 5000000 1 1 1 1 0 0 0 0 0 0 0 0 0 0 0", 5) {
        Err(ReadError::ParseError { index, token }) => {
            assert_eq!(index, 1);
            assert_eq!(token, "5000000");
        }
        other => panic!("expected ParseError, got {:?}", other),
    }
}

#[test]
fn parse_milli_plain_and_fractional() {
    assert_eq!(parse_milli("7"), Some(7000));
    assert_eq!(parse_milli("0"), Some(0));
    assert_eq!(parse_milli("1.2"), Some(1200));
    assert_eq!(parse_milli("1.25"), Some(1250));
    assert_eq!(parse_milli("0.004"), Some(4));
    assert_eq!(parse_milli("10.000"), Some(10000));
}

#[test]
fn parse_milli_truncates_extra_digits() {
    assert_eq!(parse_milli("1.2345"), Some(1234));
    assert_eq!(parse_milli("0.0009"), Some(0));
}

#[test]
fn parse_milli_rejects_non_decimal() {
    assert_eq!(parse_milli(""), None);
    assert_eq!(parse_milli("."), None);
    assert_eq!(parse_milli("1."), None);
    assert_eq!(parse_milli(".5"), None);
    assert_eq!(parse_milli("1.2.3"), None);
    assert_eq!(parse_milli("-1"), None);
    assert_eq!(parse_milli("1e3"), None);
    assert_eq!(parse_milli("1 2"), None);
}

#[test]
fn parse_milli_rejects_oversized() {
    assert_eq!(parse_milli("4294967.296"), None);
    assert_eq!(parse_milli("99999999999999999999"), None);
    assert_eq!(parse_milli("4294967.295"), Some(u32::MAX));
}

#[test]
fn format_milli_shortest_form() {
    assert_eq!(format_milli(1200), "1.2");
    assert_eq!(format_milli(1000), "1");
    assert_eq!(format_milli(9300), "9.3");
    assert_eq!(format_milli(4), "0.004");
    assert_eq!(format_milli(1234), "1.234");
    assert_eq!(format_milli(0), "0");
    assert_eq!(format_milli(1250), "1.25");
}

#[test]
fn format_then_parse_is_identity() {
    for v in [0u32, 1, 9, 10, 999, 1000, 1200, 86400, 4294967295] {
        assert_eq!(parse_milli(&format_milli(v)), Some(v));
    }
}
