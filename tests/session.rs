use rdoas::session::{need_pass, parse_sessions, SessionFileError, SessionRecord, Timestamp};

const JAN_1_2024: i64 = 1704067200;

fn at(secs: i64) -> Timestamp {
    Timestamp { secs, nanos: 0 }
}

#[test]
fn first_check_asks_second_does_not() {
    let mut rec = SessionRecord::new();
    let now = at(JAN_1_2024);
    assert!(rec.need_password("1000", now));
    assert_eq!(rec.get("1000"), Some(at(JAN_1_2024 + 300)));
    assert!(!rec.need_password("1000", at(JAN_1_2024 + 299)));
    assert_eq!(rec.get("1000"), Some(at(JAN_1_2024 + 599)));
    assert!(rec.need_password("1000", at(JAN_1_2024 + 599)));
    assert!(rec.need_password("1001", at(JAN_1_2024 + 600)));
}

#[test]
fn need_pass_keys_by_decimal_uid() {
    let mut rec = SessionRecord::new();
    assert!(need_pass(&mut rec, 4242, at(JAN_1_2024)));
    assert_eq!(rec.get("4242"), Some(at(JAN_1_2024 + 300)));
    assert!(!need_pass(&mut rec, 4242, at(JAN_1_2024 + 1)));
}

#[test]
fn stored_form_round_trip() {
    let mut rec = SessionRecord::new();
    rec.set("1000", at(JAN_1_2024 + 300));
    rec.set("1001", at(JAN_1_2024 - 10));
    let text = rec.serialize(at(JAN_1_2024));
    assert_eq!(text, "1000=2024-01-01T00:05:00+00:00\n");
    let back = parse_sessions(&text).unwrap();
    assert_eq!(back.get("1000"), Some(at(JAN_1_2024 + 300)));
    assert_eq!(back.get("1001"), None);
}

#[test]
fn parse_stored_file() {
    let rec = parse_sessions("1000=2024-01-01T01:00:00+01:00\n\n  \n7=2024-01-01T00:00:00Z\n7=2024-01-01T00:00:01Z").unwrap();
    assert_eq!(rec.get("1000"), Some(at(JAN_1_2024)));
    assert_eq!(rec.get("7"), Some(at(JAN_1_2024 + 1)));
    assert_eq!(rec.get("8"), None);
    assert!(parse_sessions("").is_ok());
}

#[test]
fn parse_errors() {
    assert_eq!(parse_sessions("1000 2024").unwrap_err(), SessionFileError::MissingSeparator);
    assert_eq!(parse_sessions("1000=yesterday").unwrap_err(), SessionFileError::BadTimestamp);
}
