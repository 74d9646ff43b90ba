use flows::event::{format_event_line, parse_line, Event, EventType};

fn b(s: &str) -> Vec<u8> {
    s.as_bytes().to_vec()
}

#[test]
fn test_to_int_tags() {
    assert_eq!(EventType::CameToFront.to_int(), 0);
    assert_eq!(EventType::ShutDown.to_int(), 1);
    assert_eq!(EventType::StopMonitoring.to_int(), 2);
}

#[test]
fn test_format_front_change_line() {
    let e = Event { kind: EventType::CameToFront, timestamp: 123, path: b("/a/b") };
    assert_eq!(format_event_line(&e), b("0,123,/a/b"));
}

#[test]
fn test_format_shutdown_line() {
    let e = Event { kind: EventType::ShutDown, timestamp: 1699999999999, path: Vec::new() };
    assert_eq!(format_event_line(&e), b("1,1699999999999"));
}

#[test]
fn test_format_stop_line() {
    let e = Event { kind: EventType::StopMonitoring, timestamp: 456, path: Vec::new() };
    assert_eq!(format_event_line(&e), b("2,456"));
}

#[test]
fn test_format_largest_timestamp() {
    let e = Event { kind: EventType::ShutDown, timestamp: u64::MAX, path: Vec::new() };
    assert_eq!(format_event_line(&e), b("1,18446744073709551615"));
}

#[test]
fn test_parse_front_change_line() {
    let e = parse_line(&b("0,123,/a/b")).unwrap();
    assert_eq!(e.kind, EventType::CameToFront);
    assert_eq!(e.timestamp, 123);
    assert_eq!(e.path, b("/a/b"));
}

#[test]
fn test_parse_shutdown_line() {
    let e = parse_line(&b("1,123")).unwrap();
    assert_eq!(e.kind, EventType::ShutDown);
    assert_eq!(e.timestamp, 123);
    assert_eq!(e.path, Vec::<u8>::new());
}

#[test]
fn test_parse_stop_line() {
    let e = parse_line(&b("2,9")).unwrap();
    assert_eq!(e.kind, EventType::StopMonitoring);
    assert_eq!(e.timestamp, 9);
}

#[test]
fn test_parse_plus_signed_timestamp() {
    let e = parse_line(&b("1,+123")).unwrap();
    assert_eq!(e.kind, EventType::ShutDown);
    assert_eq!(e.timestamp, 123);
}

#[test]
fn test_parse_rejects_garbage() {
    assert!(parse_line(&b("garbage")).is_none());
    assert!(parse_line(&b("")).is_none());
    assert!(parse_line(&b(",")).is_none());
}

#[test]
fn test_parse_rejects_missing_path_field() {
    assert!(parse_line(&b("0,123")).is_none());
}

#[test]
fn test_parse_rejects_bad_timestamp() {
    assert!(parse_line(&b("0,12x,/a")).is_none());
    assert!(parse_line(&b("1,")).is_none());
    assert!(parse_line(&b("1,99999999999999999999999")).is_none());
}

#[test]
fn test_parse_rejects_unknown_kind() {
    assert!(parse_line(&b("3,123")).is_none());
    assert!(parse_line(&b("00,123")).is_none());
}

#[test]
fn test_parse_cuts_path_at_comma() {
    let e = parse_line(&b("0,123,a,b")).unwrap();
    assert_eq!(e.path, b("a"));
}

#[test]
fn test_line_round_trip() {
    let e = Event { kind: EventType::CameToFront, timestamp: 987654321, path: b("/Applications/X.app") };
    let back = parse_line(&format_event_line(&e)).unwrap();
    assert_eq!(back.kind, EventType::CameToFront);
    assert_eq!(back.timestamp, 987654321);
    assert_eq!(back.path, b("/Applications/X.app"));
}

#[test]
fn test_parse_u64_values() {
    assert_eq!(flows::digits::parse_u64(&b("0")), Some(0));
    assert_eq!(flows::digits::parse_u64(&b("007")), Some(7));
    assert_eq!(flows::digits::parse_u64(&b("18446744073709551615")), Some(u64::MAX));
    assert_eq!(flows::digits::parse_u64(&b("18446744073709551616")), None);
    assert_eq!(flows::digits::parse_u64(&b("+42")), Some(42));
    assert_eq!(flows::digits::parse_u64(&b("+")), None);
    assert_eq!(flows::digits::parse_u64(&b("")), None);
    assert_eq!(flows::digits::parse_u64(&b("1a")), None);
    assert_eq!(flows::digits::parse_u64(&b("-1")), None);
}

#[test]
fn test_u64_to_decimal() {
    assert_eq!(flows::digits::u64_to_decimal(0), b("0"));
    assert_eq!(flows::digits::u64_to_decimal(10), b("10"));
    assert_eq!(flows::digits::u64_to_decimal(86400000), b("86400000"));
    assert_eq!(flows::digits::u64_to_decimal(u64::MAX), b("18446744073709551615"));
}
