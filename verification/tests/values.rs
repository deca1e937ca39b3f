use fdb_otel_exporter::labels::LabelKey;
use fdb_otel_exporter::numbers::{parse_fp, parse_u64, u64_to_string, FP_SCALE};
use fdb_otel_exporter::trace_event::{parse_trace_event, TraceEvent};

#[test]
fn decimal_strings_parse_exactly() {
    assert_eq!(parse_fp("0"), Some(0));
    assert_eq!(parse_fp("123"), Some(123 * FP_SCALE));
    assert_eq!(parse_fp("0.150"), Some(150_000_000));
    assert_eq!(parse_fp("-2.5"), Some(-2_500_000_000));
    assert_eq!(parse_fp("+7.25"), Some(7_250_000_000));
    assert_eq!(parse_fp("100.000000001"), Some(100_000_000_001));
    // Digits beyond the ninth decimal place carry no weight.
    assert_eq!(parse_fp("0.1234567899"), Some(123_456_789));
    assert!(parse_fp("").is_none());
    assert!(parse_fp(".5").is_none());
    assert!(parse_fp("1e3").is_none());
    assert!(parse_fp("abc").is_none());
    assert!(parse_fp("1.2.3").is_none());
}

#[test]
fn unsigned_strings_parse_exactly() {
    assert_eq!(parse_u64("0"), Some(0));
    assert_eq!(parse_u64("42"), Some(42));
    assert_eq!(parse_u64("+42"), Some(42));
    assert_eq!(parse_u64("18446744073709551615"), Some(u64::MAX));
    assert!(parse_u64("18446744073709551616").is_none());
    assert!(parse_u64("-1").is_none());
    assert!(parse_u64("4.2").is_none());
    assert!(parse_u64("").is_none());
}

#[test]
fn numbers_render_in_decimal() {
    assert_eq!(u64_to_string(0), "0");
    assert_eq!(u64_to_string(7), "7");
    assert_eq!(u64_to_string(105), "105");
    assert_eq!(u64_to_string(18446744073709551615), "18446744073709551615");
}

#[test]
fn trace_events_keep_the_last_value_per_key() {
    let mut ev = TraceEvent::new();
    ev.insert("Version".to_string(), Some("1".to_string()));
    ev.insert("Version".to_string(), Some("2".to_string()));
    assert_eq!(ev.get_str("Version"), Some("2".to_string()));
    assert_eq!(ev.get_str("Missing"), None);
    assert!(ev.has_str("Version"));
    assert!(!ev.has_str("Missing"));
}

#[test]
fn json_lines_become_events() {
    let ev = parse_trace_event("{\"Type\":\"T\",\"N\":3,\"S\":\"x\"}").expect("valid object");
    assert_eq!(ev.get_str("Type"), Some("T".to_string()));
    assert_eq!(ev.get_str("S"), Some("x".to_string()));
    // A numeric field is present but carries no string content.
    assert!(ev.has_field("N"));
    assert!(!ev.has_str("N"));
    assert!(parse_trace_event("[1,2]").is_none());
    assert!(parse_trace_event("{").is_none());
}

#[test]
fn label_keys_are_order_insensitive() {
    let a = LabelKey::from_labels(&vec![
        ("machine".to_string(), "h1".to_string()),
        ("Roles".to_string(), "storage".to_string()),
    ]);
    let b = LabelKey::from_labels(&vec![
        ("Roles".to_string(), "storage".to_string()),
        ("machine".to_string(), "h1".to_string()),
    ]);
    assert_eq!(a.pairs, b.pairs);
    // Sorted by name, then value.
    assert_eq!(a.pairs[0].0, "Roles");
    assert_eq!(a.pairs[1].0, "machine");
}
