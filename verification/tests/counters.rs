use fdb_otel_exporter::fdb_counter::{SevCounter, SlowTaskCounter};
use fdb_otel_exporter::trace_event::TraceEvent;

fn event_with(fields: &[(&str, &str)]) -> TraceEvent {
    let mut ev = TraceEvent::new();
    for (k, v) in fields {
        ev.insert(k.to_string(), Some(v.to_string()));
    }
    ev
}

#[test]
fn record_increments_matching_severity() {
    let counter = SevCounter::new(10);
    let event = event_with(&[("Severity", "10")]);
    let hit = counter.record(&event).expect("record should succeed");
    assert!(hit, "expected counter value 1.0, got 0.0");
    assert_eq!(counter.counter_name, "process_sev10_counter");
}

#[test]
fn record_skips_mismatched_severity() {
    let counter = SevCounter::new(10);
    let event = event_with(&[("Severity", "20")]);
    let hit = counter.record(&event).expect("record should succeed");
    assert!(!hit, "expected counter value 0.0, got 1.0");
}

#[test]
fn record_errors_without_severity() {
    let counter = SevCounter::new(10);
    let event = TraceEvent::new();
    let error = counter.record(&event).expect_err("missing severity should error");
    let message = error.message();
    assert!(
        message.contains("Missing Severity field"),
        "unexpected error: {message}"
    );
}

#[test]
fn slow_task_counter_increments_above_threshold() {
    let counter = SlowTaskCounter::new(100);
    let event = event_with(&[("Type", "SlowTask"), ("Duration", "0.150")]);
    let hit = counter.record(&event).expect("record should succeed");
    assert!(hit, "expected counter value 1.0, got 0.0");
    assert_eq!(counter.counter_name, "process_slow_task_100_ms");
}

#[test]
fn slow_task_counter_skips_when_duration_below_threshold() {
    let counter = SlowTaskCounter::new(100);
    let event = event_with(&[("Type", "SlowTask"), ("Duration", "0.050")]);
    let hit = counter.record(&event).expect("record should succeed");
    assert!(!hit, "expected counter value 0.0, got 1.0");
}

#[test]
fn slow_task_counter_skips_non_slow_task_events() {
    let counter = SlowTaskCounter::new(100);
    let event = event_with(&[("Type", "Other"), ("Duration", "1.0")]);
    let hit = counter.record(&event).expect("record should succeed");
    assert!(!hit, "expected counter value 0.0, got 1.0");
}

#[test]
fn slow_task_counter_errors_without_type() {
    let counter = SlowTaskCounter::new(100);
    let event = event_with(&[("Duration", "0.150")]);
    let error = counter.record(&event).expect_err("missing type should error");
    let message = error.message();
    assert!(
        message.contains("Missing Type field"),
        "unexpected error: {message}"
    );
}

#[test]
fn slow_task_duration_at_threshold_does_not_count() {
    let counter = SlowTaskCounter::new(100);
    let event = event_with(&[("Type", "SlowTask"), ("Duration", "0.100")]);
    let hit = counter.record(&event).expect("record should succeed");
    assert!(!hit, "a duration equal to the threshold should not count");
}

#[test]
fn severity_counter_rejects_non_numeric_severity() {
    let counter = SevCounter::new(10);
    let event = event_with(&[("Severity", "ten")]);
    let error = counter.record(&event).expect_err("bad severity should error");
    assert!(error.message().contains("Invalid Severity field"));
}
