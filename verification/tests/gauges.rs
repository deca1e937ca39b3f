use fdb_otel_exporter::fdb_gauge::{
    ElapsedRateFDBGauge, RateCounterFDBGauge, SimpleFDBGauge, TotalCounterFDBGauge,
};
use fdb_otel_exporter::numbers::Frac;
use fdb_otel_exporter::trace_event::TraceEvent;

fn base_event_with_type(trace_type: &str) -> TraceEvent {
    let mut event = TraceEvent::new();
    event.insert("Type".to_string(), Some(trace_type.to_string()));
    event
}

fn frac_f64(f: &Frac) -> f64 {
    f.num as f64 / f.den as f64
}

fn machine_labels() -> Vec<(String, String)> {
    vec![("machine".to_string(), "test".to_string())]
}

#[test]
fn simple_gauge_records_matching_events() {
    let mut gauge = SimpleFDBGauge::new(
        "StorageMetrics".to_string(),
        "Version".to_string(),
        "ss_version_test".to_string(),
        "Test version gauge".to_string(),
    );

    let mut event = base_event_with_type("StorageMetrics");
    event.insert("Version".to_string(), Some("123".to_string()));
    event.insert("Time".to_string(), Some("1.0".to_string()));

    let emitted = gauge.record(&event, &vec![]).expect("record should succeed");
    let frac = emitted.expect("a matching event should emit");
    assert_eq!(frac_f64(&frac), 123.0);
}

#[test]
fn simple_gauge_applies_rolling_window() {
    let mut gauge = SimpleFDBGauge::new(
        "StorageMetrics".to_string(),
        "Version".to_string(),
        "ss_version_test".to_string(),
        "Test version gauge".to_string(),
    );
    let labels = machine_labels();

    let mut event = base_event_with_type("StorageMetrics");
    event.insert("Version".to_string(), Some("10".to_string()));
    event.insert("Time".to_string(), Some("100.0".to_string()));
    gauge.record(&event, &labels).expect("initial record should succeed");

    event.insert("Version".to_string(), Some("20".to_string()));
    event.insert("Time".to_string(), Some("105.0".to_string()));
    gauge.record(&event, &labels).expect("second record should succeed");

    event.insert("Version".to_string(), Some("30".to_string()));
    event.insert("Time".to_string(), Some("110.0".to_string()));
    let third = gauge
        .record(&event, &labels)
        .expect("third record should succeed")
        .expect("emit");
    let avg_three = frac_f64(&third);
    assert!(
        (avg_three - 20.0).abs() < f64::EPSILON,
        "expected average of first three samples to be 20.0, got {avg_three}"
    );

    event.insert("Version".to_string(), Some("40".to_string()));
    event.insert("Time".to_string(), Some("120.0".to_string()));
    let fourth = gauge
        .record(&event, &labels)
        .expect("fourth record should succeed")
        .expect("emit");
    let avg_four = frac_f64(&fourth);
    assert!(
        (avg_four - 30.0).abs() < f64::EPSILON,
        "expected average of the most recent samples to be 30.0, got {avg_four}"
    );
}

#[test]
fn simple_gauge_errors_when_field_missing() {
    let mut gauge = SimpleFDBGauge::new(
        "StorageMetrics".to_string(),
        "Version".to_string(),
        "ss_version_test".to_string(),
        "Test version gauge".to_string(),
    );

    let event = base_event_with_type("StorageMetrics");
    let err = gauge
        .record(&event, &vec![])
        .expect_err("missing field should error");
    let message = err.message();
    assert!(message.contains("Version"), "unexpected error message: {message}");
}

#[test]
fn total_counter_gauge_parses_third_component() {
    let gauge = TotalCounterFDBGauge::new(
        "StorageMetrics".to_string(),
        "BytesDurable".to_string(),
        "ss_bytes_durable_test".to_string(),
        "Total bytes durable".to_string(),
    );

    let mut event = base_event_with_type("StorageMetrics");
    event.insert("BytesDurable".to_string(), Some("1 2 3".to_string()));

    let emitted = gauge.record(&event).expect("record should succeed");
    let frac = emitted.expect("a matching event should emit");
    assert_eq!(frac_f64(&frac), 3.0);
}

#[test]
fn rate_counter_gauge_parses_first_component() {
    let mut gauge = RateCounterFDBGauge::new(
        "ProxyMetrics".to_string(),
        "TxnCommitIn".to_string(),
        "cp_txn_commit_in_test".to_string(),
        "Txn commit rate".to_string(),
    );

    let mut event = base_event_with_type("ProxyMetrics");
    event.insert("TxnCommitIn".to_string(), Some("42 100 200".to_string()));
    event.insert("Time".to_string(), Some("1.0".to_string()));

    let emitted = gauge.record(&event, &vec![]).expect("record should succeed");
    let frac = emitted.expect("a matching event should emit");
    assert_eq!(frac_f64(&frac), 42.0);
}

#[test]
fn rate_counter_gauge_averages_last_three_samples() {
    let mut gauge = RateCounterFDBGauge::new(
        "ProxyMetrics".to_string(),
        "TxnCommitIn".to_string(),
        "cp_txn_commit_in_test".to_string(),
        "Txn commit rate".to_string(),
    );
    let labels = machine_labels();

    let mut event = base_event_with_type("ProxyMetrics");
    event.insert("TxnCommitIn".to_string(), Some("10 0 0".to_string()));
    event.insert("Time".to_string(), Some("100.0".to_string()));
    gauge.record(&event, &labels).expect("initial record should succeed");

    event.insert("TxnCommitIn".to_string(), Some("20 0 0".to_string()));
    event.insert("Time".to_string(), Some("105.0".to_string()));
    gauge.record(&event, &labels).expect("second record should succeed");

    event.insert("TxnCommitIn".to_string(), Some("30 0 0".to_string()));
    event.insert("Time".to_string(), Some("110.0".to_string()));
    let third = gauge
        .record(&event, &labels)
        .expect("third record should succeed")
        .expect("emit");
    let value_after_three = frac_f64(&third);
    assert!(
        (value_after_three - 20.0).abs() < f64::EPSILON,
        "expected average of first three samples to be 20.0, got {value_after_three}"
    );

    event.insert("TxnCommitIn".to_string(), Some("40 0 0".to_string()));
    event.insert("Time".to_string(), Some("120.0".to_string()));
    let fourth = gauge
        .record(&event, &labels)
        .expect("fourth record should succeed")
        .expect("emit");
    let value_after_four = frac_f64(&fourth);
    assert!(
        (value_after_four - 30.0).abs() < f64::EPSILON,
        "expected average of most recent three samples to be 30.0, got {value_after_four}"
    );
}

#[test]
fn elapsed_rate_gauge_divides_by_elapsed() {
    let mut gauge = ElapsedRateFDBGauge::new(
        "ProcessMetrics".to_string(),
        "CPUSeconds".to_string(),
        "process_cpu_util_test".to_string(),
        "CPU utilization".to_string(),
    );

    let mut event = base_event_with_type("ProcessMetrics");
    event.insert("CPUSeconds".to_string(), Some("10.0".to_string()));
    event.insert("Elapsed".to_string(), Some("2.0".to_string()));
    event.insert("Time".to_string(), Some("1.0".to_string()));

    let emitted = gauge.record(&event, &vec![]).expect("record should succeed");
    let frac = emitted.expect("a matching event should emit");
    assert_eq!(frac_f64(&frac), 5.0);
}

#[test]
fn elapsed_rate_gauge_applies_rolling_window() {
    let mut gauge = ElapsedRateFDBGauge::new(
        "ProcessMetrics".to_string(),
        "CPUSeconds".to_string(),
        "process_cpu_util_test".to_string(),
        "CPU utilization".to_string(),
    );
    let labels = machine_labels();

    let mut event = base_event_with_type("ProcessMetrics");
    event.insert("CPUSeconds".to_string(), Some("10.0".to_string()));
    event.insert("Elapsed".to_string(), Some("2.0".to_string()));
    event.insert("Time".to_string(), Some("100.0".to_string()));
    gauge.record(&event, &labels).expect("initial record should succeed");

    event.insert("CPUSeconds".to_string(), Some("20.0".to_string()));
    event.insert("Elapsed".to_string(), Some("2.0".to_string()));
    event.insert("Time".to_string(), Some("105.0".to_string()));
    gauge.record(&event, &labels).expect("second record should succeed");

    event.insert("CPUSeconds".to_string(), Some("30.0".to_string()));
    event.insert("Elapsed".to_string(), Some("2.0".to_string()));
    event.insert("Time".to_string(), Some("110.0".to_string()));
    let third = gauge
        .record(&event, &labels)
        .expect("third record should succeed")
        .expect("emit");
    let avg_three = frac_f64(&third);
    assert!(
        (avg_three - 10.0).abs() < f64::EPSILON,
        "expected average of first three samples to be 10.0, got {avg_three}"
    );

    event.insert("CPUSeconds".to_string(), Some("40.0".to_string()));
    event.insert("Elapsed".to_string(), Some("2.0".to_string()));
    event.insert("Time".to_string(), Some("120.0".to_string()));
    let fourth = gauge
        .record(&event, &labels)
        .expect("fourth record should succeed")
        .expect("emit");
    let avg_four = frac_f64(&fourth);
    assert!(
        (avg_four - 15.0).abs() < f64::EPSILON,
        "expected average of most recent samples to be 15.0, got {avg_four}"
    );
}

#[test]
fn mismatched_type_is_ignored_without_touching_state() {
    let mut gauge = SimpleFDBGauge::new(
        "StorageMetrics".to_string(),
        "Version".to_string(),
        "ss_version_test".to_string(),
        "Test version gauge".to_string(),
    );
    let event = base_event_with_type("OtherMetrics");
    let emitted = gauge.record(&event, &vec![]).expect("record should succeed");
    assert!(emitted.is_none(), "a mismatched type should emit nothing");
}

#[test]
fn elapsed_rate_gauge_rejects_zero_elapsed() {
    let mut gauge = ElapsedRateFDBGauge::new(
        "ProcessMetrics".to_string(),
        "CPUSeconds".to_string(),
        "process_cpu_util_test".to_string(),
        "CPU utilization".to_string(),
    );
    let mut event = base_event_with_type("ProcessMetrics");
    event.insert("CPUSeconds".to_string(), Some("10.0".to_string()));
    event.insert("Elapsed".to_string(), Some("0".to_string()));
    event.insert("Time".to_string(), Some("1.0".to_string()));
    let err = gauge
        .record(&event, &vec![])
        .expect_err("a zero elapsed time should error");
    assert!(err.message().contains("Elapsed"));
}

#[test]
fn counter_with_too_few_parts_is_malformed() {
    let gauge = TotalCounterFDBGauge::new(
        "StorageMetrics".to_string(),
        "BytesDurable".to_string(),
        "ss_bytes_durable_test".to_string(),
        "Total bytes durable".to_string(),
    );
    let mut event = base_event_with_type("StorageMetrics");
    event.insert("BytesDurable".to_string(), Some("1 2".to_string()));
    let err = gauge.record(&event).expect_err("two parts should be malformed");
    assert!(err.message().contains("Malformed BytesDurable counter"));
}

#[test]
fn rate_counter_with_too_few_parts_is_malformed() {
    let mut gauge = RateCounterFDBGauge::new(
        "ProxyMetrics".to_string(),
        "TxnCommitIn".to_string(),
        "cp_txn_commit_in_test".to_string(),
        "Txn commit rate".to_string(),
    );
    let mut event = base_event_with_type("ProxyMetrics");
    event.insert("TxnCommitIn".to_string(), Some("42".to_string()));
    event.insert("Time".to_string(), Some("1.0".to_string()));
    let err = gauge
        .record(&event, &vec![])
        .expect_err("fewer than three tokens must be a structured error");
    assert!(err.message().contains("Malformed TxnCommitIn counter"));
}
