use fdb_otel_exporter::gauge_config::{build_registry, parse_gauge_config};
use fdb_otel_exporter::log_metrics::{EmitValue, LogMetrics, Recorder};
use fdb_otel_exporter::fdb_gauge::TotalCounterFDBGauge;
use fdb_otel_exporter::histogram::TailCase;
use fdb_otel_exporter::trace_event::TraceEvent;

fn event_with(fields: &[(&str, &str)]) -> TraceEvent {
    let mut ev = TraceEvent::new();
    for (k, v) in fields {
        ev.insert(k.to_string(), Some(v.to_string()));
    }
    ev
}

fn gauge_value(v: &EmitValue) -> f64 {
    match v {
        EmitValue::Gauge(f) => f.num as f64 / f.den as f64,
        EmitValue::Percentile(t) => solve_tail(t),
        EmitValue::Increment => panic!("expected a gauge value, got an increment"),
    }
}

fn solve_tail(t: &TailCase) -> f64 {
    let lower = t.lower as f64 / t.divisor as f64;
    let upper = t.upper as f64 / t.divisor as f64;
    let total = t.total as f64;
    let cumulative = t.cumulative as f64;
    let count = t.count as f64;
    let percentile = t.percentile as f64 / 1e9;
    let bucket_cdf = cumulative / total;
    let prev_cdf = (cumulative - count).max(0.0) / total;
    let bucket_mass = count / total;
    let lambda = if bucket_cdf >= 1.0 {
        if lower > 0.0 && prev_cdf < 1.0 {
            -((1.0 - prev_cdf).ln()) / lower
        } else {
            f64::INFINITY
        }
    } else {
        -((1.0 - bucket_cdf).ln()) / upper
    };
    if !lambda.is_finite() || lambda <= 0.0 {
        return upper;
    }
    let relative = ((percentile - prev_cdf) / bucket_mass).clamp(0.0, 1.0 - f64::EPSILON);
    let exp_lower = (-lambda * lower).exp();
    let exp_upper = (-lambda * upper).exp();
    let denom = exp_lower - exp_upper;
    if denom <= 0.0 {
        return upper;
    }
    let target = exp_lower - relative * denom;
    if target <= 0.0 {
        return upper;
    }
    let value = -target.ln() / lambda;
    if !value.is_finite() {
        return upper;
    }
    value.clamp(lower, upper)
}

fn registry_from(config: &str) -> LogMetrics {
    let defs = parse_gauge_config(config).expect("config should parse");
    build_registry(defs)
}

#[test]
fn record_requires_machine_field() {
    let mut metrics = LogMetrics::from_metrics(vec![Recorder::CounterTotal(
        TotalCounterFDBGauge::new(
            "StorageMetrics".to_string(),
            "BytesInput".to_string(),
            "ss_bytes_input".to_string(),
            "Bytes input".to_string(),
        ),
    )]);
    let event = event_with(&[("Type", "StorageMetrics")]);
    let outcome = metrics.record(&event);
    let err = outcome.error.expect("machine required");
    assert!(
        err.message().contains("Machine"),
        "unexpected error message: {}",
        err.message()
    );
    assert!(outcome.emissions.is_empty(), "gauge should not be called");
}

#[test]
fn record_invokes_gauges_with_machine_label() {
    let mut metrics = LogMetrics::from_metrics(vec![Recorder::CounterTotal(
        TotalCounterFDBGauge::new(
            "StorageMetrics".to_string(),
            "BytesInput".to_string(),
            "ss_bytes_input".to_string(),
            "Bytes input".to_string(),
        ),
    )]);
    let event = event_with(&[
        ("Machine", "10.0.0.1"),
        ("Type", "StorageMetrics"),
        ("BytesInput", "0 0 0"),
    ]);
    let outcome = metrics.record(&event);
    assert!(outcome.error.is_none(), "record should succeed");
    assert_eq!(outcome.emissions.len(), 1);
    let labels = &outcome.emissions[0].labels;
    assert!(
        labels
            .iter()
            .any(|kv| kv.0 == "machine" && kv.1 == "10.0.0.1"),
        "expected machine label, got {labels:?}"
    );
}

#[test]
fn simple_gauge_end_to_end() {
    let mut metrics = registry_from(
        "[[simple_gauge]]\ntrace_type = \"StorageMetrics\"\ngauge_name = \"ss_version\"\nfield_name = \"Version\"\ndescription = \"Version\"\n",
    );
    let event = event_with(&[
        ("Machine", "h1"),
        ("Type", "StorageMetrics"),
        ("Version", "123"),
        ("Time", "1.0"),
    ]);
    let outcome = metrics.record(&event);
    // The gauge emits first; the built-in severity counters then fail on
    // the missing Severity field, which ends the dispatch, as the watcher
    // expects and logs.
    let err = outcome.error.expect("severity counters need a Severity field");
    assert!(err.message().contains("Severity"));
    assert_eq!(outcome.emissions.len(), 1);
    assert_eq!(outcome.emissions[0].metric, 0);
    assert_eq!(gauge_value(&outcome.emissions[0].value), 123.0);
    assert!(outcome.emissions[0]
        .labels
        .iter()
        .any(|kv| kv.0 == "machine" && kv.1 == "h1"));
}

#[test]
fn total_counter_end_to_end() {
    let mut metrics = registry_from(
        "[[counter_total_gauge]]\ntrace_type = \"StorageMetrics\"\ngauge_name = \"ss_bytes_durable\"\nfield_name = \"BytesDurable\"\ndescription = \"Durable bytes\"\n",
    );
    let event = event_with(&[
        ("Machine", "h1"),
        ("Type", "StorageMetrics"),
        ("BytesDurable", "1 2 3"),
    ]);
    let outcome = metrics.record(&event);
    assert!(outcome.error.is_some(), "the severity counters lack a Severity field");
    assert_eq!(outcome.emissions.len(), 1);
    assert_eq!(gauge_value(&outcome.emissions[0].value), 3.0);
}

#[test]
fn rate_gauge_smooths_over_window_end_to_end() {
    let mut metrics = registry_from(
        "[[counter_rate_gauge]]\ntrace_type = \"ProxyMetrics\"\ngauge_name = \"cp_txn_commit_in\"\nfield_name = \"TxnCommitIn\"\ndescription = \"Commit rate\"\n",
    );
    let feeds = [
        ("10 0 0", "100.0"),
        ("20 0 0", "105.0"),
        ("30 0 0", "110.0"),
    ];
    let mut last = 0.0;
    for (value, time) in feeds {
        let event = event_with(&[
            ("Machine", "h1"),
            ("Type", "ProxyMetrics"),
            ("TxnCommitIn", value),
            ("Time", time),
        ]);
        let outcome = metrics.record(&event);
        last = gauge_value(&outcome.emissions[0].value);
    }
    assert_eq!(last, 20.0, "mean of 10, 20, 30");

    let event = event_with(&[
        ("Machine", "h1"),
        ("Type", "ProxyMetrics"),
        ("TxnCommitIn", "40 0 0"),
        ("Time", "120.0"),
    ]);
    let outcome = metrics.record(&event);
    let value = gauge_value(&outcome.emissions[0].value);
    assert_eq!(value, 30.0, "the sample at time 100 leaves the window");
}

#[test]
fn histogram_percentiles_end_to_end() {
    let mut metrics = registry_from(
        "[[histogram_percentile_gauge]]\ngroup = \"StorageServer\"\nop = \"Read\"\npercentiles = [0.5, 0.99]\ngauge_name = \"ss_read_latency_seconds\"\ndescription = \"Read latency\"\n",
    );
    // Two histogram recorders, then the four severity counters.
    assert_eq!(metrics.metrics.len(), 6);
    match &metrics.metrics[0] {
        Recorder::HistogramPercentile(g) => {
            assert_eq!(g.gauge_name, "ss_read_latency_seconds_p50");
        }
        _ => panic!("expected a histogram recorder"),
    }
    match &metrics.metrics[1] {
        Recorder::HistogramPercentile(g) => {
            assert_eq!(g.gauge_name, "ss_read_latency_seconds_p99");
        }
        _ => panic!("expected a histogram recorder"),
    }

    let event = event_with(&[
        ("Machine", "h1"),
        ("Type", "Histogram"),
        ("Group", "StorageServer"),
        ("Op", "Read"),
        ("Unit", "milliseconds"),
        ("TotalCount", "100"),
        ("LessThan1.0", "50"),
        ("LessThan2.0", "100"),
    ]);
    let outcome = metrics.record(&event);
    assert_eq!(outcome.emissions.len(), 2, "both percentile gauges emit");
    let p50 = gauge_value(&outcome.emissions[0].value);
    assert!(
        (p50 - 0.001).abs() < 1e-6,
        "p50 must sit at the first bucket's upper bound in seconds, got {p50}"
    );
}

#[test]
fn slow_task_threshold_end_to_end() {
    let mut metrics = LogMetrics::from_metrics(vec![Recorder::SlowTask(
        fdb_otel_exporter::fdb_counter::SlowTaskCounter::new(100),
    )]);
    let slow = event_with(&[
        ("Machine", "h1"),
        ("Type", "SlowTask"),
        ("Duration", "0.150"),
    ]);
    let outcome = metrics.record(&slow);
    assert!(outcome.error.is_none());
    assert_eq!(outcome.emissions.len(), 1);
    assert!(matches!(outcome.emissions[0].value, EmitValue::Increment));

    let fast = event_with(&[
        ("Machine", "h1"),
        ("Type", "SlowTask"),
        ("Duration", "0.050"),
    ]);
    let outcome = metrics.record(&fast);
    assert!(outcome.error.is_none());
    assert!(outcome.emissions.is_empty(), "a fast task must not count");
}

#[test]
fn severity_counters_count_matching_events() {
    let mut metrics = registry_from(
        "[[simple_gauge]]\ntrace_type = \"StorageMetrics\"\ngauge_name = \"ss_version\"\nfield_name = \"Version\"\ndescription = \"Version\"\n",
    );
    // One configured gauge, then severities 10, 20, 30, 40.
    let event = event_with(&[("Machine", "h1"), ("Type", "Other"), ("Severity", "30")]);
    let outcome = metrics.record(&event);
    assert!(outcome.error.is_none());
    assert_eq!(outcome.emissions.len(), 1, "only sev30 advances");
    assert_eq!(outcome.emissions[0].metric, 3, "sev30 is the third counter");
    assert!(matches!(outcome.emissions[0].value, EmitValue::Increment));

    let event = event_with(&[("Machine", "h1"), ("Type", "Other"), ("Severity", "20")]);
    let outcome = metrics.record(&event);
    assert!(outcome.error.is_none());
    assert_eq!(outcome.emissions.len(), 1, "sev30 unchanged, sev20 increments");
    assert_eq!(outcome.emissions[0].metric, 2);
}

#[test]
fn unmatched_event_is_dispatched_without_error() {
    let mut metrics = registry_from(
        "[[simple_gauge]]\ntrace_type = \"StorageMetrics\"\ngauge_name = \"ss_version\"\nfield_name = \"Version\"\ndescription = \"Version\"\n",
    );
    let event = event_with(&[("Machine", "h1"), ("Type", "Other"), ("Severity", "50")]);
    let outcome = metrics.record(&event);
    assert!(outcome.error.is_none(), "no matching recorder is still success");
    assert!(outcome.emissions.is_empty(), "nothing is emitted");
}

#[test]
fn registry_stops_at_first_recorder_error() {
    let mut metrics = registry_from(
        "[[simple_gauge]]\ntrace_type = \"StorageMetrics\"\ngauge_name = \"ss_version\"\nfield_name = \"Version\"\ndescription = \"Version\"\n",
    );
    // Matching type but missing the Version field: the gauge fails and the
    // severity counters after it are not reached.
    let event = event_with(&[("Machine", "h1"), ("Type", "StorageMetrics"), ("Severity", "10")]);
    let outcome = metrics.record(&event);
    let err = outcome.error.expect("the gauge must fail");
    assert!(err.message().contains("Version"));
    assert!(outcome.emissions.is_empty());
}
