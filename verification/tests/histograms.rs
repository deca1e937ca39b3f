use fdb_otel_exporter::histogram::{
    interpolate_exponential_percentile, HistogramBucket, HistogramEmit,
    HistogramPercentileFDBGauge, TailCase,
};
use fdb_otel_exporter::trace_event::TraceEvent;

fn bucket(upper_bound: u64, count: u64, cumulative: u64) -> HistogramBucket {
    HistogramBucket {
        lower_bound: upper_bound / 2,
        upper_bound,
        count,
        cumulative_count: cumulative,
    }
}

/// The exponential-tail solve the application layer performs on a
/// `TailCase`, used here as the test oracle.
fn solve_tail(t: &TailCase) -> f64 {
    let lower = t.lower as f64 / t.divisor as f64;
    let upper = t.upper as f64 / t.divisor as f64;
    let total = t.total as f64;
    let cumulative = t.cumulative as f64;
    let count = t.count as f64;
    let percentile = t.percentile as f64 / 1e9;
    let bucket_cdf = cumulative / total;
    let prev_cdf = (cumulative - count).max(0.0) / total;
    let bucket_mass = count / total;
    let lambda = if bucket_cdf >= 1.0 {
        if lower > 0.0 && prev_cdf < 1.0 {
            -((1.0 - prev_cdf).ln()) / lower
        } else {
            f64::INFINITY
        }
    } else {
        -((1.0 - bucket_cdf).ln()) / upper
    };
    if !lambda.is_finite() || lambda <= 0.0 {
        return upper;
    }
    let relative = ((percentile - prev_cdf) / bucket_mass).clamp(0.0, 1.0 - f64::EPSILON);
    let exp_lower = (-lambda * lower).exp();
    let exp_upper = (-lambda * upper).exp();
    let denom = exp_lower - exp_upper;
    if denom <= 0.0 {
        return upper;
    }
    let target = exp_lower - relative * denom;
    if target <= 0.0 {
        return upper;
    }
    let value = -target.ln() / lambda;
    if !value.is_finite() {
        return upper;
    }
    value.clamp(lower, upper)
}

fn emitted_value(e: &HistogramEmit) -> f64 {
    match e {
        HistogramEmit::Exact(f) => f.num as f64 / f.den as f64,
        HistogramEmit::Tail(t) => solve_tail(t),
    }
}

fn base_histogram_event() -> TraceEvent {
    let mut event = TraceEvent::new();
    event.insert("Type".to_string(), Some("Histogram".to_string()));
    event.insert("Group".to_string(), Some("StorageServer".to_string()));
    event.insert("Op".to_string(), Some("Read".to_string()));
    event
}

fn test_histogram_gauge() -> HistogramPercentileFDBGauge {
    HistogramPercentileFDBGauge::new(
        "StorageServer".to_string(),
        "Read".to_string(),
        500_000_000,
        "ss_read_latency_p50_test".to_string(),
        "Read latency".to_string(),
    )
}

#[test]
fn histogram_percentile_records_matching_histogram() {
    let gauge = test_histogram_gauge();
    let mut event = base_histogram_event();
    event.insert("Unit".to_string(), Some("milliseconds".to_string()));
    event.insert("TotalCount".to_string(), Some("10".to_string()));
    event.insert("LessThan1.0".to_string(), Some("4".to_string()));
    event.insert("LessThan2.0".to_string(), Some("6".to_string()));

    let emitted = gauge.record(&event).expect("record should succeed");
    assert!(emitted.is_some(), "a matching histogram should emit");
}

#[test]
fn histogram_percentile_skips_non_histogram_events() {
    let gauge = test_histogram_gauge();
    let mut event = TraceEvent::new();
    event.insert("Type".to_string(), Some("LatencyMetrics".to_string()));
    let emitted = gauge
        .record(&event)
        .expect("non-histogram events should be ignored");
    assert!(emitted.is_none());
}

#[test]
fn histogram_percentile_skips_when_group_differs() {
    let gauge = test_histogram_gauge();
    let mut event = base_histogram_event();
    event.insert("Group".to_string(), Some("OtherGroup".to_string()));
    event.insert("Unit".to_string(), Some("milliseconds".to_string()));
    event.insert("TotalCount".to_string(), Some("5".to_string()));
    let emitted = gauge
        .record(&event)
        .expect("events for other groups should be ignored");
    assert!(emitted.is_none());
}

#[test]
fn histogram_percentile_skips_when_op_differs() {
    let gauge = test_histogram_gauge();
    let mut event = base_histogram_event();
    event.insert("Op".to_string(), Some("Write".to_string()));
    event.insert("Unit".to_string(), Some("milliseconds".to_string()));
    event.insert("TotalCount".to_string(), Some("5".to_string()));
    let emitted = gauge
        .record(&event)
        .expect("events for other ops should be ignored");
    assert!(emitted.is_none());
}

#[test]
fn histogram_percentile_skips_unknown_units() {
    let gauge = test_histogram_gauge();
    let mut event = base_histogram_event();
    event.insert("Unit".to_string(), Some("seconds".to_string()));
    let emitted = gauge
        .record(&event)
        .expect("unknown histogram units should be ignored");
    assert!(emitted.is_none());
}

#[test]
fn histogram_percentile_skips_zero_total_count() {
    let gauge = test_histogram_gauge();
    let mut event = base_histogram_event();
    event.insert("Unit".to_string(), Some("milliseconds".to_string()));
    event.insert("TotalCount".to_string(), Some("0".to_string()));
    let emitted = gauge
        .record(&event)
        .expect("zero total count histograms should be ignored");
    assert!(emitted.is_none());
}

#[test]
fn histogram_percentile_skips_without_buckets() {
    let gauge = test_histogram_gauge();
    let mut event = base_histogram_event();
    event.insert("Unit".to_string(), Some("milliseconds".to_string()));
    event.insert("TotalCount".to_string(), Some("10".to_string()));
    let emitted = gauge
        .record(&event)
        .expect("histograms without buckets should be ignored");
    assert!(emitted.is_none());
}

#[test]
fn histogram_percentile_handles_missing_intermediate_buckets() {
    let gauge = test_histogram_gauge();
    let mut event = base_histogram_event();
    event.insert("Unit".to_string(), Some("milliseconds".to_string()));
    event.insert("TotalCount".to_string(), Some("8".to_string()));
    event.insert("LessThan1.0".to_string(), Some("3".to_string()));
    event.insert("LessThan8.0".to_string(), Some("5".to_string()));
    let emitted = gauge
        .record(&event)
        .expect("histograms with gaps should be interpolated");
    assert!(emitted.is_some());
}

#[test]
fn interpolates_percentile_within_bucket() {
    let buckets = vec![bucket(1_000, 50, 50), bucket(2_000, 50, 100)];
    let emitted = interpolate_exponential_percentile(&buckets, 100, 250_000_000, 1_000_000)
        .expect("percentile value");
    let value = emitted_value(&emitted);
    let expected = {
        let bucket_upper_seconds = 1_000f64 / 1_000_000.0;
        let lambda = -((1.0 - 0.5f64).ln()) / bucket_upper_seconds;
        let exp_lower = (-lambda * (bucket_upper_seconds / 2.0)).exp();
        let exp_upper = (-lambda * bucket_upper_seconds).exp();
        let target = exp_lower - 0.5 * (exp_lower - exp_upper);
        -target.ln() / lambda
    };
    assert!(
        (value - expected).abs() < 1e-12,
        "value {value} != {expected}"
    );
}

#[test]
fn interpolates_percentile_in_middle_bucket() {
    let buckets = vec![
        bucket(1_000, 50, 50),
        bucket(2_000, 30, 80),
        bucket(4_000, 20, 100),
    ];
    let emitted = interpolate_exponential_percentile(&buckets, 100, 600_000_000, 1_000_000)
        .expect("percentile value");
    let value = emitted_value(&emitted);

    let middle_bucket = buckets[1];
    let bucket_upper_seconds = middle_bucket.upper_bound as f64 / 1_000_000.0;
    let bucket_lower_seconds = middle_bucket.lower_bound as f64 / 1_000_000.0;
    let bucket_cdf = middle_bucket.cumulative_count as f64 / 100.0;
    let prev_cdf = buckets[0].cumulative_count as f64 / 100.0;
    let bucket_mass = middle_bucket.count as f64 / 100.0;

    let lambda = -((1.0 - bucket_cdf).ln()) / bucket_upper_seconds;
    let exp_lower = (-lambda * bucket_lower_seconds).exp();
    let exp_upper = (-lambda * bucket_upper_seconds).exp();
    let relative = ((0.6 - prev_cdf) / bucket_mass).clamp(0.0, 1.0 - f64::EPSILON);
    let target = exp_lower - relative * (exp_lower - exp_upper);
    let expected = -target.ln() / lambda;

    assert!(
        (value - expected).abs() < 1e-12,
        "value {value} != {expected}"
    );
}

#[test]
fn interpolates_percentile_in_last_bucket() {
    let buckets = vec![
        bucket(1_000, 50, 50),
        bucket(2_000, 30, 80),
        bucket(4_000, 20, 100),
    ];
    let emitted = interpolate_exponential_percentile(&buckets, 100, 950_000_000, 1_000_000)
        .expect("percentile value");
    let value = emitted_value(&emitted);

    let last_bucket = buckets[2];
    let bucket_upper_seconds = last_bucket.upper_bound as f64 / 1_000_000.0;
    let bucket_lower_seconds = last_bucket.lower_bound as f64 / 1_000_000.0;
    let bucket_cdf = last_bucket.cumulative_count as f64 / 100.0;
    let prev_cdf = buckets[1].cumulative_count as f64 / 100.0;
    let bucket_mass = last_bucket.count as f64 / 100.0;

    let lambda = if bucket_cdf >= 1.0 && bucket_lower_seconds > 0.0 && prev_cdf < 1.0 {
        -((1.0 - prev_cdf).ln()) / bucket_lower_seconds
    } else {
        -((1.0 - bucket_cdf).ln()) / bucket_upper_seconds
    };
    let exp_lower = (-lambda * bucket_lower_seconds).exp();
    let exp_upper = (-lambda * bucket_upper_seconds).exp();
    let relative = ((0.95 - prev_cdf) / bucket_mass).clamp(0.0, 1.0 - f64::EPSILON);
    let target = exp_lower - relative * (exp_lower - exp_upper);
    let expected = -target.ln() / lambda;

    assert!(
        (value - expected).abs() < 1e-12,
        "value {value} != {expected}"
    );
}

#[test]
fn clamps_to_bucket_lower_for_zero_percentile() {
    let buckets = vec![bucket(1_000, 50, 50), bucket(2_000, 50, 100)];
    let emitted = interpolate_exponential_percentile(&buckets, 100, 0, 1_000_000)
        .expect("percentile value");
    let value = emitted_value(&emitted);
    assert!((value - 0.0005).abs() < 1e-12);
    assert!(matches!(emitted, HistogramEmit::Exact(_)));
}

#[test]
fn returns_bucket_upper_for_full_percentile() {
    let buckets = vec![bucket(1_000, 50, 50), bucket(2_000, 50, 100)];
    let emitted = interpolate_exponential_percentile(&buckets, 100, 1_000_000_000, 1_000_000)
        .expect("percentile value");
    let value = emitted_value(&emitted);
    assert!((value - 0.002).abs() < 1e-12);
    assert!(matches!(emitted, HistogramEmit::Exact(_)));
}

#[test]
fn none_for_empty_input() {
    assert!(interpolate_exponential_percentile(&vec![], 0, 500_000_000, 1).is_none());
}

#[test]
fn interpolates_histogram_without_scaling_for_unit_one() {
    for &upper in &[128u64, 32u64] {
        let buckets = vec![bucket(upper, 50, 50), bucket(upper * 2, 50, 100)];
        let emitted = interpolate_exponential_percentile(&buckets, 100, 250_000_000, 1)
            .expect("percentile value");
        let value = emitted_value(&emitted);

        let bucket_upper = upper as f64;
        let lambda = -((1.0 - 0.5f64).ln()) / bucket_upper;
        let exp_lower = (-lambda * (bucket_upper / 2.0)).exp();
        let exp_upper = (-lambda * bucket_upper).exp();
        let target = exp_lower - 0.5 * (exp_lower - exp_upper);
        let expected = -target.ln() / lambda;

        assert!(
            (value - expected).abs() < 1e-12,
            "upper {upper} value {value} != {expected}"
        );
    }
}

#[test]
fn emitted_percentiles_are_monotone_across_buckets() {
    let buckets = vec![
        bucket(1_000, 50, 50),
        bucket(2_000, 30, 80),
        bucket(4_000, 20, 100),
    ];
    let mut previous = f64::NEG_INFINITY;
    for p in [0i64, 100_000_000, 250_000_000, 500_000_000, 600_000_000, 800_000_000,
        950_000_000, 1_000_000_000]
    {
        let emitted = interpolate_exponential_percentile(&buckets, 100, p, 1_000_000)
            .expect("percentile value");
        let value = emitted_value(&emitted);
        assert!(
            value >= previous - 1e-12,
            "percentile {p} emitted {value} below {previous}"
        );
        previous = value;
    }
}

#[test]
fn synthetic_exponential_distribution_is_recovered() {
    // Counts drawn from an exponential distribution with rate 0.25 over
    // doubling buckets; for p = 1 - exp(-rate * x) the emitted value must
    // come back within the width of the bucket holding x.
    let rate = 0.25f64;
    let uppers = [1u64, 2, 4, 8, 16, 32, 64];
    let total = 1_000_000u64;
    let mut buckets = Vec::new();
    let mut cumulative = 0u64;
    let mut prev_cdf = 0.0f64;
    for (i, &u) in uppers.iter().enumerate() {
        let cdf = if i == uppers.len() - 1 {
            1.0
        } else {
            1.0 - (-rate * u as f64).exp()
        };
        let count = ((cdf - prev_cdf) * total as f64).round() as u64;
        cumulative += count;
        buckets.push(HistogramBucket {
            lower_bound: u / 2,
            upper_bound: u,
            count,
            cumulative_count: cumulative,
        });
        prev_cdf = cdf;
    }
    let x = 3.0f64;
    let p = ((1.0 - (-rate * x).exp()) * 1e9) as i64;
    let emitted = interpolate_exponential_percentile(&buckets, cumulative, p, 1)
        .expect("percentile value");
    let value = emitted_value(&emitted);
    // x = 3 lies in the bucket (2, 4]; same-bucket-width tolerance.
    assert!(
        (value - x).abs() <= 2.0,
        "expected roughly {x}, got {value}"
    );
}

#[test]
fn non_string_bucket_values_are_rejected() {
    let gauge = test_histogram_gauge();
    let line = "{\"Type\":\"Histogram\",\"Group\":\"StorageServer\",\"Op\":\"Read\",\"Unit\":\"milliseconds\",\"TotalCount\":\"10\",\"LessThan1.0\":4}";
    let event = fdb_otel_exporter::trace_event::parse_trace_event(line).expect("valid JSON");
    let err = gauge.record(&event).expect_err("a numeric bucket value must fail");
    assert_eq!(err.message(), "Trace event values should be strings");
}

#[test]
fn unparseable_total_count_is_rejected() {
    let gauge = test_histogram_gauge();
    let mut event = base_histogram_event();
    event.insert("Unit".to_string(), Some("milliseconds".to_string()));
    event.insert("TotalCount".to_string(), Some("many".to_string()));
    let err = gauge.record(&event).expect_err("a non-numeric total must fail");
    assert!(err.message().contains("TotalCount"));
}
