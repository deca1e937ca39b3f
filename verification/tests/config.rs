use fdb_otel_exporter::gauge_config::{
    parse_gauge_config, percentile_suffix, render_gauge_config, GaugeDefinition, GaugeType,
};

#[test]
fn parses_standard_gauges() {
    let contents = "\n[[simple_gauge]]\ntrace_type = \"StorageMetrics\"\ngauge_name = \"ss_version\"\nfield_name = \"Version\"\ndescription = \"Storage server version\"\n\n[[counter_total_gauge]]\ntrace_type = \"StorageMetrics\"\ngauge_name = \"ss_bytes_durable\"\nfield_name = \"BytesDurable\"\ndescription = \"Durable bytes\"\n\n[[elapsed_rate_gauge]]\ntrace_type = \"ProxyMetrics\"\ngauge_name = \"cp_cpu_util\"\nfield_name = \"CPUSeconds\"\ndescription = \"Commit proxy CPU utilization\"\n";

    let gauges = parse_gauge_config(contents).expect("standard gauges should parse successfully");
    assert_eq!(gauges.len(), 3, "unexpected number of gauges");

    let simple = gauges
        .iter()
        .find_map(|g| match g {
            GaugeDefinition::Simple(def) => Some(def),
            _ => None,
        })
        .expect("expected simple gauge definition");
    assert_eq!(simple.trace_type, "StorageMetrics");
    assert_eq!(simple.gauge_name, "ss_version");
    assert_eq!(simple.field_name, "Version");
    assert_eq!(simple.description, "Storage server version");

    let counter_total = gauges
        .iter()
        .find_map(|g| match g {
            GaugeDefinition::CounterTotal(def) => Some(def),
            _ => None,
        })
        .expect("expected counter total gauge definition");
    assert_eq!(counter_total.trace_type, "StorageMetrics");
    assert_eq!(counter_total.gauge_name, "ss_bytes_durable");
    assert_eq!(counter_total.field_name, "BytesDurable");

    let elapsed_rate = gauges
        .iter()
        .find_map(|g| match g {
            GaugeDefinition::ElapsedRate(def) => Some(def),
            _ => None,
        })
        .expect("expected elapsed rate gauge definition");
    assert_eq!(elapsed_rate.trace_type, "ProxyMetrics");
    assert_eq!(elapsed_rate.field_name, "CPUSeconds");
}

#[test]
fn expands_histogram_percentiles_with_suffixes() {
    let contents = "\n[[histogram_percentile_gauge]]\ngroup = \"StorageServer\"\nop = \"Read\"\npercentiles = [0.5, 0.99]\ngauge_name = \"ss_read_latency_seconds\"\ndescription = \"Read latency\"\n";

    let gauges = parse_gauge_config(contents).expect("histogram gauges should parse successfully");

    assert_eq!(gauges.len(), 2, "expected gauges for two percentiles");

    match &gauges[0] {
        GaugeDefinition::HistogramPercentile(def) => {
            assert_eq!(def.group, "StorageServer");
            assert_eq!(def.op, "Read");
            assert_eq!(def.percentile, 500_000_000);
            assert_eq!(def.gauge_name, "ss_read_latency_seconds_p50");
            assert_eq!(def.description, "Read latency (p50)");
        }
        other => panic!("expected histogram gauge, got {other:?}"),
    }

    match &gauges[1] {
        GaugeDefinition::HistogramPercentile(def) => {
            assert_eq!(def.percentile, 990_000_000);
            assert_eq!(def.gauge_name, "ss_read_latency_seconds_p99");
        }
        other => panic!("expected histogram gauge, got {other:?}"),
    }
}

#[test]
fn errors_when_no_recognized_sections() {
    let contents = "\n[unrelated]\nvalue = 1\n";
    let error = parse_gauge_config(contents).expect_err("should error without known sections");
    let message = error.message();
    assert!(
        message.contains("did not contain any recognized sections"),
        "unexpected error message: {message}"
    );
}

#[test]
fn rejects_invalid_percentiles() {
    let contents = "\n[[histogram_percentile_gauge]]\ngroup = \"StorageServer\"\nop = \"Read\"\npercentiles = [1.5]\ngauge_name = \"ss_read_latency_seconds\"\ndescription = \"Read latency\"\n";
    let error = parse_gauge_config(contents).expect_err("should reject invalid percentile");
    let message = error.message();
    assert!(
        message.contains("between 0.0 and 1.0"),
        "unexpected error chain: {message}"
    );
}

#[test]
fn percentile_suffix_formats_values() {
    assert_eq!(percentile_suffix(500_000_000), "p50");
    assert_eq!(percentile_suffix(995_000_000), "p99_5");
    assert_eq!(percentile_suffix(123_000), "p0_0123");
}

#[test]
fn empty_config_yields_no_recorders() {
    let gauges = parse_gauge_config("").expect("an empty file is accepted");
    assert!(gauges.is_empty());
    let gauges = parse_gauge_config(" \n\t \n").expect("a blank file is accepted");
    assert!(gauges.is_empty());
}

#[test]
fn single_percentile_keeps_name_verbatim() {
    let contents = "[[histogram_percentile_gauge]]\ngroup = \"G\"\nop = \"O\"\npercentiles = [0.5]\ngauge_name = \"latency\"\ndescription = \"Latency\"\n";
    let gauges = parse_gauge_config(contents).expect("should parse");
    assert_eq!(gauges.len(), 1);
    match &gauges[0] {
        GaugeDefinition::HistogramPercentile(def) => {
            assert_eq!(def.gauge_name, "latency");
            assert_eq!(def.description, "Latency");
        }
        other => panic!("expected histogram gauge, got {other:?}"),
    }
}

#[test]
fn empty_percentiles_list_is_rejected() {
    let contents = "[[histogram_percentile_gauge]]\ngroup = \"G\"\nop = \"O\"\npercentiles = []\ngauge_name = \"latency\"\ndescription = \"Latency\"\n";
    let error = parse_gauge_config(contents).expect_err("empty percentiles should fail");
    assert!(error.message().contains("percentiles list cannot be empty"));
}

#[test]
fn missing_field_is_rejected() {
    let contents = "[[simple_gauge]]\ntrace_type = \"StorageMetrics\"\ngauge_name = \"ss_version\"\ndescription = \"Storage server version\"\n";
    let error = parse_gauge_config(contents).expect_err("missing field_name should fail");
    assert!(error.message().contains("field_name"));
}

#[test]
fn comments_and_blank_lines_are_skipped() {
    let contents = "# leading comment\n\n[[counter_rate_gauge]]\n# entry comment\ntrace_type = \"ProxyMetrics\"\ngauge_name = \"cp_txn\"\nfield_name = \"TxnCommitIn\"\ndescription = \"Commit rate\"\n";
    let gauges = parse_gauge_config(contents).expect("comments should be ignored");
    assert_eq!(gauges.len(), 1);
    assert!(matches!(gauges[0], GaugeDefinition::CounterRate(_)));
}

#[test]
fn section_names_map_to_gauge_types() {
    assert!(matches!(
        GaugeType::from_section_name("simple_gauge"),
        Some(GaugeType::Simple)
    ));
    assert!(matches!(
        GaugeType::from_section_name("counter_total_gauge"),
        Some(GaugeType::CounterTotal)
    ));
    assert!(matches!(
        GaugeType::from_section_name("counter_rate_gauge"),
        Some(GaugeType::CounterRate)
    ));
    assert!(matches!(
        GaugeType::from_section_name("elapsed_rate_gauge"),
        Some(GaugeType::ElapsedRate)
    ));
    assert!(GaugeType::from_section_name("histogram_percentile_gauge").is_none());
    assert!(GaugeType::from_section_name("unrelated").is_none());
}

fn defs_equal(a: &GaugeDefinition, b: &GaugeDefinition) -> bool {
    match (a, b) {
        (GaugeDefinition::Simple(x), GaugeDefinition::Simple(y))
        | (GaugeDefinition::CounterTotal(x), GaugeDefinition::CounterTotal(y))
        | (GaugeDefinition::CounterRate(x), GaugeDefinition::CounterRate(y))
        | (GaugeDefinition::ElapsedRate(x), GaugeDefinition::ElapsedRate(y)) => {
            x.trace_type == y.trace_type
                && x.gauge_name == y.gauge_name
                && x.field_name == y.field_name
                && x.description == y.description
        }
        (
            GaugeDefinition::HistogramPercentile(x),
            GaugeDefinition::HistogramPercentile(y),
        ) => {
            x.group == y.group
                && x.op == y.op
                && x.percentile == y.percentile
                && x.gauge_name == y.gauge_name
                && x.description == y.description
        }
        _ => false,
    }
}

#[test]
fn normalised_config_round_trips_through_write_then_read() {
    let contents = "[[counter_rate_gauge]]\ntrace_type = \"ProxyMetrics\"\ngauge_name = \"cp_txn\"\nfield_name = \"TxnCommitIn\"\ndescription = \"Commit rate\"\n\n[[histogram_percentile_gauge]]\ngroup = \"StorageServer\"\nop = \"Read\"\npercentiles = [0.5, 0.995]\ngauge_name = \"ss_read_latency_seconds\"\ndescription = \"Read latency\"\n\n[[simple_gauge]]\ntrace_type = \"StorageMetrics\"\ngauge_name = \"ss_version\"\nfield_name = \"Version\"\ndescription = \"Version\"\n";
    let defs = parse_gauge_config(contents).expect("config should parse");
    let written = render_gauge_config(&defs);
    let reread = parse_gauge_config(&written).expect("the rendered config should parse");
    assert_eq!(defs.len(), reread.len(), "round trip must keep every definition");
    for (a, b) in defs.iter().zip(reread.iter()) {
        assert!(defs_equal(a, b), "round trip changed a definition");
    }
}

#[test]
fn unreadable_lines_are_malformed() {
    let contents = "[[simple_gauge]]\nthis line has no assignment\n";
    let error = parse_gauge_config(contents).expect_err("a stray line must fail");
    assert!(error.message().contains("malformed gauge config line"));
}

#[test]
fn recognised_plain_table_is_rejected() {
    let contents = "[simple_gauge]\ntrace_type = \"StorageMetrics\"\n";
    let error = parse_gauge_config(contents).expect_err("a plain table must fail");
    assert!(error.message().contains("section to be an array"));
}

#[test]
fn unrecognised_sections_are_skipped_whatever_their_values() {
    let contents = "[unrelated]\nflag = true\nnested = { a = 1 }\nnote = \"with \\\\ escape\"\n\n[[simple_gauge]]\ntrace_type = \"StorageMetrics\"\ngauge_name = \"ss_version\"\nfield_name = \"Version\"\ndescription = \"Version\"\n";
    let gauges = parse_gauge_config(contents).expect("unread values in skipped sections are fine");
    assert_eq!(gauges.len(), 1);
    assert!(matches!(gauges[0], GaugeDefinition::Simple(_)));
}

#[test]
fn repeated_sections_group_their_entries() {
    let contents = "[[simple_gauge]]\ntrace_type = \"A\"\ngauge_name = \"a\"\nfield_name = \"F\"\ndescription = \"d\"\n\n[[counter_total_gauge]]\ntrace_type = \"B\"\ngauge_name = \"b\"\nfield_name = \"G\"\ndescription = \"d\"\n\n[[simple_gauge]]\ntrace_type = \"C\"\ngauge_name = \"c\"\nfield_name = \"H\"\ndescription = \"d\"\n";
    let gauges = parse_gauge_config(contents).expect("should parse");
    assert_eq!(gauges.len(), 3);
    // Sections appear in file order; repeated sections pool their entries.
    match (&gauges[0], &gauges[1], &gauges[2]) {
        (
            GaugeDefinition::Simple(a),
            GaugeDefinition::Simple(c),
            GaugeDefinition::CounterTotal(b),
        ) => {
            assert_eq!(a.gauge_name, "a");
            assert_eq!(c.gauge_name, "c");
            assert_eq!(b.gauge_name, "b");
        }
        other => panic!("unexpected grouping: {other:?}"),
    }
}
