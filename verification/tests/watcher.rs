use fdb_otel_exporter::fdb_gauge::TotalCounterFDBGauge;
use fdb_otel_exporter::log_metrics::{LogMetrics, Recorder};
use fdb_otel_exporter::watch_logs::{
    handle_log_line, should_tail_file, tailer_action, LineOutcome, TailedFiles, TailerAction,
    TailerEvent,
};

#[test]
fn should_tail_file_filters_trace_logs() {
    assert!(should_tail_file("trace.1.json"));
    assert!(should_tail_file("trace.some_process.json"));
    assert!(!should_tail_file("trace.1.xml"));
    assert!(!should_tail_file("random.log"));
    assert!(!should_tail_file("tracejson"));
}

#[test]
fn watcher_spawns_each_file_once() {
    let mut tailed = TailedFiles::new();
    let first_scan = vec![
        "trace.1.json".to_string(),
        "ignored.log".to_string(),
        "trace.2.json".to_string(),
    ];
    let spawned = tailed.select_new_files(&first_scan);
    assert_eq!(spawned, vec!["trace.1.json".to_string(), "trace.2.json".to_string()]);

    // The same files again, plus a new one: only the new one is spawned.
    let second_scan = vec![
        "trace.1.json".to_string(),
        "trace.2.json".to_string(),
        "trace.3.json".to_string(),
    ];
    let spawned = tailed.select_new_files(&second_scan);
    assert_eq!(spawned, vec!["trace.3.json".to_string()]);

    // A third scan with nothing new spawns nothing.
    let spawned = tailed.select_new_files(&second_scan);
    assert!(spawned.is_empty());
}

#[test]
fn duplicate_entries_in_one_scan_spawn_once() {
    let mut tailed = TailedFiles::new();
    let scan = vec!["trace.7.json".to_string(), "trace.7.json".to_string()];
    let spawned = tailed.select_new_files(&scan);
    assert_eq!(spawned.len(), 1);
}

#[test]
fn tailer_policy_matches_spec() {
    assert!(matches!(
        tailer_action(&TailerEvent::OpenFailed),
        TailerAction::SleepAndReopen(1000)
    ));
    assert!(matches!(
        tailer_action(&TailerEvent::SeekFailed),
        TailerAction::SleepAndReopen(1000)
    ));
    assert!(matches!(
        tailer_action(&TailerEvent::ReadEof),
        TailerAction::SleepAndRead(250)
    ));
    assert!(matches!(
        tailer_action(&TailerEvent::ReadLine),
        TailerAction::HandleLine
    ));
    // A failed read reopens the file rather than crashing the tailer.
    assert!(matches!(
        tailer_action(&TailerEvent::ReadFailed),
        TailerAction::SleepAndReopen(1000)
    ));
}

fn test_registry() -> LogMetrics {
    LogMetrics::from_metrics(vec![Recorder::CounterTotal(TotalCounterFDBGauge::new(
        "TestTrace".to_string(),
        "Bytes".to_string(),
        "test_bytes".to_string(),
        "Bytes".to_string(),
    ))])
}

#[test]
fn handle_log_line_records_trace_events() {
    let mut metrics = test_registry();
    let payload =
        "{\"Machine\":\"machine-01\",\"Roles\":\"storage\",\"Type\":\"TestTrace\",\"Bytes\":\"1 2 3\"}";
    let outcome = handle_log_line(payload, &mut metrics);
    match outcome {
        LineOutcome::Recorded(out) => {
            assert!(out.error.is_none());
            assert_eq!(
                out.emissions.len(),
                1,
                "expected exactly one trace event to be recorded"
            );
            assert!(out.emissions[0]
                .labels
                .iter()
                .any(|kv| kv.0 == "Roles" && kv.1 == "storage"));
        }
        _ => panic!("expected a recorded line"),
    }
}

#[test]
fn handle_log_line_counts_parse_failures() {
    let mut metrics = test_registry();
    let outcome = handle_log_line("not json", &mut metrics);
    assert!(matches!(outcome, LineOutcome::ParseFailed));
}

#[test]
fn handle_log_line_skips_blank_lines() {
    let mut metrics = test_registry();
    let outcome = handle_log_line("", &mut metrics);
    assert!(matches!(outcome, LineOutcome::Blank));
}

#[test]
fn handle_log_line_reports_recorder_errors() {
    let mut metrics = test_registry();
    let payload = "{\"Type\":\"TestTrace\"}";
    let outcome = handle_log_line(payload, &mut metrics);
    match outcome {
        LineOutcome::Recorded(out) => {
            let err = out.error.expect("missing machine must fail");
            assert!(err.message().contains("Machine"));
        }
        _ => panic!("expected a recorded line"),
    }
}

#[test]
fn non_string_json_fields_behave_as_missing() {
    let mut metrics = test_registry();
    // Machine is a number, not a string: dispatch must reject the event.
    let payload = "{\"Machine\":7,\"Type\":\"TestTrace\"}";
    let outcome = handle_log_line(payload, &mut metrics);
    match outcome {
        LineOutcome::Recorded(out) => {
            let err = out.error.expect("a non-string machine must fail");
            assert!(err.message().contains("Machine"));
        }
        _ => panic!("expected a recorded line"),
    }
}
