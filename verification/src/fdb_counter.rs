//! Counter recorders: per-severity event counters and the slow-task
//! counter.

use vstd::prelude::*;
use crate::errors::RecordError;
use crate::numbers::{dec_digits_of, fp_value_of, parse_fp, parse_u64, u64_to_string, u64_value_of};
use crate::text::str_eq;
use crate::trace_event::{field_str, TraceEvent};

verus! {

/// Counts events whose `Severity` field equals one configured severity.
pub struct SevCounter {
    pub severity: u64,
    pub counter_name: String,
    pub description: String,
}

/// What `SevCounter::record` does: require a string `Severity` that parses
/// as an unsigned integer, and count the event exactly when it equals the
/// configured severity.
pub open spec fn sev_record_spec(
    pre: SevCounter,
    ev: Map<Seq<char>, Option<Seq<char>>>,
    r: Result<bool, RecordError>,
) -> bool {
    let sv = field_str(ev, "Severity"@);
    if !ev.contains_key("Severity"@) {
        r matches Err(RecordError::MissingField(f)) && f@ == "Severity"@
    } else if sv is None {
        r matches Err(RecordError::InvalidField(f)) && f@ == "Severity"@
    } else if u64_value_of(sv.unwrap()) is None {
        r matches Err(RecordError::InvalidField(f)) && f@ == "Severity"@
    } else {
        r == Result::<bool, RecordError>::Ok(u64_value_of(sv.unwrap()) == Some(pre.severity as int))
    }
}

impl SevCounter {
    /// The counter is named `process_sev{severity}_counter`.
    pub fn new(severity: u64) -> (r: SevCounter)
        ensures
            r.severity == severity,
            r.counter_name@ == "process_sev"@ + dec_digits_of(severity as nat) + "_counter"@,
            r.description@ == "Counter of severity "@ + dec_digits_of(severity as nat)
                + " trace events"@,
    {
        let digits = u64_to_string(severity);
        let counter_name = String::from_str("process_sev").concat(digits.as_str()).concat(
            "_counter",
        );
        let description = String::from_str("Counter of severity ").concat(digits.as_str()).concat(
            " trace events",
        );
        SevCounter { severity, counter_name, description }
    }

    /// Record one event: `Ok(true)` exactly when the counter advances.
    pub fn record(&self, event: &TraceEvent) -> (r: Result<bool, RecordError>)
        requires
            event.wf(),
        ensures
            sev_record_spec(*self, event@, r),
    {
        if !event.has_field("Severity") {
            return Err(RecordError::MissingField(String::from_str("Severity")));
        }
        let text = match event.get_str("Severity") {
            Some(t) => t,
            None => {
                return Err(RecordError::InvalidField(String::from_str("Severity")));
            },
        };
        match parse_u64(text.as_str()) {
            Some(v) => Ok(v == self.severity),
            None => Err(RecordError::InvalidField(String::from_str("Severity"))),
        }
    }
}

/// Counts `SlowTask` events whose `Duration` (seconds) exceeds a
/// configured threshold in milliseconds.
pub struct SlowTaskCounter {
    pub threshold_ms: u64,
    pub counter_name: String,
    pub description: String,
}

/// What `SlowTaskCounter::record` does: require a string `Type`; pass
/// other event types; for `SlowTask` events require a decimal `Duration`
/// and count the event exactly when the duration exceeds the threshold.
pub open spec fn slow_task_record_spec(
    pre: SlowTaskCounter,
    ev: Map<Seq<char>, Option<Seq<char>>>,
    r: Result<bool, RecordError>,
) -> bool {
    let ty = field_str(ev, "Type"@);
    let dur = field_str(ev, "Duration"@);
    if !ev.contains_key("Type"@) {
        r matches Err(RecordError::MissingField(f)) && f@ == "Type"@
    } else if ty is None {
        r matches Err(RecordError::InvalidField(f)) && f@ == "Type"@
    } else if ty != Some("SlowTask"@) {
        r == Result::<bool, RecordError>::Ok(false)
    } else if !ev.contains_key("Duration"@) {
        r matches Err(RecordError::MissingField(f)) && f@ == "Duration"@
    } else if dur is None {
        r matches Err(RecordError::InvalidField(f)) && f@ == "Duration"@
    } else if fp_value_of(dur.unwrap()) is None {
        r matches Err(RecordError::InvalidField(f)) && f@ == "Duration"@
    } else {
        r == Result::<bool, RecordError>::Ok(
            fp_value_of(dur.unwrap()).unwrap() > pre.threshold_ms * 1_000_000,
        )
    }
}

impl SlowTaskCounter {
    /// The counter is named `process_slow_task_{threshold}_ms`.
    pub fn new(threshold_ms: u64) -> (r: SlowTaskCounter)
        ensures
            r.threshold_ms == threshold_ms,
            r.counter_name@ == "process_slow_task_"@ + dec_digits_of(threshold_ms as nat) + "_ms"@,
            r.description@ == "Counter of slow tasks longer than "@ + dec_digits_of(
                threshold_ms as nat,
            ) + " ms"@,
    {
        let digits = u64_to_string(threshold_ms);
        let counter_name = String::from_str("process_slow_task_").concat(digits.as_str()).concat(
            "_ms",
        );
        let description = String::from_str("Counter of slow tasks longer than ").concat(
            digits.as_str(),
        ).concat(" ms");
        SlowTaskCounter { threshold_ms, counter_name, description }
    }

    /// Record one event: `Ok(true)` exactly when the counter advances.
    pub fn record(&self, event: &TraceEvent) -> (r: Result<bool, RecordError>)
        requires
            event.wf(),
        ensures
            slow_task_record_spec(*self, event@, r),
    {
        if !event.has_field("Type") {
            return Err(RecordError::MissingField(String::from_str("Type")));
        }
        let trace_type = match event.get_str("Type") {
            Some(t) => t,
            None => {
                return Err(RecordError::InvalidField(String::from_str("Type")));
            },
        };
        if !str_eq(trace_type.as_str(), "SlowTask") {
            return Ok(false);
        }
        if !event.has_field("Duration") {
            return Err(RecordError::MissingField(String::from_str("Duration")));
        }
        let dur_text = match event.get_str("Duration") {
            Some(t) => t,
            None => {
                return Err(RecordError::InvalidField(String::from_str("Duration")));
            },
        };
        let duration = match parse_fp(dur_text.as_str()) {
            Some(v) => v,
            None => {
                return Err(RecordError::InvalidField(String::from_str("Duration")));
            },
        };
        Ok(duration > (self.threshold_ms as i128) * 1_000_000)
    }
}

} // verus!
