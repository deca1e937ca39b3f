//! The standard gauge recorders.
//!
//! Each recorder matches events of one configured `Type`, reads one
//! configured field, and produces a gauge value: directly for the total
//! counter, smoothed through the rolling window for the simple, rate and
//! elapsed-rate forms. A recorder ignores events of other types, fails
//! with a structured error naming the field when a required field is
//! missing or malformed, and otherwise returns the exact value written to
//! the instrument.

use vstd::prelude::*;
use crate::errors::RecordError;
use crate::labels::canon_labels;
use crate::labels::labels_view;
use crate::labels::LabelKey;
use crate::labels::PairView;
use crate::numbers::{fp_div_val, fp_value_of, parse_fp, sabs, fp_div, Frac, FP_LIMIT, FP_SCALE};
use crate::text::{space_tokens, split_spaces, str_eq, strings_view};
use crate::trace_event::{field_str, TraceEvent};
use crate::window::{live_of, sum_values, sums_in_range, RollingWindows, TimedSample};

verus! {

/// Fetch a field that must be present with a string value.
pub fn get_trace_field(event: &TraceEvent, name: &str) -> (r: Result<String, RecordError>)
    requires
        event.wf(),
    ensures
        match r {
            Ok(s) => field_str(event@, name@) == Some(s@),
            Err(e) => field_str(event@, name@) is None && (e matches RecordError::MissingField(f)
                && f@ == name@),
        },
{
    match event.get_str(name) {
        Some(s) => Ok(s),
        None => Err(RecordError::MissingField(String::from_str(name))),
    }
}

/// The smoothing step shared by the simple, rate and elapsed-rate gauges:
/// the sample joins the window for the canonicalised label set, and the
/// emitted value is the exact mean of that window.
pub open spec fn smoothed_step(
    prew: RollingWindows,
    postw: RollingWindows,
    labels: Seq<PairView>,
    t: int,
    v: int,
    fname: Seq<char>,
    r: Result<Option<Frac>, RecordError>,
) -> bool {
    let key = canon_labels(labels);
    let sample = TimedSample { time: t as i128, value: v as i128 };
    let hist2 = prew.hist_of(key).push(sample);
    let live = live_of(hist2);
    &&& postw.wf()
    &&& postw.hist_map() =~= prew.hist_map().insert(key, hist2)
    &&& if sums_in_range(live) {
        r matches Ok(o) && o matches Some(f) && f.num == sum_values(live) && f.den == live.len()
            * FP_SCALE && f.wf()
    } else {
        r matches Err(e) && (e matches RecordError::ValueOutOfRange(f) && f@ == fname)
    }
}

/// Emits the value of one numeric field, smoothed, for events of one type.
pub struct SimpleFDBGauge {
    pub trace_type: String,
    pub field_name: String,
    pub gauge_name: String,
    pub description: String,
    pub windows: RollingWindows,
}

/// What `SimpleFDBGauge::record` does: skip other event types; require
/// the configured field and `Time` to be present decimal strings; then
/// smooth the value through the rolling window.
pub open spec fn simple_record_spec(
    pre: SimpleFDBGauge,
    post: SimpleFDBGauge,
    ev: Map<Seq<char>, Option<Seq<char>>>,
    labels: Seq<PairView>,
    r: Result<Option<Frac>, RecordError>,
) -> bool {
    let ty = field_str(ev, "Type"@);
    let vtext = field_str(ev, pre.field_name@);
    let ttext = field_str(ev, "Time"@);
    if ty is None {
        post == pre && (r matches Err(RecordError::MissingField(f)) && f@ == "Type"@)
    } else if ty != Some(pre.trace_type@) {
        post == pre && r == Result::<Option<Frac>, RecordError>::Ok(None)
    } else if vtext is None {
        post == pre && (r matches Err(RecordError::MissingField(f)) && f@ == pre.field_name@)
    } else if fp_value_of(vtext.unwrap()) is None {
        post == pre && (r matches Err(RecordError::InvalidNumber(f)) && f@ == pre.field_name@)
    } else if ttext is None {
        post == pre && (r matches Err(RecordError::MissingField(f)) && f@ == "Time"@)
    } else if fp_value_of(ttext.unwrap()) is None {
        post == pre && (r matches Err(RecordError::InvalidNumber(f)) && f@ == "Time"@)
    } else {
        &&& post.trace_type == pre.trace_type
        &&& post.field_name == pre.field_name
        &&& post.gauge_name == pre.gauge_name
        &&& post.description == pre.description
        &&& smoothed_step(
            pre.windows,
            post.windows,
            labels,
            fp_value_of(ttext.unwrap()).unwrap(),
            fp_value_of(vtext.unwrap()).unwrap(),
            pre.field_name@,
            r,
        )
    }
}

impl SimpleFDBGauge {
    pub open spec fn wf(self) -> bool {
        self.windows.wf()
    }

    pub fn new(trace_type: String, field_name: String, gauge_name: String, description: String) -> (r:
        SimpleFDBGauge)
        ensures
            r.trace_type == trace_type,
            r.field_name == field_name,
            r.gauge_name == gauge_name,
            r.description == description,
            r.windows.hist_map() =~= Map::<Seq<PairView>, Seq<TimedSample>>::empty(),
            r.wf(),
    {
        SimpleFDBGauge {
            trace_type,
            field_name,
            gauge_name,
            description,
            windows: RollingWindows::new(),
        }
    }

    /// Record one event: exactly `simple_record_spec`.
    pub fn record(&mut self, event: &TraceEvent, labels: &Vec<(String, String)>) -> (r: Result<
        Option<Frac>,
        RecordError,
    >)
        requires
            old(self).wf(),
            event.wf(),
        ensures
            final(self).wf(),
            simple_record_spec(*old(self), *final(self), event@, labels_view(labels@), r),
    {
        let trace_type = match get_trace_field(event, "Type") {
            Ok(t) => t,
            Err(e) => {
                return Err(e);
            },
        };
        if !str_eq(trace_type.as_str(), self.trace_type.as_str()) {
            return Ok(None);
        }
        let value_text = match event.get_str(self.field_name.as_str()) {
            Some(v) => v,
            None => {
                return Err(RecordError::MissingField(self.field_name.clone()));
            },
        };
        let value = match parse_fp(value_text.as_str()) {
            Some(v) => v,
            None => {
                return Err(RecordError::InvalidNumber(self.field_name.clone()));
            },
        };
        let time_text = match get_trace_field(event, "Time") {
            Ok(t) => t,
            Err(e) => {
                return Err(e);
            },
        };
        let time = match parse_fp(time_text.as_str()) {
            Some(t) => t,
            None => {
                return Err(RecordError::InvalidNumber(String::from_str("Time")));
            },
        };
        let key = LabelKey::from_labels(labels);
        match self.windows.observe(key, time, value) {
            Some(f) => Ok(Some(f)),
            None => Err(RecordError::ValueOutOfRange(self.field_name.clone())),
        }
    }
}

/// Emits the third space-separated part of a counter field (the running
/// total), unsmoothed, for events of one type.
pub struct TotalCounterFDBGauge {
    pub trace_type: String,
    pub field_name: String,
    pub gauge_name: String,
    pub description: String,
}

/// What `TotalCounterFDBGauge::record` does: skip other event types;
/// require the configured field, split it at spaces, and emit its third
/// part as an exact value.
pub open spec fn total_counter_record_spec(
    pre: TotalCounterFDBGauge,
    post: TotalCounterFDBGauge,
    ev: Map<Seq<char>, Option<Seq<char>>>,
    r: Result<Option<Frac>, RecordError>,
) -> bool {
    let ty = field_str(ev, "Type"@);
    let vtext = field_str(ev, pre.field_name@);
    &&& post == pre
    &&& if ty is None {
        r matches Err(RecordError::MissingField(f)) && f@ == "Type"@
    } else if ty != Some(pre.trace_type@) {
        r == Result::<Option<Frac>, RecordError>::Ok(None)
    } else if vtext is None {
        r matches Err(RecordError::MissingField(f)) && f@ == pre.field_name@
    } else if space_tokens(vtext.unwrap()).len() <= 2 {
        r matches Err(RecordError::MalformedCounter(f)) && f@ == pre.field_name@
    } else if fp_value_of(space_tokens(vtext.unwrap())[2]) is None {
        r matches Err(RecordError::InvalidNumber(f)) && f@ == pre.field_name@
    } else {
        r matches Ok(o) && o matches Some(f) && f.num == fp_value_of(
            space_tokens(vtext.unwrap())[2],
        ).unwrap() && f.den == FP_SCALE
    }
}

impl TotalCounterFDBGauge {
    pub fn new(trace_type: String, field_name: String, gauge_name: String, description: String) -> (
        r: TotalCounterFDBGauge)
        ensures
            r.trace_type == trace_type,
            r.field_name == field_name,
            r.gauge_name == gauge_name,
            r.description == description,
    {
        TotalCounterFDBGauge { trace_type, field_name, gauge_name, description }
    }

    /// Record one event: exactly `total_counter_record_spec`.
    pub fn record(&self, event: &TraceEvent) -> (r: Result<Option<Frac>, RecordError>)
        requires
            event.wf(),
        ensures
            total_counter_record_spec(*self, *self, event@, r),
    {
        let trace_type = match get_trace_field(event, "Type") {
            Ok(t) => t,
            Err(e) => {
                return Err(e);
            },
        };
        if !str_eq(trace_type.as_str(), self.trace_type.as_str()) {
            return Ok(None);
        }
        let value_text = match event.get_str(self.field_name.as_str()) {
            Some(v) => v,
            None => {
                return Err(RecordError::MissingField(self.field_name.clone()));
            },
        };
        let parts = split_spaces(value_text.as_str());
        if parts.len() <= 2 {
            return Err(RecordError::MalformedCounter(self.field_name.clone()));
        }
        proof {
            assert(strings_view(parts@)[2] == parts@[2]@);
        }
        match parse_fp(parts[2].as_str()) {
            Some(v) => Ok(Some(Frac::from_fp(v))),
            None => Err(RecordError::InvalidNumber(self.field_name.clone())),
        }
    }
}

/// Emits the first space-separated part of a counter field (the
/// instantaneous rate), smoothed, for events of one type.
pub struct RateCounterFDBGauge {
    pub trace_type: String,
    pub field_name: String,
    pub gauge_name: String,
    pub description: String,
    pub windows: RollingWindows,
}

/// What `RateCounterFDBGauge::record` does: skip other event types;
/// require the configured field to hold at least three space-separated
/// parts and `Time` to be present; parse the field's first part; then
/// smooth it through the rolling window.
pub open spec fn rate_counter_record_spec(
    pre: RateCounterFDBGauge,
    post: RateCounterFDBGauge,
    ev: Map<Seq<char>, Option<Seq<char>>>,
    labels: Seq<PairView>,
    r: Result<Option<Frac>, RecordError>,
) -> bool {
    let ty = field_str(ev, "Type"@);
    let vtext = field_str(ev, pre.field_name@);
    let ttext = field_str(ev, "Time"@);
    if ty is None {
        post == pre && (r matches Err(RecordError::MissingField(f)) && f@ == "Type"@)
    } else if ty != Some(pre.trace_type@) {
        post == pre && r == Result::<Option<Frac>, RecordError>::Ok(None)
    } else if vtext is None {
        post == pre && (r matches Err(RecordError::MissingField(f)) && f@ == pre.field_name@)
    } else if space_tokens(vtext.unwrap()).len() <= 2 {
        post == pre && (r matches Err(RecordError::MalformedCounter(f)) && f@ == pre.field_name@)
    } else if fp_value_of(space_tokens(vtext.unwrap())[0]) is None {
        post == pre && (r matches Err(RecordError::InvalidNumber(f)) && f@ == pre.field_name@)
    } else if ttext is None {
        post == pre && (r matches Err(RecordError::MissingField(f)) && f@ == "Time"@)
    } else if fp_value_of(ttext.unwrap()) is None {
        post == pre && (r matches Err(RecordError::InvalidNumber(f)) && f@ == "Time"@)
    } else {
        &&& post.trace_type == pre.trace_type
        &&& post.field_name == pre.field_name
        &&& post.gauge_name == pre.gauge_name
        &&& post.description == pre.description
        &&& smoothed_step(
            pre.windows,
            post.windows,
            labels,
            fp_value_of(ttext.unwrap()).unwrap(),
            fp_value_of(space_tokens(vtext.unwrap())[0]).unwrap(),
            pre.field_name@,
            r,
        )
    }
}

impl RateCounterFDBGauge {
    pub open spec fn wf(self) -> bool {
        self.windows.wf()
    }

    pub fn new(trace_type: String, field_name: String, gauge_name: String, description: String) -> (
        r: RateCounterFDBGauge)
        ensures
            r.trace_type == trace_type,
            r.field_name == field_name,
            r.gauge_name == gauge_name,
            r.description == description,
            r.windows.hist_map() =~= Map::<Seq<PairView>, Seq<TimedSample>>::empty(),
            r.wf(),
    {
        RateCounterFDBGauge {
            trace_type,
            field_name,
            gauge_name,
            description,
            windows: RollingWindows::new(),
        }
    }

    /// Record one event: exactly `rate_counter_record_spec`.
    pub fn record(&mut self, event: &TraceEvent, labels: &Vec<(String, String)>) -> (r: Result<
        Option<Frac>,
        RecordError,
    >)
        requires
            old(self).wf(),
            event.wf(),
        ensures
            final(self).wf(),
            rate_counter_record_spec(*old(self), *final(self), event@, labels_view(labels@), r),
    {
        let trace_type = match get_trace_field(event, "Type") {
            Ok(t) => t,
            Err(e) => {
                return Err(e);
            },
        };
        if !str_eq(trace_type.as_str(), self.trace_type.as_str()) {
            return Ok(None);
        }
        let value_text = match event.get_str(self.field_name.as_str()) {
            Some(v) => v,
            None => {
                return Err(RecordError::MissingField(self.field_name.clone()));
            },
        };
        let parts = split_spaces(value_text.as_str());
        if parts.len() <= 2 {
            return Err(RecordError::MalformedCounter(self.field_name.clone()));
        }
        proof {
            assert(strings_view(parts@)[0] == parts@[0]@);
        }
        let value = match parse_fp(parts[0].as_str()) {
            Some(v) => v,
            None => {
                return Err(RecordError::InvalidNumber(self.field_name.clone()));
            },
        };
        let time_text = match get_trace_field(event, "Time") {
            Ok(t) => t,
            Err(e) => {
                return Err(e);
            },
        };
        let time = match parse_fp(time_text.as_str()) {
            Some(t) => t,
            None => {
                return Err(RecordError::InvalidNumber(String::from_str("Time")));
            },
        };
        let key = LabelKey::from_labels(labels);
        match self.windows.observe(key, time, value) {
            Some(f) => Ok(Some(f)),
            None => Err(RecordError::ValueOutOfRange(self.field_name.clone())),
        }
    }
}

/// Emits a value field divided by the sibling `Elapsed` field, smoothed,
/// for events of one type.
pub struct ElapsedRateFDBGauge {
    pub trace_type: String,
    pub field_name: String,
    pub gauge_name: String,
    pub description: String,
    pub windows: RollingWindows,
}

/// What `ElapsedRateFDBGauge::record` does: skip other event types;
/// require the configured field, `Elapsed` and `Time`; divide the value by
/// the elapsed time exactly; then smooth the quotient through the rolling
/// window. A zero `Elapsed` or a quotient out of range is an error.
pub open spec fn elapsed_rate_record_spec(
    pre: ElapsedRateFDBGauge,
    post: ElapsedRateFDBGauge,
    ev: Map<Seq<char>, Option<Seq<char>>>,
    labels: Seq<PairView>,
    r: Result<Option<Frac>, RecordError>,
) -> bool {
    let ty = field_str(ev, "Type"@);
    let vtext = field_str(ev, pre.field_name@);
    let etext = field_str(ev, "Elapsed"@);
    let ttext = field_str(ev, "Time"@);
    if ty is None {
        post == pre && (r matches Err(RecordError::MissingField(f)) && f@ == "Type"@)
    } else if ty != Some(pre.trace_type@) {
        post == pre && r == Result::<Option<Frac>, RecordError>::Ok(None)
    } else if vtext is None {
        post == pre && (r matches Err(RecordError::MissingField(f)) && f@ == pre.field_name@)
    } else if fp_value_of(vtext.unwrap()) is None {
        post == pre && (r matches Err(RecordError::InvalidNumber(f)) && f@ == pre.field_name@)
    } else if etext is None {
        post == pre && (r matches Err(RecordError::MissingField(f)) && f@ == "Elapsed"@)
    } else if fp_value_of(etext.unwrap()) is None {
        post == pre && (r matches Err(RecordError::InvalidNumber(f)) && f@ == "Elapsed"@)
    } else if ttext is None {
        post == pre && (r matches Err(RecordError::MissingField(f)) && f@ == "Time"@)
    } else if fp_value_of(ttext.unwrap()) is None {
        post == pre && (r matches Err(RecordError::InvalidNumber(f)) && f@ == "Time"@)
    } else {
        let v = fp_value_of(vtext.unwrap()).unwrap();
        let e = fp_value_of(etext.unwrap()).unwrap();
        if e == 0 || sabs(fp_div_val(v, e)) >= FP_LIMIT {
            post == pre && (r matches Err(RecordError::ValueOutOfRange(f)) && f@ == "Elapsed"@)
        } else {
            &&& post.trace_type == pre.trace_type
            &&& post.field_name == pre.field_name
            &&& post.gauge_name == pre.gauge_name
            &&& post.description == pre.description
            &&& smoothed_step(
                pre.windows,
                post.windows,
                labels,
                fp_value_of(ttext.unwrap()).unwrap(),
                fp_div_val(v, e),
                pre.field_name@,
                r,
            )
        }
    }
}

impl ElapsedRateFDBGauge {
    pub open spec fn wf(self) -> bool {
        self.windows.wf()
    }

    pub fn new(trace_type: String, field_name: String, gauge_name: String, description: String) -> (
        r: ElapsedRateFDBGauge)
        ensures
            r.trace_type == trace_type,
            r.field_name == field_name,
            r.gauge_name == gauge_name,
            r.description == description,
            r.windows.hist_map() =~= Map::<Seq<PairView>, Seq<TimedSample>>::empty(),
            r.wf(),
    {
        ElapsedRateFDBGauge {
            trace_type,
            field_name,
            gauge_name,
            description,
            windows: RollingWindows::new(),
        }
    }

    /// Record one event: exactly `elapsed_rate_record_spec`.
    pub fn record(&mut self, event: &TraceEvent, labels: &Vec<(String, String)>) -> (r: Result<
        Option<Frac>,
        RecordError,
    >)
        requires
            old(self).wf(),
            event.wf(),
        ensures
            final(self).wf(),
            elapsed_rate_record_spec(*old(self), *final(self), event@, labels_view(labels@), r),
    {
        let trace_type = match get_trace_field(event, "Type") {
            Ok(t) => t,
            Err(e) => {
                return Err(e);
            },
        };
        if !str_eq(trace_type.as_str(), self.trace_type.as_str()) {
            return Ok(None);
        }
        let value_text = match event.get_str(self.field_name.as_str()) {
            Some(v) => v,
            None => {
                return Err(RecordError::MissingField(self.field_name.clone()));
            },
        };
        let value = match parse_fp(value_text.as_str()) {
            Some(v) => v,
            None => {
                return Err(RecordError::InvalidNumber(self.field_name.clone()));
            },
        };
        let elapsed_text = match get_trace_field(event, "Elapsed") {
            Ok(t) => t,
            Err(e) => {
                return Err(e);
            },
        };
        let elapsed = match parse_fp(elapsed_text.as_str()) {
            Some(v) => v,
            None => {
                return Err(RecordError::InvalidNumber(String::from_str("Elapsed")));
            },
        };
        let time_text = match get_trace_field(event, "Time") {
            Ok(t) => t,
            Err(e) => {
                return Err(e);
            },
        };
        let time = match parse_fp(time_text.as_str()) {
            Some(t) => t,
            None => {
                return Err(RecordError::InvalidNumber(String::from_str("Time")));
            },
        };
        let sample = match fp_div(value, elapsed) {
            Some(q) => q,
            None => {
                return Err(RecordError::ValueOutOfRange(String::from_str("Elapsed")));
            },
        };
        let key = LabelKey::from_labels(labels);
        match self.windows.observe(key, time, sample) {
            Some(f) => Ok(Some(f)),
            None => Err(RecordError::ValueOutOfRange(self.field_name.clone())),
        }
    }
}

} // verus!
