//! The metric registry.
//!
//! The registry owns the configured recorders and dispatches every parsed
//! trace event through each of them in order, with labels derived from the
//! event's `Machine` and optional `Roles` fields. Recorders do not write
//! to instruments themselves; the registry returns the emissions — gauge
//! values, counter increments and tail interpolations — for the
//! application layer to apply, together with the first recorder error.

use vstd::prelude::*;
use crate::errors::RecordError;
use crate::fdb_counter::{sev_record_spec, slow_task_record_spec, SevCounter, SlowTaskCounter};
use crate::fdb_gauge::{elapsed_rate_record_spec, rate_counter_record_spec, simple_record_spec,
    total_counter_record_spec, ElapsedRateFDBGauge, RateCounterFDBGauge, SimpleFDBGauge,
    TotalCounterFDBGauge};
use crate::histogram::{histogram_record_spec, HistogramEmit, HistogramPercentileFDBGauge, TailCase};
use crate::labels::PairView;
use crate::numbers::Frac;
use crate::trace_event::{field_str, fields_map, FieldView, TraceEvent};

verus! {

/// One value to apply to an instrument.
pub enum EmitValue {
    /// Set a gauge to an exact fraction.
    Gauge(Frac),
    /// Add one to a counter.
    Increment,
    /// Set a gauge to the solved and clamped exponential tail value.
    Percentile(TailCase),
}

/// One instrument update: the index of the recorder that produced it, the
/// derived labels, and the value.
pub struct Emission {
    pub metric: usize,
    pub labels: Vec<(String, String)>,
    pub value: EmitValue,
}

/// The result of dispatching one event: the emissions of the recorders
/// that ran, and the first recorder error, if any.
pub struct RecordOutcome {
    pub emissions: Vec<Emission>,
    pub error: Option<RecordError>,
}

/// A configured recorder.
pub enum Recorder {
    Simple(SimpleFDBGauge),
    CounterTotal(TotalCounterFDBGauge),
    CounterRate(RateCounterFDBGauge),
    ElapsedRate(ElapsedRateFDBGauge),
    HistogramPercentile(HistogramPercentileFDBGauge),
    Severity(SevCounter),
    SlowTask(SlowTaskCounter),
}

impl Recorder {
    pub open spec fn wf(self) -> bool {
        match self {
            Recorder::Simple(g) => g.wf(),
            Recorder::CounterRate(g) => g.wf(),
            Recorder::ElapsedRate(g) => g.wf(),
            Recorder::HistogramPercentile(g) => 0 <= g.percentile <= 1_000_000_000,
            _ => true,
        }
    }
}

pub open spec fn lift_frac(r: Result<Option<Frac>, RecordError>) -> Result<
    Option<EmitValue>,
    RecordError,
> {
    match r {
        Ok(Some(f)) => Ok(Some(EmitValue::Gauge(f))),
        Ok(None) => Ok(None),
        Err(e) => Err(e),
    }
}

pub open spec fn lift_hist(r: Result<Option<HistogramEmit>, RecordError>) -> Result<
    Option<EmitValue>,
    RecordError,
> {
    match r {
        Ok(Some(HistogramEmit::Exact(f))) => Ok(Some(EmitValue::Gauge(f))),
        Ok(Some(HistogramEmit::Tail(t))) => Ok(Some(EmitValue::Percentile(t))),
        Ok(None) => Ok(None),
        Err(e) => Err(e),
    }
}

pub open spec fn lift_flag(r: Result<bool, RecordError>) -> Result<Option<EmitValue>, RecordError> {
    match r {
        Ok(true) => Ok(Some(EmitValue::Increment)),
        Ok(false) => Ok(None),
        Err(e) => Err(e),
    }
}

/// One recorder's step: its own record contract, lifted to an emission.
pub open spec fn recorder_step(
    pre: Recorder,
    post: Recorder,
    fields: Seq<FieldView>,
    labels: Seq<PairView>,
    r: Result<Option<EmitValue>, RecordError>,
) -> bool {
    let ev = fields_map(fields);
    match pre {
        Recorder::Simple(a) => post matches Recorder::Simple(b) && exists|
            r0: Result<Option<Frac>, RecordError>,
        |
            #[trigger] simple_record_spec(a, b, ev, labels, r0) && r == lift_frac(r0),
        Recorder::CounterTotal(a) => post == pre && exists|r0: Result<Option<Frac>, RecordError>|
            #[trigger] total_counter_record_spec(a, a, ev, r0) && r == lift_frac(r0),
        Recorder::CounterRate(a) => post matches Recorder::CounterRate(b) && exists|
            r0: Result<Option<Frac>, RecordError>,
        |
            #[trigger] rate_counter_record_spec(a, b, ev, labels, r0) && r == lift_frac(r0),
        Recorder::ElapsedRate(a) => post matches Recorder::ElapsedRate(b) && exists|
            r0: Result<Option<Frac>, RecordError>,
        |
            #[trigger] elapsed_rate_record_spec(a, b, ev, labels, r0) && r == lift_frac(r0),
        Recorder::HistogramPercentile(a) => post == pre && exists|
            r0: Result<Option<HistogramEmit>, RecordError>,
        |
            #[trigger] histogram_record_spec(a, fields, r0) && r == lift_hist(r0),
        Recorder::Severity(a) => post == pre && exists|r0: Result<bool, RecordError>|
            #[trigger] sev_record_spec(a, ev, r0) && r == lift_flag(r0),
        Recorder::SlowTask(a) => post == pre && exists|r0: Result<bool, RecordError>|
            #[trigger] slow_task_record_spec(a, ev, r0) && r == lift_flag(r0),
    }
}

/// The event type a recorder is configured to match, where it matches on
/// the `Type` field at all: the severity counters match on `Severity`
/// instead and have none.
pub open spec fn recorder_trace_type(rec: Recorder) -> Option<Seq<char>> {
    match rec {
        Recorder::Simple(g) => Some(g.trace_type@),
        Recorder::CounterTotal(g) => Some(g.trace_type@),
        Recorder::CounterRate(g) => Some(g.trace_type@),
        Recorder::ElapsedRate(g) => Some(g.trace_type@),
        Recorder::HistogramPercentile(_) => Some("Histogram"@),
        Recorder::SlowTask(_) => Some("SlowTask"@),
        Recorder::Severity(_) => None,
    }
}

/// An event whose `Type` does not match a recorder's configured type is
/// returned as success without touching the recorder or any instrument:
/// its step emits nothing and leaves its state unchanged.
pub proof fn lemma_mismatched_type_ignored(
    pre: Recorder,
    post: Recorder,
    fields: Seq<FieldView>,
    labels: Seq<PairView>,
    r: Result<Option<EmitValue>, RecordError>,
)
    requires
        recorder_step(pre, post, fields, labels, r),
        recorder_trace_type(pre) is Some,
        field_str(fields_map(fields), "Type"@) is Some,
        field_str(fields_map(fields), "Type"@) != Some(recorder_trace_type(pre).unwrap()),
    ensures
        r == Result::<Option<EmitValue>, RecordError>::Ok(None),
        post == pre,
{
    let ev = fields_map(fields);
    match pre {
        Recorder::Simple(a) => {
            let r0 = choose|r0: Result<Option<Frac>, RecordError>|
                #[trigger] simple_record_spec(
                    a,
                    post->Simple_0,
                    ev,
                    labels,
                    r0,
                ) && r == lift_frac(r0);
            assert(r0 == Result::<Option<Frac>, RecordError>::Ok(None));
        },
        Recorder::CounterTotal(a) => {
            let r0 = choose|r0: Result<Option<Frac>, RecordError>|
                #[trigger] total_counter_record_spec(a, a, ev, r0) && r == lift_frac(r0);
            assert(r0 == Result::<Option<Frac>, RecordError>::Ok(None));
        },
        Recorder::CounterRate(a) => {
            let r0 = choose|r0: Result<Option<Frac>, RecordError>|
                #[trigger] rate_counter_record_spec(
                    a,
                    post->CounterRate_0,
                    ev,
                    labels,
                    r0,
                ) && r == lift_frac(r0);
            assert(r0 == Result::<Option<Frac>, RecordError>::Ok(None));
        },
        Recorder::ElapsedRate(a) => {
            let r0 = choose|r0: Result<Option<Frac>, RecordError>|
                #[trigger] elapsed_rate_record_spec(
                    a,
                    post->ElapsedRate_0,
                    ev,
                    labels,
                    r0,
                ) && r == lift_frac(r0);
            assert(r0 == Result::<Option<Frac>, RecordError>::Ok(None));
        },
        Recorder::HistogramPercentile(a) => {
            let r0 = choose|r0: Result<Option<HistogramEmit>, RecordError>|
                #[trigger] histogram_record_spec(a, fields, r0) && r == lift_hist(r0);
            assert(r0 == Result::<Option<HistogramEmit>, RecordError>::Ok(None));
        },
        Recorder::SlowTask(a) => {
            let r0 = choose|r0: Result<bool, RecordError>|
                #[trigger] slow_task_record_spec(a, ev, r0) && r == lift_flag(r0);
            assert(r0 == Result::<bool, RecordError>::Ok(false));
        },
        Recorder::Severity(_) => {},
    }
}

/// The emission list induced by the executed steps, with metric indices.
pub open spec fn steps_emits(steps: Seq<Result<Option<EmitValue>, RecordError>>, base: int) -> Seq<
    (int, EmitValue),
>
    decreases steps.len(),
{
    if steps.len() == 0 {
        Seq::empty()
    } else {
        match steps[0] {
            Ok(Some(v)) => seq![(base, v)] + steps_emits(steps.skip(1), base + 1),
            _ => steps_emits(steps.skip(1), base + 1),
        }
    }
}

pub open spec fn steps_error(steps: Seq<Result<Option<EmitValue>, RecordError>>) -> Option<
    RecordError,
> {
    if steps.len() > 0 && steps.last() is Err {
        match steps.last() {
            Err(e) => Some(e),
            Ok(_) => None,
        }
    } else {
        None
    }
}

/// The registry's dispatch relation: some prefix of the recorders ran,
/// each according to its own contract; only the last executed step may
/// have failed, and when one failed, the recorders after it are untouched.
pub open spec fn registry_dispatch(
    pres: Seq<Recorder>,
    posts: Seq<Recorder>,
    fields: Seq<FieldView>,
    labels: Seq<PairView>,
    steps: Seq<Result<Option<EmitValue>, RecordError>>,
    emits: Seq<(int, EmitValue)>,
    err: Option<RecordError>,
) -> bool {
    &&& posts.len() == pres.len()
    &&& steps.len() <= pres.len()
    &&& forall|j: int|
        0 <= j < steps.len() ==> recorder_step(pres[j], posts[j], fields, labels, #[trigger] steps[j])
    &&& forall|j: int| 0 <= j < steps.len() - 1 ==> (#[trigger] steps[j]) is Ok
    &&& (steps.len() < pres.len() ==> steps.len() > 0 && steps.last() is Err)
    &&& forall|j: int| steps.len() <= j < pres.len() ==> (#[trigger] posts[j]) == pres[j]
    &&& err == steps_error(steps)
    &&& emits == steps_emits(steps, 0)
}

/// The labels derived for dispatch: the event's machine, and its roles
/// when present.
pub open spec fn derived_labels(ev: Map<Seq<char>, Option<Seq<char>>>) -> Seq<PairView> {
    let machine = seq![("machine"@, field_str(ev, "Machine"@).unwrap())];
    match field_str(ev, "Roles"@) {
        Some(r) => machine + seq![("Roles"@, r)],
        None => machine,
    }
}

/// The registry: an ordered sequence of recorders.
pub struct LogMetrics {
    pub metrics: Vec<Recorder>,
}

/// What `LogMetrics::record` does: without a string `Machine` field,
/// nothing runs and the outcome is the missing-machine error alone;
/// otherwise the recorders run in order up to the first error, and the
/// outcome holds their emissions, each labelled with the derived labels.
pub open spec fn record_spec(
    pre: LogMetrics,
    post: LogMetrics,
    fields: Seq<FieldView>,
    r: RecordOutcome,
) -> bool {
    let ev = fields_map(fields);
    &&& post.metrics@.len() == pre.metrics@.len()
    &&& if field_str(ev, "Machine"@) is None {
        &&& r.error matches Some(e) && e is MissingMachine
        &&& r.emissions@.len() == 0
        &&& post == pre
    } else {
        let labels = derived_labels(ev);
        &&& (forall|k: int|
            0 <= k < r.emissions@.len() ==> crate::labels::labels_view(
                (#[trigger] r.emissions@[k]).labels@,
            ) == labels)
        &&& exists|steps: Seq<Result<Option<EmitValue>, RecordError>>|
            #[trigger] registry_dispatch(
                pre.metrics@,
                post.metrics@,
                fields,
                labels,
                steps,
                emissions_view(r.emissions@),
                r.error,
            )
    }
}

impl LogMetrics {
    pub open spec fn wf(self) -> bool {
        forall|i: int| 0 <= i < self.metrics@.len() ==> (#[trigger] self.metrics@[i]).wf()
    }

    /// Build a registry from recorders, in dispatch order.
    pub fn from_metrics(metrics: Vec<Recorder>) -> (r: LogMetrics)
        ensures
            r.metrics == metrics,
    {
        LogMetrics { metrics }
    }

    /// Dispatch one event through every recorder in order. Without a
    /// string `Machine` field nothing runs and the outcome is the
    /// missing-machine error alone; otherwise the recorders run in order
    /// up to the first error, and the outcome holds their emissions, each
    /// labelled with the derived labels.
    #[verifier::loop_isolation(false)]
    pub fn record(&mut self, event: &TraceEvent) -> (r: RecordOutcome)
        requires
            old(self).wf(),
            event.wf(),
        ensures
            final(self).wf(),
            record_spec(*old(self), *final(self), event.fields_seq(), r),
    {
        let machine = match event.get_str("Machine") {
            Some(m) => m,
            None => {
                return RecordOutcome { emissions: Vec::new(), error: Some(
                    RecordError::MissingMachine,
                ) };
            },
        };
        let mut labels: Vec<(String, String)> = Vec::new();
        labels.push((String::from_str("machine"), machine));
        match event.get_str("Roles") {
            Some(roles) => {
                labels.push((String::from_str("Roles"), roles));
            },
            None => {},
        }
        proof {
            assert(crate::labels::labels_view(labels@) =~= derived_labels(event@));
        }
        let ghost lbl = derived_labels(event@);
        let ghost fields = event.fields_seq();
        let mut emissions: Vec<Emission> = Vec::new();
        let ghost mut steps: Seq<Result<Option<EmitValue>, RecordError>> = Seq::empty();
        let n = self.metrics.len();
        let mut i: usize = 0;
        proof {
            assert(emissions_view(emissions@) =~= Seq::<(int, EmitValue)>::empty());
        }
        while i < n
            invariant
                0 <= i <= n,
                self.metrics@.len() == n,
                steps.len() == i,
                crate::labels::labels_view(labels@) == lbl,
                forall|j: int|
                    0 <= j < i ==> recorder_step(
                        old(self).metrics@[j],
                        self.metrics@[j],
                        fields,
                        lbl,
                        #[trigger] steps[j],
                    ),
                forall|j: int| 0 <= j < i ==> (#[trigger] steps[j]) is Ok,
                forall|j: int| i <= j < n ==> (#[trigger] self.metrics@[j]) == old(self).metrics@[j],
                emissions_view(emissions@) == steps_emits(steps, 0),
                forall|k: int|
                    0 <= k < emissions@.len() ==> crate::labels::labels_view(
                        (#[trigger] emissions@[k]).labels@,
                    ) == lbl,
                forall|j: int| 0 <= j < n ==> (#[trigger] self.metrics@[j]).wf(),
            decreases n - i,
        {
            let ghost mets0 = self.metrics@;
            let mut rec = self.metrics.remove(i);
            let step = record_one(&mut rec, event, &labels);
            let ghost posted = rec;
            self.metrics.insert(i, rec);
            proof {
                assert(self.metrics@ =~= mets0.update(i as int, posted));
            }
            match step {
                Err(e) => {
                    proof {
                        let pre_steps = steps;
                        steps = steps.push(Err(e));
                        assert(steps.drop_last() =~= pre_steps);
                        lemma_steps_emits_push(pre_steps, Err(e), 0);
                        assert(steps.last() is Err);
                        assert(registry_dispatch(
                            old(self).metrics@,
                            self.metrics@,
                            fields,
                            lbl,
                            steps,
                            emissions_view(emissions@),
                            Some(e),
                        ));
                    }
                    return RecordOutcome { emissions, error: Some(e) };
                },
                Ok(Some(v)) => {
                    let ghost v0 = v;
                    let ghost em0 = emissions@;
                    let labels_copy = clone_labels(&labels);
                    emissions.push(Emission { metric: i, labels: labels_copy, value: v });
                    proof {
                        let pre_steps = steps;
                        steps = steps.push(Ok(Some(v0)));
                        lemma_steps_emits_push(pre_steps, Ok(Some(v0)), 0);
                        assert(emissions_view(emissions@) =~= emissions_view(em0).push(
                            (i as int, v0),
                        ));
                    }
                },
                Ok(None) => {
                    proof {
                        let pre_steps = steps;
                        steps = steps.push(Ok(None));
                        lemma_steps_emits_push(pre_steps, Ok(None), 0);
                    }
                },
            }
            i = i + 1;
        }
        proof {
            assert(registry_dispatch(
                old(self).metrics@,
                self.metrics@,
                fields,
                lbl,
                steps,
                emissions_view(emissions@),
                None,
            ));
        }
        RecordOutcome { emissions, error: None }
    }
}

/// The view of an emission list: metric index and value, in order.
pub open spec fn emissions_view(es: Seq<Emission>) -> Seq<(int, EmitValue)> {
    es.map(|i: int, e: Emission| (e.metric as int, e.value))
}

/// Appending a step extends the induced emissions at the step's index.
proof fn lemma_steps_emits_push(
    steps: Seq<Result<Option<EmitValue>, RecordError>>,
    x: Result<Option<EmitValue>, RecordError>,
    base: int,
)
    ensures
        steps_emits(steps.push(x), base) == (match x {
            Ok(Some(v)) => steps_emits(steps, base).push((base + steps.len(), v)),
            _ => steps_emits(steps, base),
        }),
    decreases steps.len(),
{
    if steps.len() == 0 {
        assert(steps.push(x)[0] == x);
        assert(steps.push(x).skip(1) =~= Seq::<Result<Option<EmitValue>, RecordError>>::empty());
        assert(steps_emits(
            Seq::<Result<Option<EmitValue>, RecordError>>::empty(),
            base + 1,
        ) =~= Seq::<(int, EmitValue)>::empty());
        match x {
            Ok(Some(v)) => {
                assert(steps_emits(steps.push(x), base) =~= seq![(base, v)]);
                assert(steps_emits(steps, base).push((base, v)) =~= seq![(base, v)]);
            },
            _ => {},
        }
    } else {
        assert(steps.push(x)[0] == steps[0]);
        assert(steps.push(x).skip(1) =~= steps.skip(1).push(x));
        lemma_steps_emits_push(steps.skip(1), x, base + 1);
        match steps[0] {
            Ok(Some(v0)) => {
                match x {
                    Ok(Some(v)) => {
                        assert(steps_emits(steps.push(x), base) =~= seq![(base, v0)] + steps_emits(
                            steps.skip(1),
                            base + 1,
                        ).push((base + steps.len(), v)));
                        assert(seq![(base, v0)] + steps_emits(steps.skip(1), base + 1).push(
                            (base + steps.len(), v),
                        ) =~= (seq![(base, v0)] + steps_emits(steps.skip(1), base + 1)).push(
                            (base + steps.len(), v),
                        ));
                    },
                    _ => {},
                }
            },
            _ => {},
        }
    }
}

/// Run one recorder on one event.
fn record_one(rec: &mut Recorder, event: &TraceEvent, labels: &Vec<(String, String)>) -> (r: Result<
    Option<EmitValue>,
    RecordError,
>)
    requires
        old(rec).wf(),
        event.wf(),
    ensures
        final(rec).wf(),
        recorder_step(
            *old(rec),
            *final(rec),
            event.fields_seq(),
            crate::labels::labels_view(labels@),
            r,
        ),
{
    match rec {
        Recorder::Simple(g) => {
            let r0 = g.record(event, labels);
            match r0 {
                Ok(Some(f)) => Ok(Some(EmitValue::Gauge(f))),
                Ok(None) => Ok(None),
                Err(e) => Err(e),
            }
        },
        Recorder::CounterTotal(g) => {
            let r0 = g.record(event);
            match r0 {
                Ok(Some(f)) => Ok(Some(EmitValue::Gauge(f))),
                Ok(None) => Ok(None),
                Err(e) => Err(e),
            }
        },
        Recorder::CounterRate(g) => {
            let r0 = g.record(event, labels);
            match r0 {
                Ok(Some(f)) => Ok(Some(EmitValue::Gauge(f))),
                Ok(None) => Ok(None),
                Err(e) => Err(e),
            }
        },
        Recorder::ElapsedRate(g) => {
            let r0 = g.record(event, labels);
            match r0 {
                Ok(Some(f)) => Ok(Some(EmitValue::Gauge(f))),
                Ok(None) => Ok(None),
                Err(e) => Err(e),
            }
        },
        Recorder::HistogramPercentile(g) => {
            let r0 = g.record(event);
            match r0 {
                Ok(Some(HistogramEmit::Exact(f))) => Ok(Some(EmitValue::Gauge(f))),
                Ok(Some(HistogramEmit::Tail(t))) => Ok(Some(EmitValue::Percentile(t))),
                Ok(None) => Ok(None),
                Err(e) => Err(e),
            }
        },
        Recorder::Severity(g) => {
            let r0 = g.record(event);
            match r0 {
                Ok(true) => Ok(Some(EmitValue::Increment)),
                Ok(false) => Ok(None),
                Err(e) => Err(e),
            }
        },
        Recorder::SlowTask(g) => {
            let r0 = g.record(event);
            match r0 {
                Ok(true) => Ok(Some(EmitValue::Increment)),
                Ok(false) => Ok(None),
                Err(e) => Err(e),
            }
        },
    }
}

/// Copy a label list.
fn clone_labels(labels: &Vec<(String, String)>) -> (r: Vec<(String, String)>)
    ensures
        crate::labels::labels_view(r@) == crate::labels::labels_view(labels@),
{
    let mut out: Vec<(String, String)> = Vec::new();
    let n = labels.len();
    let mut i: usize = 0;
    while i < n
        invariant
            0 <= i <= n,
            n == labels@.len(),
            out@.len() == i,
            forall|j: int|
                0 <= j < i ==> crate::labels::pair_view(#[trigger] out@[j]) == crate::labels::pair_view(
                    labels@[j],
                ),
        decreases n - i,
    {
        out.push((labels[i].0.clone(), labels[i].1.clone()));
        i = i + 1;
    }
    proof {
        assert(crate::labels::labels_view(out@) =~= crate::labels::labels_view(labels@));
    }
    out
}

} // verus!
