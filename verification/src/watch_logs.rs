//! Decisions of the log directory watcher and the per-file tailer.
//!
//! The watcher scans the log directory, keeps the set of files already
//! being tailed, and spawns one tail task per new `trace.*.json` file.
//! The tailer follows one file, retrying on errors and handing each
//! complete line to the registry. The file and timer work runs in the
//! application layer; the decisions — which files to tail, what to do
//! after each read, and what a line contributes — are made here.

use vstd::prelude::*;
use crate::log_metrics::{record_spec, LogMetrics, RecordOutcome};
use crate::text::{spec_ends_with, spec_starts_with, str_ends_with, str_eq, str_starts_with};
use crate::trace_event::{json_fields_of, parse_trace_event};

verus! {

/// Whether a directory entry is a trace log to tail.
pub open spec fn spec_should_tail(name: Seq<char>) -> bool {
    spec_starts_with(name, "trace."@) && spec_ends_with(name, ".json"@)
}

/// A file is tailed when its name starts with `trace.` and ends with
/// `.json`.
pub fn should_tail_file(file_name: &str) -> (r: bool)
    ensures
        r == spec_should_tail(file_name@),
{
    str_starts_with(file_name, "trace.") && str_ends_with(file_name, ".json")
}

/// Whether a path occurs in a list.
pub open spec fn contains_path(v: Seq<String>, p: Seq<char>) -> bool {
    exists|i: int| 0 <= i < v.len() && (#[trigger] v[i])@ == p
}

/// The set of file paths already being tailed. Paths are inserted when a
/// tail task is spawned for them and never removed.
pub struct TailedFiles {
    pub paths: Vec<String>,
}

impl TailedFiles {
    pub fn new() -> (r: TailedFiles)
        ensures
            r.paths@.len() == 0,
    {
        TailedFiles { paths: Vec::new() }
    }

    /// Whether a path is already tailed.
    #[verifier::loop_isolation(false)]
    pub fn contains(&self, path: &str) -> (r: bool)
        ensures
            r == contains_path(self.paths@, path@),
    {
        let n = self.paths.len();
        let mut i: usize = 0;
        while i < n
            invariant
                0 <= i <= n,
                forall|j: int| 0 <= j < i ==> (#[trigger] self.paths@[j])@ != path@,
            decreases n - i,
        {
            if str_eq(self.paths[i].as_str(), path) {
                return true;
            }
            i = i + 1;
        }
        false
    }

    /// Pick the directory entries to start tailing: exactly those whose
    /// name says they are trace logs and that are not yet tailed. The
    /// chosen paths join the tailed set, so no later scan can choose them
    /// again.
    #[verifier::loop_isolation(false)]
    pub fn select_new_files(&mut self, names: &Vec<String>) -> (r: Vec<String>)
        ensures
            // every chosen path is a trace log that was not yet tailed
            forall|k: int|
                0 <= k < r@.len() ==> spec_should_tail((#[trigger] r@[k])@) && !contains_path(
                    old(self).paths@,
                    r@[k]@,
                ),
            // the chosen paths come from the scan
            forall|k: int| 0 <= k < r@.len() ==> contains_path(names@, (#[trigger] r@[k])@),
            // every new trace log in the scan is chosen
            forall|i: int|
                0 <= i < names@.len() && spec_should_tail((#[trigger] names@[i])@)
                    && !contains_path(old(self).paths@, names@[i]@) ==> contains_path(
                    r@,
                    names@[i]@,
                ),
            // no path is chosen twice in one scan
            forall|k1: int, k2: int| 0 <= k1 < k2 < r@.len() ==> (#[trigger] r@[k1])@ != (
            #[trigger] r@[k2])@,
            // the tailed set grows by exactly the chosen paths
            final(self).paths@ == old(self).paths@ + r@,
    {
        let mut out: Vec<String> = Vec::new();
        let n = names.len();
        let mut i: usize = 0;
        proof {
            assert(self.paths@ =~= old(self).paths@ + out@);
        }
        while i < n
            invariant
                0 <= i <= n,
                forall|k: int|
                    0 <= k < out@.len() ==> spec_should_tail((#[trigger] out@[k])@)
                        && !contains_path(old(self).paths@, out@[k]@),
                forall|k: int| 0 <= k < out@.len() ==> contains_path(names@, (#[trigger] out@[k])@),
                forall|k1: int, k2: int|
                    0 <= k1 < k2 < out@.len() ==> (#[trigger] out@[k1])@ != (#[trigger] out@[k2])@,
                forall|j: int|
                    0 <= j < i && spec_should_tail((#[trigger] names@[j])@) && !contains_path(
                        old(self).paths@,
                        names@[j]@,
                    ) ==> contains_path(out@, names@[j]@),
                self.paths@ == old(self).paths@ + out@,
            decreases n - i,
        {
            let name = &names[i];
            if should_tail_file(name.as_str()) && !self.contains(name.as_str()) {
                proof {
                    assert(names@[i as int]@ == name@);
                }
                proof {
                    lemma_contains_append(old(self).paths@, out@, name@);
                    assert(!contains_path(old(self).paths@, name@));
                    assert(!contains_path(out@, name@));
                }
                let ghost paths0 = self.paths@;
                let ghost out0 = out@;
                let c1 = name.clone();
                let c2 = name.clone();
                self.paths.push(c1);
                out.push(c2);
                proof {
                    assert(self.paths@ =~= paths0.push(*name));
                    assert(out@ =~= out0.push(*name));
                    assert(self.paths@ =~= old(self).paths@ + out@);
                    assert(names@[i as int]@ == name@);
                    assert forall|k: int|
                        0 <= k < out@.len() implies spec_should_tail((#[trigger] out@[k])@)
                            && !contains_path(old(self).paths@, out@[k]@) && contains_path(
                            names@,
                            out@[k]@,
                        ) by {
                        if k < out@.len() - 1 {
                            assert(out@[k] == out0[k]);
                        } else {
                            assert(out@[k] == *name);
                        }
                    }
                    assert forall|k1: int, k2: int|
                        0 <= k1 < k2 < out@.len() implies (#[trigger] out@[k1])@ != (
                    #[trigger] out@[k2])@ by {
                        if k2 < out@.len() - 1 {
                            assert(out@[k1] == out0[k1] && out@[k2] == out0[k2]);
                        } else {
                            assert(out@[k1] == out0[k1]);
                            assert(contains_path(out0, out0[k1]@));
                            assert(out@[k2] == *name);
                        }
                    }
                    assert forall|j: int|
                        0 <= j < i + 1 && spec_should_tail((#[trigger] names@[j])@)
                            && !contains_path(old(self).paths@, names@[j]@) implies contains_path(
                        out@,
                        names@[j]@,
                    ) by {
                        if j < i {
                            lemma_contains_push(out0, *name, names@[j]@);
                        } else {
                            assert(out@.last()@ == names@[j]@);
                        }
                    }
                }
            } else {
                proof {
                    assert(names@[i as int]@ == name@);
                    assert forall|j: int|
                        0 <= j < i + 1 && spec_should_tail((#[trigger] names@[j])@)
                            && !contains_path(old(self).paths@, names@[j]@) implies contains_path(
                        out@,
                        names@[j]@,
                    ) by {
                        if j == i {
                            // The name was already tailed: since it is not in
                            // the old set, it entered through this scan.
                            assert(contains_path(self.paths@, name@));
                            lemma_contains_append(old(self).paths@, out@, name@);
                        }
                    }
                }
            }
            i = i + 1;
        }
        out
    }
}

/// Membership in an appended list splits over the parts.
pub proof fn lemma_contains_append(a: Seq<String>, b: Seq<String>, p: Seq<char>)
    ensures
        contains_path(a + b, p) == (contains_path(a, p) || contains_path(b, p)),
{
    if contains_path(a, p) {
        let i = choose|i: int| 0 <= i < a.len() && (#[trigger] a[i])@ == p;
        assert((a + b)[i]@ == p);
    }
    if contains_path(b, p) {
        let i = choose|i: int| 0 <= i < b.len() && (#[trigger] b[i])@ == p;
        assert((a + b)[a.len() + i]@ == p);
    }
    if contains_path(a + b, p) {
        let i = choose|i: int| 0 <= i < (a + b).len() && (#[trigger] (a + b)[i])@ == p;
        if i < a.len() {
            assert(a[i]@ == p);
        } else {
            assert(b[i - a.len()]@ == p);
        }
    }
}

/// Pushing a path extends the membership by exactly that path.
proof fn lemma_contains_push(v: Seq<String>, x: String, p: Seq<char>)
    ensures
        contains_path(v.push(x), p) == (contains_path(v, p) || x@ == p),
{
    if contains_path(v, p) {
        let i = choose|i: int| 0 <= i < v.len() && (#[trigger] v[i])@ == p;
        assert(v.push(x)[i]@ == p);
    }
    if x@ == p {
        assert(v.push(x)[v.len() as int]@ == p);
    }
    if contains_path(v.push(x), p) {
        let i = choose|i: int| 0 <= i < v.push(x).len() && (#[trigger] v.push(x)[i])@ == p;
        if i < v.len() {
            assert(v[i]@ == p);
        }
    }
}

/// Over the whole process life, at most one tail task starts per distinct
/// path: the paths chosen by any two scans are disjoint, because a scan's
/// choices join the tailed set and a later scan never chooses a tailed
/// path. `s0`, `s1` and `s2` are the tailed set before the first scan,
/// between the scans, and after the second; `r1` and `r2` are the two
/// scans' choices, as `select_new_files` relates them.
pub proof fn lemma_one_tailer_per_path(
    s0: Seq<String>,
    s1: Seq<String>,
    r1: Seq<String>,
    r2: Seq<String>,
)
    requires
        s1 == s0 + r1,
        forall|k: int| 0 <= k < r2.len() ==> !contains_path(s1, (#[trigger] r2[k])@),
    ensures
        forall|k1: int, k2: int|
            0 <= k1 < r1.len() && 0 <= k2 < r2.len() ==> (#[trigger] r1[k1])@ != (
            #[trigger] r2[k2])@,
{
    assert forall|k1: int, k2: int|
        0 <= k1 < r1.len() && 0 <= k2 < r2.len() implies (#[trigger] r1[k1])@ != (
    #[trigger] r2[k2])@ by {
        if r1[k1]@ == r2[k2]@ {
            assert(contains_path(r1, r2[k2]@));
            lemma_contains_append(s0, r1, r2[k2]@);
        }
    }
}

/// What the tailer observes after one step of file work.
pub enum TailerEvent {
    /// Opening the file failed.
    OpenFailed,
    /// Seeking to the end of the file failed.
    SeekFailed,
    /// A read returned no bytes: end of file for now.
    ReadEof,
    /// A read returned a complete line.
    ReadLine,
    /// A read failed.
    ReadFailed,
}

/// What the tailer does next.
pub enum TailerAction {
    /// Sleep the given milliseconds, then reopen the file and seek to its
    /// end.
    SleepAndReopen(u64),
    /// Sleep the given milliseconds, then read again from the current
    /// offset.
    SleepAndRead(u64),
    /// Hand the line to the registry, then read again.
    HandleLine,
}

/// The tailer's policy: recoverable open, seek and read errors back off
/// one second and reopen; end of file backs off a quarter second and
/// keeps the offset; a complete line is processed. The tailer never
/// stops.
pub fn tailer_action(event: &TailerEvent) -> (r: TailerAction)
    ensures
        r == (match event {
            TailerEvent::OpenFailed => TailerAction::SleepAndReopen(1000u64),
            TailerEvent::SeekFailed => TailerAction::SleepAndReopen(1000u64),
            TailerEvent::ReadEof => TailerAction::SleepAndRead(250u64),
            TailerEvent::ReadLine => TailerAction::HandleLine,
            TailerEvent::ReadFailed => TailerAction::SleepAndReopen(1000u64),
        }),
{
    match event {
        TailerEvent::OpenFailed => TailerAction::SleepAndReopen(1000),
        TailerEvent::SeekFailed => TailerAction::SleepAndReopen(1000),
        TailerEvent::ReadEof => TailerAction::SleepAndRead(250),
        TailerEvent::ReadLine => TailerAction::HandleLine,
        TailerEvent::ReadFailed => TailerAction::SleepAndReopen(1000),
    }
}

/// What one log line contributed.
pub enum LineOutcome {
    /// The line was blank and was skipped.
    Blank,
    /// The line was not one JSON object: a parse error to count.
    ParseFailed,
    /// The line was dispatched; the outcome carries the emissions and any
    /// recorder error.
    Recorded(RecordOutcome),
}

/// Feed one trimmed log line to the registry: blank lines are skipped,
/// lines that are not JSON objects are parse failures, and JSON objects
/// are dispatched through every recorder.
pub fn handle_log_line(trimmed: &str, metrics: &mut LogMetrics) -> (r: LineOutcome)
    requires
        old(metrics).wf(),
    ensures
        final(metrics).wf(),
        match r {
            LineOutcome::Blank => trimmed@.len() == 0 && *final(metrics) == *old(metrics),
            LineOutcome::ParseFailed => trimmed@.len() > 0 && json_fields_of(trimmed@) is None
                && *final(metrics) == *old(metrics),
            LineOutcome::Recorded(out) => trimmed@.len() > 0 && json_fields_of(trimmed@) is Some
                && record_spec(
                *old(metrics),
                *final(metrics),
                json_fields_of(trimmed@).unwrap(),
                out,
            ),
        },
{
    if trimmed.unicode_len() == 0 {
        return LineOutcome::Blank;
    }
    match parse_trace_event(trimmed) {
        Some(event) => {
            let out = metrics.record(&event);
            LineOutcome::Recorded(out)
        },
        None => LineOutcome::ParseFailed,
    }
}

} // verus!
