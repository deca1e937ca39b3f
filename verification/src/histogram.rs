//! The histogram percentile recorder.
//!
//! FoundationDB emits pre-aggregated histograms as sparse `LessThan<x>`
//! fields with geometric-doubling bucket bounds. This module collects the
//! buckets of a matching event, converts the bounds to base units, fills
//! the gaps with zero-count buckets, accumulates cumulative counts, and
//! selects the bucket spanning the requested percentile. Boundary cases
//! yield an exact value; the interior of a bucket yields the parameters of
//! the exponential-tail interpolation, which the application layer solves
//! in floating point and clamps to the bucket's bounds.

use vstd::prelude::*;
use crate::errors::RecordError;
use crate::fdb_gauge::get_trace_field;
use crate::numbers::{fp_value_of, parse_fp, parse_u64, u64_value_of, Frac};
use crate::text::{spec_starts_with, str_eq, str_starts_with};
use crate::trace_event::{field_str, FieldView, TraceEvent};

verus! {

/// The unit of a histogram's bucket bounds.
#[derive(Clone, Copy, Debug, PartialEq, Eq, Structural)]
pub enum HistogramUnit {
    Milliseconds,
    Bytes,
    Count,
}

/// Divisor from base units to emitted units: latencies are collected in
/// microseconds and emitted in seconds; sizes and counts pass through.
pub open spec fn spec_divisor(u: HistogramUnit) -> int {
    match u {
        HistogramUnit::Milliseconds => 1_000_000,
        HistogramUnit::Bytes => 1,
        HistogramUnit::Count => 1,
    }
}

pub open spec fn imin(a: int, b: int) -> int {
    if a < b {
        a
    } else {
        b
    }
}

/// A `LessThan` bound converted to base units, truncated and clamped to
/// the `u64` range: milliseconds become microseconds, others pass through.
pub open spec fn spec_convert_upper(u: HistogramUnit, fp: int) -> int {
    let d = match u {
        HistogramUnit::Milliseconds => 1_000_000int,
        HistogramUnit::Bytes => 1_000_000_000int,
        HistogramUnit::Count => 1_000_000_000int,
    };
    if fp <= 0 {
        0
    } else {
        imin(fp / d, u64::MAX as int)
    }
}

impl HistogramUnit {
    pub fn divisor(&self) -> (r: i128)
        ensures
            r == spec_divisor(*self),
            r == 1 || r == 1_000_000,
    {
        match self {
            HistogramUnit::Milliseconds => 1_000_000,
            HistogramUnit::Bytes => 1,
            HistogramUnit::Count => 1,
        }
    }

    pub fn convert_bucket_upper(&self, fp: i128) -> (r: u64)
        requires
            -crate::numbers::FP_LIMIT < fp < crate::numbers::FP_LIMIT,
        ensures
            r == spec_convert_upper(*self, fp as int),
    {
        let d: u128 = match self {
            HistogramUnit::Milliseconds => 1_000_000,
            HistogramUnit::Bytes => 1_000_000_000,
            HistogramUnit::Count => 1_000_000_000,
        };
        if fp <= 0 {
            return 0;
        }
        let q = (fp as u128) / d;
        if q > 0xFFFF_FFFF_FFFF_FFFF {
            0xFFFF_FFFF_FFFF_FFFF
        } else {
            q as u64
        }
    }
}

/// One histogram bucket in base units with its running cumulative count.
#[derive(Clone, Copy, Debug, PartialEq, Eq, Structural)]
pub struct HistogramBucket {
    pub lower_bound: u64,
    pub upper_bound: u64,
    pub count: u64,
    pub cumulative_count: u64,
}

/// The parameters of an exponential-tail interpolation inside one bucket.
/// The solved value is clamped to `[lower, upper]`, then divided by
/// `divisor`; `percentile` is a fixed-point fraction of `10^9`.
#[derive(Clone, Copy, Debug, PartialEq, Eq, Structural)]
pub struct TailCase {
    pub lower: u64,
    pub upper: u64,
    pub count: u64,
    pub cumulative: u64,
    pub total: u64,
    pub percentile: i64,
    pub divisor: i128,
}

/// A histogram recorder's emission: an exact fraction, or a tail
/// interpolation for the application layer to solve.
#[derive(Clone, Copy, Debug, PartialEq, Eq, Structural)]
pub enum HistogramEmit {
    Exact(Frac),
    Tail(TailCase),
}

// ---------------------------------------------------------------------
// Bucket collection: `LessThan` fields to a sorted, unique bound list.
// ---------------------------------------------------------------------

/// Insert a bound into a list sorted by bound; an equal bound is replaced.
pub open spec fn sorted_insert(l: Seq<(u64, u64)>, up: u64, c: u64) -> Seq<(u64, u64)>
    decreases l.len(),
{
    if l.len() == 0 {
        seq![(up, c)]
    } else if up < l[0].0 {
        seq![(up, c)] + l
    } else if up == l[0].0 {
        seq![(up, c)] + l.skip(1)
    } else {
        seq![l[0]] + sorted_insert(l.skip(1), up, c)
    }
}

/// An error found while collecting buckets, naming the offending field.
pub enum BucketCollectErr {
    NotString(Seq<char>),
    BadNumber(Seq<char>),
}

/// Fold the event's fields in order into the bound list: every field whose
/// name starts with `LessThan` contributes its suffix (a decimal number,
/// converted to base units) and its value (a decimal count).
pub open spec fn collect_buckets(fields: Seq<FieldView>, unit: HistogramUnit) -> Result<
    Seq<(u64, u64)>,
    BucketCollectErr,
> {
    collect_buckets_rec(fields, unit)
}

pub open spec fn collect_step(acc: Seq<(u64, u64)>, f: FieldView, unit: HistogramUnit) -> Result<
    Seq<(u64, u64)>,
    BucketCollectErr,
> {
    if !spec_starts_with(f.0, "LessThan"@) {
        Ok(acc)
    } else if fp_value_of(f.0.skip(8)) is None {
        Err(BucketCollectErr::BadNumber(f.0))
    } else if f.1 is None {
        Err(BucketCollectErr::NotString(f.0))
    } else if u64_value_of(f.1.unwrap()) is None {
        Err(BucketCollectErr::BadNumber(f.0))
    } else {
        let up = spec_convert_upper(unit, fp_value_of(f.0.skip(8)).unwrap());
        Ok(sorted_insert(acc, up as u64, u64_value_of(f.1.unwrap()).unwrap() as u64))
    }
}

pub open spec fn collect_buckets_rec(fields: Seq<FieldView>, unit: HistogramUnit) -> Result<
    Seq<(u64, u64)>,
    BucketCollectErr,
>
    decreases fields.len(),
{
    if fields.len() == 0 {
        Ok(Seq::empty())
    } else {
        match collect_buckets_rec(fields.drop_last(), unit) {
            Ok(acc) => collect_step(acc, fields.last(), unit),
            Err(e) => Err(e),
        }
    }
}

pub open spec fn bounds_sorted(l: Seq<(u64, u64)>) -> bool {
    forall|i: int, j: int| 0 <= i < j < l.len() ==> (#[trigger] l[i]).0 < (#[trigger] l[j]).0
}

proof fn lemma_sorted_insert_sorted(l: Seq<(u64, u64)>, up: u64, c: u64)
    requires
        bounds_sorted(l),
    ensures
        bounds_sorted(sorted_insert(l, up, c)),
        sorted_insert(l, up, c).len() >= 1,
    decreases l.len(),
{
    let r = sorted_insert(l, up, c);
    if l.len() == 0 {
    } else if up < l[0].0 {
        assert forall|i: int, j: int| 0 <= i < j < r.len() implies (#[trigger] r[i]).0 < (
        #[trigger] r[j]).0 by {
            if i >= 1 {
                assert(r[i] == l[i - 1] && r[j] == l[j - 1]);
            } else if j >= 1 {
                assert(r[j] == l[j - 1]);
                assert(l[0].0 <= l[j - 1].0);
            }
        }
    } else if up == l[0].0 {
        assert forall|i: int, j: int| 0 <= i < j < r.len() implies (#[trigger] r[i]).0 < (
        #[trigger] r[j]).0 by {
            if i >= 1 {
                assert(r[i] == l.skip(1)[i - 1] && r[j] == l.skip(1)[j - 1]);
                assert(l[i] == r[i] && l[j] == r[j]);
            } else {
                assert(r[j] == l[j]);
            }
        }
    } else {
        assert(bounds_sorted(l.skip(1)));
        lemma_sorted_insert_sorted(l.skip(1), up, c);
        let rest = sorted_insert(l.skip(1), up, c);
        assert forall|i: int, j: int| 0 <= i < j < r.len() implies (#[trigger] r[i]).0 < (
        #[trigger] r[j]).0 by {
            if i >= 1 {
                assert(r[i] == rest[i - 1] && r[j] == rest[j - 1]);
            } else {
                assert(r[j] == rest[j - 1]);
                lemma_sorted_insert_members(l.skip(1), up, c, j - 1);
            }
        }
    }
}

/// Every member of an insertion result is the inserted bound or an
/// original member, so it stays above any smaller head.
proof fn lemma_sorted_insert_members(l: Seq<(u64, u64)>, up: u64, c: u64, k: int)
    requires
        0 <= k < sorted_insert(l, up, c).len(),
    ensures
        sorted_insert(l, up, c)[k].0 == up || exists|i: int|
            0 <= i < l.len() && (#[trigger] l[i]).0 == sorted_insert(l, up, c)[k].0,
    decreases l.len(),
{
    let r = sorted_insert(l, up, c);
    if l.len() == 0 {
    } else if up < l[0].0 {
        if k >= 1 {
            assert(r[k] == l[k - 1]);
        }
    } else if up == l[0].0 {
        if k >= 1 {
            assert(r[k] == l.skip(1)[k - 1]);
            assert(l[k] == r[k]);
        }
    } else {
        if k == 0 {
            assert(r[0] == l[0]);
        } else {
            lemma_sorted_insert_members(l.skip(1), up, c, k - 1);
            assert(r[k] == sorted_insert(l.skip(1), up, c)[k - 1]);
            if r[k].0 != up {
                let i = choose|i: int|
                    0 <= i < l.skip(1).len() && (#[trigger] l.skip(1)[i]).0 == r[k].0;
                assert(l[i + 1].0 == r[k].0);
            }
        }
    }
}

/// An error on a prefix of the fields settles the whole fold.
proof fn lemma_collect_err_persists(fields: Seq<FieldView>, unit: HistogramUnit, k: int)
    requires
        0 <= k <= fields.len(),
        collect_buckets_rec(fields.take(k), unit) is Err,
    ensures
        collect_buckets_rec(fields, unit) == collect_buckets_rec(fields.take(k), unit),
    decreases fields.len(),
{
    if k == fields.len() {
        assert(fields.take(k) =~= fields);
    } else {
        assert(fields.drop_last().take(k) =~= fields.take(k));
        lemma_collect_err_persists(fields.drop_last(), unit, k);
    }
}

/// Collect the bucket bounds of an event's fields.
#[verifier::loop_isolation(false)]
fn collect_event_buckets(event: &TraceEvent, unit: HistogramUnit) -> (r: Result<
    Vec<(u64, u64)>,
    RecordError,
>)
    requires
        event.wf(),
    ensures
        match r {
            Ok(v) => collect_buckets(event.fields_seq(), unit) == Ok::<_, BucketCollectErr>(v@)
                && bounds_sorted(v@),
            Err(e) => match collect_buckets(event.fields_seq(), unit) {
                Ok(_) => false,
                Err(BucketCollectErr::NotString(_)) => e is NonStringValue,
                Err(BucketCollectErr::BadNumber(f)) => e matches RecordError::InvalidNumber(g)
                    && g@ == f,
            },
        },
{
    proof {
        reveal_strlit("LessThan");
    }
    let n = event.len();
    let mut out: Vec<(u64, u64)> = Vec::new();
    let mut i: usize = 0;
    proof {
        assert(event.fields_seq().take(0) =~= Seq::<FieldView>::empty());
    }
    while i < n
        invariant
            0 <= i <= n,
            collect_buckets_rec(event.fields_seq().take(i as int), unit) == Ok::<
                _,
                BucketCollectErr,
            >(out@),
            bounds_sorted(out@),
        decreases n - i,
    {
        let key = event.key_at(i);
        let ghost fpre = event.fields_seq().take(i as int);
        let ghost fcur = event.fields_seq().take(i + 1);
        proof {
            assert(fcur.drop_last() =~= fpre);
            assert(fcur.last() == event.fields_seq()[i as int]);
        }
        if str_starts_with(key.as_str(), "LessThan") {
            let suffix = key.as_str().substring_char(8, key.as_str().unicode_len()).to_owned();
            proof {
                assert(suffix@ =~= event.fields_seq()[i as int].0.skip(8));
            }
            let fp = match parse_fp(suffix.as_str()) {
                Some(v) => v,
                None => {
                    proof {
                        lemma_collect_err_persists(event.fields_seq(), unit, i + 1);
                    }
                    return Err(RecordError::InvalidNumber(key));
                },
            };
            let vtext = match event.val_at(i) {
                Some(t) => t,
                None => {
                    proof {
                        lemma_collect_err_persists(event.fields_seq(), unit, i + 1);
                    }
                    return Err(RecordError::NonStringValue);
                },
            };
            let count = match parse_u64(vtext.as_str()) {
                Some(v) => v,
                None => {
                    proof {
                        lemma_collect_err_persists(event.fields_seq(), unit, i + 1);
                    }
                    return Err(RecordError::InvalidNumber(key));
                },
            };
            let upper = unit.convert_bucket_upper(fp);
            let ghost out_pre = out@;
            insert_bound(&mut out, upper, count);
            proof {
                lemma_sorted_insert_sorted(out_pre, upper, count);
                assert(collect_step(out_pre, fcur.last(), unit) == Ok::<_, BucketCollectErr>(
                    sorted_insert(out_pre, upper, count),
                ));
            }
        }
        i = i + 1;
    }
    proof {
        assert(event.fields_seq().take(n as int) =~= event.fields_seq());
    }
    Ok(out)
}

/// Insert a bound into the sorted list, replacing an equal bound.
#[verifier::loop_isolation(false)]
fn insert_bound(l: &mut Vec<(u64, u64)>, up: u64, c: u64)
    requires
        bounds_sorted(old(l)@),
    ensures
        final(l)@ == sorted_insert(old(l)@, up, c),
{
    let n = l.len();
    let mut p: usize = 0;
    proof {
        assert(l@.take(0) =~= Seq::<(u64, u64)>::empty());
        assert(l@.skip(0) =~= l@);
        assert(l@.take(0) + sorted_insert(l@, up, c) =~= sorted_insert(l@, up, c));
    }
    while p < n
        invariant
            0 <= p <= n,
            l == old(l),
            forall|j: int| 0 <= j < p ==> (#[trigger] l@[j]).0 < up,
            sorted_insert(old(l)@, up, c) == l@.take(p as int) + sorted_insert(
                l@.skip(p as int),
                up,
                c,
            ),
        decreases n - p,
    {
        if l[p].0 >= up {
            break ;
        }
        proof {
            let rem = l@.skip(p as int);
            assert(rem[0] == l@[p as int]);
            assert(sorted_insert(rem, up, c) == seq![rem[0]] + sorted_insert(rem.skip(1), up, c));
            assert(rem.skip(1) =~= l@.skip(p + 1));
            assert(l@.take(p as int) + (seq![l@[p as int]] + sorted_insert(l@.skip(p + 1), up, c))
                =~= l@.take(p + 1) + sorted_insert(l@.skip(p + 1), up, c));
        }
        p = p + 1;
    }
    proof {
        let rem = l@.skip(p as int);
        if p < n {
            assert(rem[0] == l@[p as int]);
        }
    }
    if p < n {
        let at = l[p].0;
        if at == up {
            l.set(p, (up, c));
            proof {
                let rem = old(l)@.skip(p as int);
                assert(sorted_insert(rem, up, c) == seq![(up, c)] + rem.skip(1));
                assert(rem.skip(1) =~= old(l)@.skip(p + 1));
                assert(l@ =~= old(l)@.take(p as int) + (seq![(up, c)] + old(l)@.skip(p + 1)));
            }
            return ;
        }
    }
    l.insert(p, (up, c));
    proof {
        let rem = old(l)@.skip(p as int);
        if p < n {
            assert(sorted_insert(rem, up, c) == seq![(up, c)] + rem);
        } else {
            assert(rem =~= Seq::<(u64, u64)>::empty());
            assert(sorted_insert(rem, up, c) == seq![(up, c)]);
        }
        assert(l@ =~= old(l)@.take(p as int) + (seq![(up, c)] + old(l)@.skip(p as int)));
    }
}

// ---------------------------------------------------------------------
// Bucket expansion: gap filling and cumulative counts.
// ---------------------------------------------------------------------

pub open spec fn counts_sum(entries: Seq<(u64, u64)>) -> int
    decreases entries.len(),
{
    if entries.len() == 0 {
        0
    } else {
        counts_sum(entries.drop_last()) + entries.last().1
    }
}

proof fn lemma_counts_sum_prefix_le(entries: Seq<(u64, u64)>, k: int)
    requires
        0 <= k <= entries.len(),
    ensures
        counts_sum(entries.take(k)) <= counts_sum(entries),
        counts_sum(entries) >= 0,
    decreases entries.len(),
{
    if entries.len() == 0 {
        assert(entries.take(k) =~= entries);
    } else if k == entries.len() {
        assert(entries.take(k) =~= entries);
        lemma_counts_sum_prefix_le(entries.drop_last(), entries.len() - 1);
    } else {
        assert(entries.drop_last().take(k) =~= entries.take(k));
        lemma_counts_sum_prefix_le(entries.drop_last(), k);
    }
}

pub open spec fn sat2(e: int) -> int {
    if 2 * e > u64::MAX {
        u64::MAX as int
    } else {
        2 * e
    }
}

/// The bounds of the zero-count buckets synthesised between an expected
/// doubling bound and the next emitted bound.
pub open spec fn gap_uppers(expected: int, upper: int) -> Seq<int>
    decreases upper - expected,
{
    if expected >= upper || expected < 0 || upper > u64::MAX {
        Seq::empty()
    } else if expected == 0 {
        seq![0int]
    } else {
        seq![expected] + gap_uppers(imin(sat2(expected), upper), upper)
    }
}

pub open spec fn mk_bucket(lower: int, upper: int, count: int, cum: int) -> HistogramBucket {
    HistogramBucket {
        lower_bound: lower as u64,
        upper_bound: upper as u64,
        count: count as u64,
        cumulative_count: cum as u64,
    }
}

pub open spec fn gap_buckets(gs: Seq<int>, cum: int) -> Seq<HistogramBucket> {
    gs.map(|i: int, g: int| mk_bucket(g / 2, g, 0, cum))
}

pub open spec fn next_expected(u: int) -> int {
    if 2 * u > u64::MAX {
        u
    } else {
        2 * u
    }
}

/// The full bucket sequence for a sorted bound list: each bound's bucket
/// spans half its bound, gaps are filled with doubling zero-count buckets,
/// and cumulative counts accumulate left to right.
pub open spec fn expand_from(entries: Seq<(u64, u64)>, expected: int, cum: int) -> Seq<
    HistogramBucket,
>
    decreases entries.len(),
{
    if entries.len() == 0 {
        Seq::empty()
    } else {
        let u = entries[0].0 as int;
        let c = entries[0].1 as int;
        gap_buckets(gap_uppers(expected, u), cum) + seq![mk_bucket(u / 2, u, c, cum + c)]
            + expand_from(entries.skip(1), next_expected(u), cum + c)
    }
}

pub open spec fn expand_entries(entries: Seq<(u64, u64)>) -> Seq<HistogramBucket> {
    if entries.len() == 0 {
        Seq::empty()
    } else {
        expand_from(entries, entries[0].0 as int, 0)
    }
}

/// Build the bucket sequence, or `None` when the counts overflow a `u64`.
#[verifier::loop_isolation(false)]
#[verifier::rlimit(60)]
fn expand_buckets(entries: &Vec<(u64, u64)>) -> (r: Option<Vec<HistogramBucket>>)
    requires
        entries@.len() > 0,
    ensures
        match r {
            Some(v) => counts_sum(entries@) <= u64::MAX && v@ == expand_entries(entries@),
            None => counts_sum(entries@) > u64::MAX,
        },
{
    let n = entries.len();
    let mut out: Vec<HistogramBucket> = Vec::new();
    let mut expected: u64 = entries[0].0;
    let mut cum: u64 = 0;
    let mut i: usize = 0;
    proof {
        assert(entries@.skip(0) =~= entries@);
        assert(entries@.take(0) =~= Seq::<(u64, u64)>::empty());
        assert(out@ + expand_from(entries@, expected as int, 0) =~= expand_from(
            entries@,
            expected as int,
            0,
        ));
    }
    while i < n
        invariant
            0 <= i <= n,
            cum == counts_sum(entries@.take(i as int)),
            out@ + expand_from(entries@.skip(i as int), expected as int, cum as int)
                == expand_entries(entries@),
        decreases n - i,
    {
        let u = entries[i].0;
        let c = entries[i].1;
        let ghost rem = entries@.skip(i as int);
        let ghost rest_after = seq![
            mk_bucket(u as int / 2, u as int, c as int, cum as int + c as int),
        ] + expand_from(entries@.skip(i + 1), next_expected(u as int), cum as int + c as int);
        proof {
            assert(rem[0] == entries@[i as int]);
            assert(rem.skip(1) =~= entries@.skip(i + 1));
            assert(expand_from(rem, expected as int, cum as int) == gap_buckets(
                gap_uppers(expected as int, u as int),
                cum as int,
            ) + seq![mk_bucket(u as int / 2, u as int, c as int, cum as int + c as int)]
                + expand_from(entries@.skip(i + 1), next_expected(u as int), cum as int + c as int));
            assert(out@ + (gap_buckets(gap_uppers(expected as int, u as int), cum as int)
                + rest_after) =~= (out@ + gap_buckets(
                gap_uppers(expected as int, u as int),
                cum as int,
            )) + rest_after);
        }
        let mut done_gaps = false;
        while !done_gaps && expected < u
            invariant
                (out@ + gap_buckets(
                    gap_uppers(
                        if done_gaps {
                            u as int
                        } else {
                            expected as int
                        },
                        u as int,
                    ),
                    cum as int,
                )) + rest_after == expand_entries(entries@),
            decreases u - expected, (if done_gaps {
                0int
            } else {
                1int
            }),
        {
            let ghost e0 = expected as int;
            let ghost out0 = out@;
            out.push(
                HistogramBucket {
                    lower_bound: expected / 2,
                    upper_bound: expected,
                    count: 0,
                    cumulative_count: cum,
                },
            );
            proof {
                assert(out@ =~= out0.push(mk_bucket(e0 / 2, e0, 0, cum as int)));
            }
            if expected == 0 {
                done_gaps = true;
                proof {
                    assert(gap_uppers(e0, u as int) =~= seq![0int]);
                    assert(gap_uppers(u as int, u as int) =~= Seq::<int>::empty());
                    assert(gap_buckets(seq![0int], cum as int) =~= seq![
                        mk_bucket(0, 0, 0, cum as int),
                    ]);
                    assert(gap_buckets(Seq::<int>::empty(), cum as int) =~= Seq::<
                        HistogramBucket,
                    >::empty());
                    assert((out@ + gap_buckets(Seq::<int>::empty(), cum as int)) + rest_after =~= (
                    out0 + gap_buckets(seq![0int], cum as int)) + rest_after);
                }
            } else {
                let next0 = match expected.checked_mul(2) {
                    Some(v) => v,
                    None => u64::MAX,
                };
                let next = if next0 > u {
                    u
                } else {
                    next0
                };
                proof {
                    assert(next as int == imin(sat2(e0), u as int));
                    assert(gap_uppers(e0, u as int) == seq![e0] + gap_uppers(
                        next as int,
                        u as int,
                    ));
                    assert(gap_buckets(seq![e0] + gap_uppers(next as int, u as int), cum as int)
                        =~= seq![mk_bucket(e0 / 2, e0, 0, cum as int)] + gap_buckets(
                        gap_uppers(next as int, u as int),
                        cum as int,
                    ));
                    assert((out@ + gap_buckets(gap_uppers(next as int, u as int), cum as int))
                        + rest_after =~= (out0 + gap_buckets(gap_uppers(e0, u as int), cum as int))
                        + rest_after);
                }
                expected = next;
            }
        }
        let cum2 = match cum.checked_add(c) {
            Some(v) => v,
            None => {
                proof {
                    assert(entries@.take(i + 1).drop_last() =~= entries@.take(i as int));
                    assert(entries@.take(i + 1).last() == entries@[i as int]);
                    lemma_counts_sum_prefix_le(entries@, i + 1);
                }
                return None;
            },
        };
        let ghost out1 = out@;
        out.push(
            HistogramBucket { lower_bound: u / 2, upper_bound: u, count: c, cumulative_count: cum2 },
        );
        proof {
            let done_e = if done_gaps {
                u as int
            } else {
                expected as int
            };
            assert(gap_uppers(done_e, u as int) =~= Seq::<int>::empty());
            assert(gap_buckets(Seq::<int>::empty(), cum as int) =~= Seq::<HistogramBucket>::empty());
            assert(out1 + rest_after == expand_entries(entries@)) by {
                assert((out1 + gap_buckets(Seq::<int>::empty(), cum as int)) + rest_after =~= out1
                    + rest_after);
            }
            assert(out@ =~= out1.push(mk_bucket(u as int / 2, u as int, c as int, cum2 as int)));
            assert(out@ + expand_from(entries@.skip(i + 1), next_expected(u as int), cum2 as int)
                =~= out1 + rest_after);
            assert(entries@.take(i + 1).drop_last() =~= entries@.take(i as int));
            assert(entries@.take(i + 1).last() == entries@[i as int]);
        }
        cum = cum2;
        expected = match u.checked_mul(2) {
            Some(v) => v,
            None => u,
        };
        proof {
            assert(expected as int == next_expected(u as int));
        }
        i = i + 1;
    }
    proof {
        assert(entries@.skip(n as int) =~= Seq::<(u64, u64)>::empty());
        assert(expand_from(Seq::<(u64, u64)>::empty(), expected as int, cum as int) =~= Seq::<
            HistogramBucket,
        >::empty());
        assert(out@ =~= expand_entries(entries@));
        assert(entries@.take(n as int) =~= entries@);
        lemma_counts_sum_prefix_le(entries@, n as int);
    }
    Some(out)
}

// ---------------------------------------------------------------------
// Percentile selection and interpolation outcome.
// ---------------------------------------------------------------------

proof fn lemma_rank_mul_bounds(p: int, t: int)
    requires
        0 <= p <= 1_000_000_000,
        0 <= t <= u64::MAX,
    ensures
        0 <= p * t <= 1_000_000_000 * (u64::MAX as int),
{
    assert(0 <= p * t <= 1_000_000_000 * (u64::MAX as int)) by (nonlinear_arith)
        requires
            0 <= p <= 1_000_000_000,
            0 <= t <= u64::MAX,
    ;
}

/// Whether a bucket reaches the rank of percentile `p` (fixed-point of
/// `10^9`) among `total` samples.
pub open spec fn reaches_rank(b: HistogramBucket, total: int, p: int) -> bool {
    b.count != 0 && b.cumulative_count * 1_000_000_000 >= p * total
}

/// Index of the first bucket reaching the rank, or `bs.len()`.
pub open spec fn first_target(bs: Seq<HistogramBucket>, total: int, p: int) -> int
    decreases bs.len(),
{
    if bs.len() == 0 {
        0
    } else if reaches_rank(bs[0], total, p) {
        0
    } else {
        1 + first_target(bs.skip(1), total, p)
    }
}

pub proof fn lemma_first_target_bounds(bs: Seq<HistogramBucket>, total: int, p: int)
    ensures
        0 <= first_target(bs, total, p) <= bs.len(),
        forall|i: int| 0 <= i < first_target(bs, total, p) ==> !reaches_rank(#[trigger] bs[i], total, p),
        first_target(bs, total, p) < bs.len() ==> reaches_rank(bs[first_target(bs, total, p)], total, p),
    decreases bs.len(),
{
    if bs.len() > 0 && !reaches_rank(bs[0], total, p) {
        lemma_first_target_bounds(bs.skip(1), total, p);
        assert forall|i: int| 0 <= i < first_target(bs, total, p) implies !reaches_rank(
            #[trigger] bs[i],
            total,
            p,
        ) by {
            if i >= 1 {
                assert(bs.skip(1)[i - 1] == bs[i]);
            }
        }
        if first_target(bs, total, p) < bs.len() {
            assert(bs.skip(1)[first_target(bs, total, p) - 1] == bs[first_target(bs, total, p)]);
        }
    }
}

/// The bucket the percentile falls in: the first bucket reaching its rank,
/// or the last bucket when none does.
pub open spec fn target_index(bs: Seq<HistogramBucket>, total: int, p: int) -> int {
    if first_target(bs, total, p) < bs.len() {
        first_target(bs, total, p)
    } else {
        bs.len() - 1
    }
}

/// The count below the target bucket; an undercounting cumulative value
/// saturates at zero rather than wrapping.
pub open spec fn prev_count(b: HistogramBucket) -> int {
    if b.cumulative_count >= b.count {
        b.cumulative_count - b.count
    } else {
        0
    }
}

/// The interpolation's outcome: nothing for an empty histogram; the last
/// bound for the full percentile; a bucket bound for the degenerate and
/// boundary cases; otherwise the exponential-tail case for the target
/// bucket, to be solved and clamped to that bucket by the caller.
pub open spec fn interp_outcome(bs: Seq<HistogramBucket>, total: int, p: int, div: int) -> Option<
    HistogramEmit,
> {
    if bs.len() == 0 || total == 0 {
        None
    } else if p >= 1_000_000_000 {
        Some(HistogramEmit::Exact(Frac { num: bs.last().upper_bound as i128, den: div as i128 }))
    } else {
        let b = bs[target_index(bs, total, p)];
        if b.upper_bound == 0 {
            Some(HistogramEmit::Exact(Frac { num: 0, den: div as i128 }))
        } else if b.count == 0 {
            Some(HistogramEmit::Exact(Frac { num: b.upper_bound as i128, den: div as i128 }))
        } else if p * total <= prev_count(b) * 1_000_000_000 {
            Some(HistogramEmit::Exact(Frac { num: b.lower_bound as i128, den: div as i128 }))
        } else {
            Some(
                HistogramEmit::Tail(
                    TailCase {
                        lower: b.lower_bound,
                        upper: b.upper_bound,
                        count: b.count,
                        cumulative: b.cumulative_count,
                        total: total as u64,
                        percentile: p as i64,
                        divisor: div as i128,
                    },
                ),
            )
        }
    }
}

/// Select the percentile's bucket and decide the outcome. `percentile` is
/// a fixed-point fraction of `10^9`.
#[verifier::loop_isolation(false)]
pub fn interpolate_exponential_percentile(
    buckets: &Vec<HistogramBucket>,
    total_count: u64,
    percentile: i64,
    unit_divisor: i128,
) -> (r: Option<HistogramEmit>)
    requires
        0 <= percentile <= 1_000_000_000,
        unit_divisor == 1 || unit_divisor == 1_000_000,
    ensures
        r == interp_outcome(buckets@, total_count as int, percentile as int, unit_divisor as int),
{
    let n = buckets.len();
    if n == 0 || total_count == 0 {
        return None;
    }
    if percentile >= 1_000_000_000 {
        return Some(
            HistogramEmit::Exact(Frac { num: buckets[n - 1].upper_bound as i128, den: unit_divisor }),
        );
    }
    let mut idx: usize = 0;
    let mut found = false;
    while !found && idx < n
        invariant
            0 <= idx <= n,
            forall|i: int|
                0 <= i < idx ==> !reaches_rank(
                    #[trigger] buckets@[i],
                    total_count as int,
                    percentile as int,
                ),
            found ==> idx < n && reaches_rank(
                buckets@[idx as int],
                total_count as int,
                percentile as int,
            ),
        decreases n - idx, (if found {
            0int
        } else {
            1int
        }),
    {
        let b = buckets[idx];
        proof {
            lemma_rank_mul_bounds(percentile as int, total_count as int);
        }
        if b.count != 0 && (b.cumulative_count as i128) * 1_000_000_000 >= (percentile as i128) * (
        total_count as i128) {
            found = true;
        } else {
            idx = idx + 1;
        }
    }
    proof {
        lemma_first_target_bounds(buckets@, total_count as int, percentile as int);
        if found {
            assert(first_target(buckets@, total_count as int, percentile as int) == idx) by {
                let ft = first_target(buckets@, total_count as int, percentile as int);
                if ft < idx {
                    assert(!reaches_rank(buckets@[ft], total_count as int, percentile as int));
                }
                if ft > idx {
                    assert(!reaches_rank(buckets@[idx as int], total_count as int, percentile as int));
                }
            }
        } else {
            assert(first_target(buckets@, total_count as int, percentile as int) == n) by {
                let ft = first_target(buckets@, total_count as int, percentile as int);
                if ft < n {
                    assert(!reaches_rank(buckets@[ft], total_count as int, percentile as int));
                }
            }
        }
    }
    let sel = if found {
        idx
    } else {
        n - 1
    };
    let b = buckets[sel];
    if b.upper_bound == 0 {
        return Some(HistogramEmit::Exact(Frac { num: 0, den: unit_divisor }));
    }
    if b.count == 0 {
        return Some(HistogramEmit::Exact(Frac { num: b.upper_bound as i128, den: unit_divisor }));
    }
    let prev = if b.cumulative_count >= b.count {
        b.cumulative_count - b.count
    } else {
        0
    };
    proof {
        lemma_rank_mul_bounds(percentile as int, total_count as int);
    }
    if (percentile as i128) * (total_count as i128) <= (prev as i128) * 1_000_000_000 {
        return Some(HistogramEmit::Exact(Frac { num: b.lower_bound as i128, den: unit_divisor }));
    }
    Some(
        HistogramEmit::Tail(
            TailCase {
                lower: b.lower_bound,
                upper: b.upper_bound,
                count: b.count,
                cumulative: b.cumulative_count,
                total: total_count,
                percentile,
                divisor: unit_divisor,
            },
        ),
    )
}

// ---------------------------------------------------------------------
// The histogram percentile recorder.
// ---------------------------------------------------------------------

/// The unit named by an event's `Unit` field, if recognised.
pub open spec fn unit_of(s: Seq<char>) -> Option<HistogramUnit> {
    if s == "milliseconds"@ {
        Some(HistogramUnit::Milliseconds)
    } else if s == "bytes"@ {
        Some(HistogramUnit::Bytes)
    } else if s == "count"@ {
        Some(HistogramUnit::Count)
    } else {
        None
    }
}

/// Interpolates one percentile of the histograms of one `(Group, Op)`.
pub struct HistogramPercentileFDBGauge {
    /// The percentile as a fixed-point fraction of `10^9`.
    pub percentile: i64,
    pub group: String,
    pub op: String,
    pub gauge_name: String,
    pub description: String,
}

/// What `HistogramPercentileFDBGauge::record` does: skip events that are
/// not histograms of the configured group and operation or whose unit is
/// unknown; require a positive `TotalCount`; collect and expand the
/// `LessThan` buckets; and emit the interpolation outcome.
pub open spec fn histogram_record_spec(
    pre: HistogramPercentileFDBGauge,
    fields: Seq<FieldView>,
    r: Result<Option<HistogramEmit>, RecordError>,
) -> bool {
    let ev = crate::trace_event::fields_map(fields);
    let ty = field_str(ev, "Type"@);
    let gr = field_str(ev, "Group"@);
    let op = field_str(ev, "Op"@);
    let un = field_str(ev, "Unit"@);
    let tc = field_str(ev, "TotalCount"@);
    if ty is None {
        r matches Err(RecordError::MissingField(f)) && f@ == "Type"@
    } else if ty != Some("Histogram"@) {
        r == Result::<Option<HistogramEmit>, RecordError>::Ok(None)
    } else if gr is None {
        r matches Err(RecordError::MissingField(f)) && f@ == "Group"@
    } else if gr != Some(pre.group@) {
        r == Result::<Option<HistogramEmit>, RecordError>::Ok(None)
    } else if op is None {
        r matches Err(RecordError::MissingField(f)) && f@ == "Op"@
    } else if op != Some(pre.op@) {
        r == Result::<Option<HistogramEmit>, RecordError>::Ok(None)
    } else if un is None {
        r matches Err(RecordError::MissingField(f)) && f@ == "Unit"@
    } else if unit_of(un.unwrap()) is None {
        r == Result::<Option<HistogramEmit>, RecordError>::Ok(None)
    } else if tc is None {
        r matches Err(RecordError::MissingField(f)) && f@ == "TotalCount"@
    } else if u64_value_of(tc.unwrap()) is None {
        r matches Err(RecordError::InvalidNumber(f)) && f@ == "TotalCount"@
    } else if u64_value_of(tc.unwrap()) == Some(0int) {
        r == Result::<Option<HistogramEmit>, RecordError>::Ok(None)
    } else {
        let unit = unit_of(un.unwrap()).unwrap();
        let total = u64_value_of(tc.unwrap()).unwrap();
        match collect_buckets(fields, unit) {
            Err(BucketCollectErr::NotString(_)) => r matches Err(e) && e is NonStringValue,
            Err(BucketCollectErr::BadNumber(f)) => r matches Err(RecordError::InvalidNumber(g))
                && g@ == f,
            Ok(entries) => {
                if entries.len() == 0 {
                    r == Result::<Option<HistogramEmit>, RecordError>::Ok(None)
                } else if counts_sum(entries) > u64::MAX {
                    r matches Err(RecordError::ValueOutOfRange(f)) && f@ == "LessThan"@
                } else {
                    r == Result::<Option<HistogramEmit>, RecordError>::Ok(
                        interp_outcome(
                            expand_entries(entries),
                            total,
                            pre.percentile as int,
                            spec_divisor(unit),
                        ),
                    )
                }
            },
        }
    }
}

impl HistogramPercentileFDBGauge {
    pub fn new(
        group: String,
        op: String,
        percentile: i64,
        gauge_name: String,
        description: String,
    ) -> (r: HistogramPercentileFDBGauge)
        requires
            0 <= percentile <= 1_000_000_000,
        ensures
            r.group == group,
            r.op == op,
            r.percentile == percentile,
            r.gauge_name == gauge_name,
            r.description == description,
    {
        HistogramPercentileFDBGauge { percentile, group, op, gauge_name, description }
    }

    /// Record one event: exactly `histogram_record_spec`.
    pub fn record(&self, event: &TraceEvent) -> (r: Result<Option<HistogramEmit>, RecordError>)
        requires
            event.wf(),
            0 <= self.percentile <= 1_000_000_000,
        ensures
            histogram_record_spec(*self, event.fields_seq(), r),
    {
        let trace_type = match get_trace_field(event, "Type") {
            Ok(t) => t,
            Err(e) => {
                return Err(e);
            },
        };
        if !str_eq(trace_type.as_str(), "Histogram") {
            return Ok(None);
        }
        let group = match get_trace_field(event, "Group") {
            Ok(t) => t,
            Err(e) => {
                return Err(e);
            },
        };
        if !str_eq(group.as_str(), self.group.as_str()) {
            return Ok(None);
        }
        let op = match get_trace_field(event, "Op") {
            Ok(t) => t,
            Err(e) => {
                return Err(e);
            },
        };
        if !str_eq(op.as_str(), self.op.as_str()) {
            return Ok(None);
        }
        let unit_text = match get_trace_field(event, "Unit") {
            Ok(t) => t,
            Err(e) => {
                return Err(e);
            },
        };
        let unit = if str_eq(unit_text.as_str(), "milliseconds") {
            HistogramUnit::Milliseconds
        } else if str_eq(unit_text.as_str(), "bytes") {
            HistogramUnit::Bytes
        } else if str_eq(unit_text.as_str(), "count") {
            HistogramUnit::Count
        } else {
            return Ok(None);
        };
        let total_text = match get_trace_field(event, "TotalCount") {
            Ok(t) => t,
            Err(e) => {
                return Err(e);
            },
        };
        let total_count = match parse_u64(total_text.as_str()) {
            Some(v) => v,
            None => {
                return Err(RecordError::InvalidNumber(String::from_str("TotalCount")));
            },
        };
        if total_count == 0 {
            return Ok(None);
        }
        let entries = match collect_event_buckets(event, unit) {
            Ok(v) => v,
            Err(e) => {
                return Err(e);
            },
        };
        if entries.len() == 0 {
            return Ok(None);
        }
        let buckets = match expand_buckets(&entries) {
            Some(v) => v,
            None => {
                return Err(RecordError::ValueOutOfRange(String::from_str("LessThan")));
            },
        };
        let divisor = unit.divisor();
        Ok(interpolate_exponential_percentile(&buckets, total_count, self.percentile, divisor))
    }
}

// ---------------------------------------------------------------------
// Laws of the interpolation.
// ---------------------------------------------------------------------

/// The zero percentile lands on the first non-empty bucket's lower bound.
/// When the first bucket is non-empty, that is the first bucket's lower
/// bound.
pub proof fn lemma_percentile_zero(bs: Seq<HistogramBucket>, total: int, div: int)
    requires
        bs.len() > 0,
        total > 0,
        exists|i: int| 0 <= i < bs.len() && (#[trigger] bs[i]).count != 0,
        forall|i: int|
            0 <= i < bs.len() ==> (#[trigger] bs[i]).lower_bound == bs[i].upper_bound / 2,
    ensures
        ({
            let k = target_index(bs, total, 0);
            &&& interp_outcome(bs, total, 0, div) == Some(
                HistogramEmit::Exact(Frac { num: bs[k].lower_bound as i128, den: div as i128 }),
            )
            &&& bs[k].count != 0
            &&& forall|i: int| 0 <= i < k ==> (#[trigger] bs[i]).count == 0
        }),
{
    lemma_first_target_bounds(bs, total, 0);
    let ft = first_target(bs, total, 0);
    let w = choose|i: int| 0 <= i < bs.len() && (#[trigger] bs[i]).count != 0;
    assert(ft <= w) by {
        if ft > w {
            assert(!reaches_rank(bs[w], total, 0));
            assert(bs[w].cumulative_count * 1_000_000_000 >= 0);
        }
    }
    let k = target_index(bs, total, 0);
    assert(k == ft);
    assert(reaches_rank(bs[k], total, 0));
    let b = bs[k];
    assert(0 * total <= prev_count(b) * 1_000_000_000) by {
        assert(prev_count(b) >= 0);
        assert(prev_count(b) * 1_000_000_000 >= 0) by (nonlinear_arith)
            requires
                prev_count(b) >= 0,
        ;
    }
    if b.upper_bound == 0 {
        assert(b.lower_bound == 0);
    }
    assert forall|i: int| 0 <= i < k implies (#[trigger] bs[i]).count == 0 by {
        assert(!reaches_rank(bs[i], total, 0));
        assert(bs[i].cumulative_count * 1_000_000_000 >= 0);
    }
}

/// The full percentile lands on the last bucket's upper bound.
pub proof fn lemma_percentile_one(bs: Seq<HistogramBucket>, total: int, div: int)
    requires
        bs.len() > 0,
        total > 0,
    ensures
        interp_outcome(bs, total, 1_000_000_000, div) == Some(
            HistogramEmit::Exact(Frac { num: bs.last().upper_bound as i128, den: div as i128 }),
        ),
{
}

/// The bucket the interpolation selects advances with the percentile, and
/// every emitted value is confined to its bucket's bounds (the tail case
/// by the caller's clamp). The ordering of two tail values inside one
/// bucket rests on the monotone exponential solve in the application
/// layer, which floating point keeps out of this crate.
pub proof fn lemma_percentile_monotone(bs: Seq<HistogramBucket>, total: int, p1: int, p2: int)
    requires
        total > 0,
        0 <= p1 <= p2,
    ensures
        first_target(bs, total, p1) <= first_target(bs, total, p2),
        target_index(bs, total, p1) <= target_index(bs, total, p2),
    decreases bs.len(),
{
    if bs.len() > 0 {
        assert(p1 * total <= p2 * total) by (nonlinear_arith)
            requires
                0 <= p1 <= p2,
                total > 0,
        ;
        if reaches_rank(bs[0], total, p2) {
            assert(reaches_rank(bs[0], total, p1));
        }
        lemma_percentile_monotone(bs.skip(1), total, p1, p2);
        lemma_first_target_bounds(bs, total, p1);
        lemma_first_target_bounds(bs, total, p2);
    }
}

/// Every outcome lies within the selected bucket's bounds: an exact value
/// is one of the bucket's bounds (or zero for the zero bucket), and a tail
/// case carries the bucket's own bounds for the caller's clamp.
pub proof fn lemma_outcome_in_bucket(bs: Seq<HistogramBucket>, total: int, p: int, div: int)
    requires
        bs.len() > 0,
        total > 0,
        0 <= p < 1_000_000_000,
        div == 1 || div == 1_000_000,
        forall|i: int|
            0 <= i < bs.len() ==> (#[trigger] bs[i]).lower_bound <= bs[i].upper_bound,
    ensures
        ({
            let b = bs[target_index(bs, total, p)];
            match interp_outcome(bs, total, p, div) {
                Some(HistogramEmit::Exact(f)) => b.lower_bound <= f.num <= b.upper_bound && f.den
                    == div,
                Some(HistogramEmit::Tail(t)) => t.lower == b.lower_bound && t.upper
                    == b.upper_bound,
                None => false,
            }
        }),
{
    lemma_first_target_bounds(bs, total, p);
    let b = bs[target_index(bs, total, p)];
    if b.upper_bound == 0 {
        assert(b.lower_bound == 0);
    }
}

// ---------------------------------------------------------------------
// Well-formedness of expanded bucket sequences.
// ---------------------------------------------------------------------

/// What expansion guarantees: every bucket spans half its bound, bounds
/// never decrease, and cumulative counts chain left to right.
pub open spec fn buckets_wf(bs: Seq<HistogramBucket>) -> bool {
    &&& forall|i: int|
        0 <= i < bs.len() ==> (#[trigger] bs[i]).lower_bound == bs[i].upper_bound / 2
    &&& forall|i: int, j: int|
        0 <= i <= j < bs.len() ==> (#[trigger] bs[i]).upper_bound <= (#[trigger] bs[j]).upper_bound
    &&& forall|i: int|
        0 <= i < bs.len() ==> (#[trigger] bs[i]).cumulative_count == (if i == 0 {
            bs[0].count as int
        } else {
            bs[i - 1].cumulative_count + bs[i].count
        })
}

/// The synthesised gap bounds ascend within `[expected, upper)`.
proof fn lemma_gap_uppers_range(expected: int, upper: int)
    requires
        0 <= expected,
        upper <= u64::MAX,
    ensures
        forall|i: int|
            0 <= i < gap_uppers(expected, upper).len() ==> expected <= #[trigger] gap_uppers(
                expected,
                upper,
            )[i] < upper,
        forall|i: int, j: int|
            0 <= i < j < gap_uppers(expected, upper).len() ==> #[trigger] gap_uppers(
                expected,
                upper,
            )[i] < #[trigger] gap_uppers(expected, upper)[j],
    decreases upper - expected,
{
    let gs = gap_uppers(expected, upper);
    if expected >= upper || upper > u64::MAX {
    } else if expected == 0 {
    } else {
        let nxt = imin(sat2(expected), upper);
        lemma_gap_uppers_range(nxt, upper);
        assert forall|i: int| 0 <= i < gs.len() implies expected <= #[trigger] gs[i] < upper by {
            if i >= 1 {
                assert(gs[i] == gap_uppers(nxt, upper)[i - 1]);
            }
        }
        assert forall|i: int, j: int| 0 <= i < j < gs.len() implies #[trigger] gs[i] < #[trigger] gs[j] by {
            if i >= 1 {
                assert(gs[i] == gap_uppers(nxt, upper)[i - 1]);
                assert(gs[j] == gap_uppers(nxt, upper)[j - 1]);
            } else {
                assert(gs[j] == gap_uppers(nxt, upper)[j - 1]);
            }
        }
    }
}

/// Expansion from a given doubling bound and cumulative base yields
/// well-formed buckets whose bounds start no lower than the smaller of
/// the expected bound and the first entry's bound, and whose first
/// cumulative count continues the base.
proof fn lemma_expand_from_wf(entries: Seq<(u64, u64)>, expected: int, cum: int)
    requires
        bounds_sorted(entries),
        0 <= expected <= u64::MAX,
        0 <= cum,
        cum + counts_sum_front(entries) <= u64::MAX,
    ensures
        ({
            let bs = expand_from(entries, expected, cum);
            &&& forall|i: int|
                0 <= i < bs.len() ==> (#[trigger] bs[i]).lower_bound == bs[i].upper_bound / 2
            &&& forall|i: int, j: int|
                0 <= i <= j < bs.len() ==> (#[trigger] bs[i]).upper_bound <= (
                #[trigger] bs[j]).upper_bound
            &&& forall|i: int|
                0 <= i < bs.len() ==> (#[trigger] bs[i]).cumulative_count == (if i == 0 {
                    cum + bs[0].count
                } else {
                    bs[i - 1].cumulative_count + bs[i].count
                })
            &&& entries.len() > 0 ==> bs.len() > 0 && (forall|i: int|
                0 <= i < bs.len() ==> imin(expected, entries[0].0 as int) <= (
                #[trigger] bs[i]).upper_bound)
        }),
    decreases entries.len(),
{
    if entries.len() == 0 {
    } else {
        let u = entries[0].0 as int;
        let c = entries[0].1 as int;
        let gs = gap_uppers(expected, u);
        let gaps = gap_buckets(gs, cum);
        let emit = mk_bucket(u / 2, u, c, cum + c);
        let tail_entries = entries.skip(1);
        let rest = expand_from(tail_entries, next_expected(u), cum + c);
        let bs = expand_from(entries, expected, cum);
        assert(bs =~= gaps + seq![emit] + rest);
        lemma_gap_uppers_range(expected, u);
        assert(bounds_sorted(tail_entries));
        assert(counts_sum_front(entries) == c + counts_sum_front(tail_entries));
        lemma_counts_sum_front_nonneg(tail_entries);
        assert(0 <= next_expected(u) <= u64::MAX);
        lemma_expand_from_wf(tail_entries, next_expected(u), cum + c);
        assert forall|i: int|
            0 <= i < bs.len() implies (#[trigger] bs[i]).lower_bound == bs[i].upper_bound / 2
                && imin(expected, u) <= bs[i].upper_bound && bs[i].cumulative_count == (if i == 0 {
                cum + bs[0].count
            } else {
                bs[i - 1].cumulative_count + bs[i].count
            }) by {
            let g = gaps.len();
            if i < g {
                assert(bs[i] == gaps[i]);
                assert(gaps[i] == mk_bucket(gs[i] / 2, gs[i], 0, cum));
                if i >= 1 {
                    assert(bs[i - 1] == gaps[i - 1]);
                }
            } else if i == g {
                assert(bs[i] == emit);
                if i >= 1 {
                    assert(bs[i - 1] == gaps[i - 1]);
                }
            } else {
                assert(bs[i] == rest[i - g - 1]);
                if tail_entries.len() > 0 {
                    assert(u < tail_entries[0].0 as int) by {
                        assert(entries[1].0 == tail_entries[0].0);
                    }
                    assert(imin(next_expected(u), tail_entries[0].0 as int) >= u);
                }
                if i - g - 1 == 0 {
                    assert(bs[i - 1] == emit);
                    assert(rest[0].cumulative_count == (cum + c) + rest[0].count);
                } else {
                    assert(bs[i - 1] == rest[i - g - 2]);
                }
            }
        }
        assert forall|i: int, j: int|
            0 <= i <= j < bs.len() implies (#[trigger] bs[i]).upper_bound <= (
        #[trigger] bs[j]).upper_bound by {
            let g = gaps.len();
            let ub = |k: int|
                if k < g {
                    gs[k]
                } else if k == g {
                    u
                } else {
                    rest[k - g - 1].upper_bound as int
                };
            if tail_entries.len() > 0 {
                assert(u < tail_entries[0].0 as int) by {
                    assert(entries[1].0 == tail_entries[0].0);
                }
                assert(imin(next_expected(u), tail_entries[0].0 as int) >= u);
            }
            if i < g {
                assert(bs[i] == gaps[i]);
            } else if i == g {
                assert(bs[i] == emit);
            } else {
                assert(bs[i] == rest[i - g - 1]);
            }
            if j < g {
                assert(bs[j] == gaps[j]);
            } else if j == g {
                assert(bs[j] == emit);
            } else {
                assert(bs[j] == rest[j - g - 1]);
            }
        }
    }
}

/// Counts summed from the front, for the recursion over suffixes.
pub open spec fn counts_sum_front(entries: Seq<(u64, u64)>) -> int
    decreases entries.len(),
{
    if entries.len() == 0 {
        0
    } else {
        entries[0].1 + counts_sum_front(entries.skip(1))
    }
}

proof fn lemma_counts_sum_front_nonneg(entries: Seq<(u64, u64)>)
    ensures
        counts_sum_front(entries) >= 0,
    decreases entries.len(),
{
    if entries.len() > 0 {
        lemma_counts_sum_front_nonneg(entries.skip(1));
    }
}

/// The two summation orders agree.
proof fn lemma_counts_sum_agree(entries: Seq<(u64, u64)>)
    ensures
        counts_sum_front(entries) == counts_sum(entries),
    decreases entries.len(),
{
    if entries.len() == 0 {
    } else if entries.len() == 1 {
        assert(entries.skip(1) =~= Seq::<(u64, u64)>::empty());
        assert(entries.drop_last() =~= Seq::<(u64, u64)>::empty());
        assert(counts_sum_front(Seq::<(u64, u64)>::empty()) == 0);
        assert(counts_sum(Seq::<(u64, u64)>::empty()) == 0);
        assert(entries.last() == entries[0]);
    } else {
        let t = entries.skip(1);
        let dl = entries.drop_last();
        lemma_counts_sum_agree(t);
        lemma_counts_sum_agree(dl);
        lemma_counts_sum_agree(t.drop_last());
        assert(dl.skip(1) =~= t.drop_last());
        assert(t.last() == entries.last());
        assert(dl[0] == entries[0]);
        assert(counts_sum_front(dl) == dl[0].1 + counts_sum_front(dl.skip(1)));
        assert(counts_sum_front(entries) == entries[0].1 + counts_sum_front(t));
        assert(counts_sum(t) == counts_sum(t.drop_last()) + t.last().1);
        assert(counts_sum(entries) == counts_sum(dl) + entries.last().1);
    }
}

/// The bucket sequence a sorted bound list expands to is well formed, so
/// the percentile laws above apply to every histogram the recorder
/// actually builds.
pub proof fn lemma_expand_entries_wf(entries: Seq<(u64, u64)>)
    requires
        bounds_sorted(entries),
        counts_sum(entries) <= u64::MAX,
    ensures
        buckets_wf(expand_entries(entries)),
        entries.len() > 0 ==> expand_entries(entries).len() > 0,
{
    if entries.len() > 0 {
        lemma_counts_sum_agree(entries);
        lemma_expand_from_wf(entries, entries[0].0 as int, 0);
    }
}

} // verus!
