//! The rolling-window smoother.
//!
//! Rate-like gauges do not emit each sample directly; they emit the
//! arithmetic mean of the samples seen in the last fifteen seconds of event
//! time, kept separately for every label set. A window keeps its full
//! sample history as ghost state, so the contract can say exactly which
//! samples the emitted mean ranges over.

use vstd::prelude::*;
use crate::assoc::{assoc_map, assoc_unique, lemma_assoc_map_contains, lemma_assoc_map_index,
    lemma_assoc_map_update};
use crate::labels::{LabelKey, PairView, label_key_eq};
use crate::numbers::{FP_LIMIT, FP_SCALE, Frac};

verus! {

/// Window width in fixed-point seconds: fifteen seconds.
pub const ROLLING_WINDOW_FP: i128 = 15_000_000_000;

/// One observation: event time and value, both fixed-point.
#[derive(Clone, Copy, Debug, PartialEq, Eq, Structural)]
pub struct TimedSample {
    pub time: i128,
    pub value: i128,
}

pub open spec fn sample_bounded(s: TimedSample) -> bool {
    -FP_LIMIT < s.time < FP_LIMIT && -FP_LIMIT < s.value < FP_LIMIT
}

pub open spec fn samples_bounded(s: Seq<TimedSample>) -> bool {
    forall|i: int| 0 <= i < s.len() ==> sample_bounded(#[trigger] s[i])
}

/// Drop samples from the front while they fall out of the window ending at
/// `now`.
pub open spec fn evict(s: Seq<TimedSample>, now: int) -> Seq<TimedSample>
    decreases s.len(),
{
    if s.len() > 0 && now - s[0].time > ROLLING_WINDOW_FP {
        evict(s.skip(1), now)
    } else {
        s
    }
}

/// The samples still held after pushing every history entry in turn and
/// evicting at each step: the window's entire life, folded.
pub open spec fn live_of(h: Seq<TimedSample>) -> Seq<TimedSample>
    decreases h.len(),
{
    if h.len() == 0 {
        Seq::empty()
    } else {
        evict(live_of(h.drop_last()).push(h.last()), h.last().time as int)
    }
}

pub open spec fn sum_values(s: Seq<TimedSample>) -> int
    decreases s.len(),
{
    if s.len() == 0 {
        0
    } else {
        sum_values(s.drop_last()) + s.last().value
    }
}

/// All left-to-right partial sums stay within `i128`.
pub open spec fn sums_in_range(s: Seq<TimedSample>) -> bool {
    forall|k: int| 0 <= k <= s.len() ==> i128::MIN <= sum_values(#[trigger] s.take(k)) <= i128::MAX
}

pub open spec fn times_sorted(h: Seq<TimedSample>) -> bool {
    forall|i: int, j: int|
        0 <= i <= j < h.len() ==> (#[trigger] h[i]).time <= (#[trigger] h[j]).time
}

/// The window state for one label set.
pub struct SampleWindow {
    pub samples: Vec<TimedSample>,
    pub hist: Ghost<Seq<TimedSample>>,
}

impl SampleWindow {
    pub open spec fn wf(self) -> bool {
        self.samples@ == live_of(self.hist@) && samples_bounded(self.hist@)
    }
}

pub type KeyView = Seq<PairView>;

/// Per-label-set rolling windows, keyed by canonicalised label sets.
pub struct RollingWindows {
    pub entries: Vec<(LabelKey, SampleWindow)>,
}

impl RollingWindows {
    pub open spec fn entries_view(self) -> Seq<(KeyView, Seq<TimedSample>)> {
        self.entries@.map(|i: int, e: (LabelKey, SampleWindow)| (e.0@, e.1.hist@))
    }

    /// All sample histories, by label set.
    pub open spec fn hist_map(self) -> Map<KeyView, Seq<TimedSample>> {
        assoc_map(self.entries_view())
    }

    /// The history for one label set; empty when none has been seen.
    pub open spec fn hist_of(self, k: KeyView) -> Seq<TimedSample> {
        if self.hist_map().contains_key(k) {
            self.hist_map()[k]
        } else {
            Seq::empty()
        }
    }

    pub open spec fn wf(self) -> bool {
        &&& assoc_unique(self.entries_view())
        &&& forall|i: int|
            0 <= i < self.entries@.len() ==> (#[trigger] self.entries@[i]).1.wf()
    }

    pub fn new() -> (r: RollingWindows)
        ensures
            r.wf(),
            r.hist_map() =~= Map::<KeyView, Seq<TimedSample>>::empty(),
    {
        RollingWindows { entries: Vec::new() }
    }

    /// Record one sample under a label set and return the smoothed value:
    /// the exact mean of the samples remaining in that label set's window,
    /// or `None` when their sum does not fit in an `i128`.
    #[verifier::loop_isolation(false)]
    pub fn observe(&mut self, key: LabelKey, time: i128, value: i128) -> (r: Option<Frac>)
        requires
            old(self).wf(),
            -FP_LIMIT < time < FP_LIMIT,
            -FP_LIMIT < value < FP_LIMIT,
        ensures
            final(self).wf(),
            final(self).hist_map() =~= old(self).hist_map().insert(
                key@,
                old(self).hist_of(key@).push(TimedSample { time, value }),
            ),
            ({
                let live = live_of(old(self).hist_of(key@).push(TimedSample { time, value }));
                match r {
                    Some(f) => sums_in_range(live) && f.num == sum_values(live) && f.den
                        == live.len() * FP_SCALE && f.wf(),
                    None => !sums_in_range(live),
                }
            }),
    {
        let ts = TimedSample { time, value };
        let n = self.entries.len();
        let mut i: usize = 0;
        while i < n
            invariant
                0 <= i <= n,
                self == old(self),
                forall|j: int| 0 <= j < i ==> (#[trigger] old(self).entries_view()[j]).0 != key@,
            decreases n - i,
        {
            if label_key_eq(&self.entries[i].0, &key) {
                proof {
                    lemma_assoc_map_index(self.entries_view(), i as int);
                }
                let mut entry = self.entries.remove(i);
                let ghost old_hist = entry.1.hist@;
                proof {
                    assert(old(self).entries@[i as int].1.wf());
                    lemma_live_of_bounded(old_hist);
                }
                entry.1.samples.push(ts);
                entry.1.hist = Ghost(old_hist.push(ts));
                proof {
                    assert(entry.1.hist@.drop_last() =~= old_hist);
                    assert(live_of(entry.1.hist@) == evict(
                        live_of(old_hist).push(ts),
                        time as int,
                    ));
                    assert(samples_bounded(entry.1.samples@)) by {
                        assert(forall|j: int|
                            0 <= j < entry.1.samples@.len() - 1 ==> #[trigger] entry.1.samples@[j]
                                == live_of(old_hist)[j]);
                    }
                }
                evict_front(&mut entry.1.samples, time);
                proof {
                    lemma_evict_keeps_recent(live_of(old_hist).push(ts), time as int);
                }
                let r = window_mean(&entry.1.samples);
                proof {
                    lemma_live_of_bounded(entry.1.hist@);
                }
                let ghost pre = self.entries@;
                self.entries.insert(i, entry);
                proof {
                    let ev0 = old(self).entries_view();
                    assert(self.entries@ =~= old(self).entries@.update(i as int, entry));
                    assert(self.entries_view() =~= ev0.update(i as int, (ev0[i as int].0, entry.1.hist@)));
                    lemma_assoc_map_update(ev0, i as int, entry.1.hist@);
                }
                return r;
            }
            i = i + 1;
        }
        proof {
            lemma_assoc_map_contains(self.entries_view(), key@);
            assert(!self.hist_map().contains_key(key@));
        }
        let mut samples: Vec<TimedSample> = Vec::new();
        samples.push(ts);
        let window = SampleWindow { samples, hist: Ghost(Seq::empty().push(ts)) };
        proof {
            assert(window.hist@.drop_last() =~= Seq::<TimedSample>::empty());
            assert(live_of(Seq::<TimedSample>::empty()) =~= Seq::<TimedSample>::empty());
            let pushed = Seq::<TimedSample>::empty().push(ts);
            assert(evict(pushed, time as int) == pushed);
            assert(live_of(window.hist@) =~= pushed);
            assert(window.samples@ =~= pushed);
        }
        self.entries.push((key, window));
        proof {
            let ev0 = old(self).entries_view();
            assert(self.entries_view() =~= ev0.push((self.entries@.last().0@, window.hist@)));
            assert(self.entries_view().drop_last() =~= ev0);
            let live = live_of(old(self).hist_of(self.entries@.last().0@).push(ts));
            assert(live =~= Seq::<TimedSample>::empty().push(ts));
            assert(live.take(0) =~= Seq::<TimedSample>::empty());
            assert(live.take(1) =~= live);
            assert(live.drop_last() =~= Seq::<TimedSample>::empty());
            assert(sum_values(Seq::<TimedSample>::empty()) == 0);
            assert(sum_values(live) == value);
            assert forall|k: int| 0 <= k <= live.len() implies i128::MIN <= sum_values(
                #[trigger] live.take(k),
            ) <= i128::MAX by {
                if k == 0 {
                    assert(live.take(0) =~= Seq::<TimedSample>::empty());
                } else {
                    assert(live.take(k) =~= live);
                    assert(sum_values(live) == value);
                }
            }
        }
        Some(Frac { num: value, den: FP_SCALE })
    }
}

/// Number of samples evicted from the front for the window ending at `now`.
pub open spec fn evict_count(s: Seq<TimedSample>, now: int) -> int
    decreases s.len(),
{
    if s.len() > 0 && now - s[0].time > ROLLING_WINDOW_FP {
        1 + evict_count(s.skip(1), now)
    } else {
        0
    }
}

pub proof fn lemma_evict_count(s: Seq<TimedSample>, now: int)
    ensures
        0 <= evict_count(s, now) <= s.len(),
        evict(s, now) == s.skip(evict_count(s, now)),
        forall|i: int| 0 <= i < evict_count(s, now) ==> now - (#[trigger] s[i]).time > ROLLING_WINDOW_FP,
        evict_count(s, now) < s.len() ==> now - s[evict_count(s, now)].time <= ROLLING_WINDOW_FP,
    decreases s.len(),
{
    if s.len() > 0 && now - s[0].time > ROLLING_WINDOW_FP {
        lemma_evict_count(s.skip(1), now);
        let c = evict_count(s.skip(1), now);
        assert(s.skip(1).skip(c) =~= s.skip(c + 1));
        assert forall|i: int| 0 <= i < evict_count(s, now) implies now - (#[trigger] s[i]).time
            > ROLLING_WINDOW_FP by {
            if i >= 1 {
                assert(s.skip(1)[i - 1] == s[i]);
            }
        }
        if c < s.skip(1).len() {
            assert(s.skip(1)[c] == s[c + 1]);
        }
    } else {
        assert(s.skip(0) =~= s);
    }
}

/// Dropping already-evicted samples does not change the window.
proof fn lemma_evict_skip(s: Seq<TimedSample>, k: int, now: int)
    requires
        0 <= k <= s.len(),
        forall|i: int| 0 <= i < k ==> now - (#[trigger] s[i]).time > ROLLING_WINDOW_FP,
    ensures
        evict(s, now) == evict(s.skip(k), now),
    decreases k,
{
    if k == 0 {
        assert(s.skip(0) =~= s);
    } else {
        assert(now - s[0].time > ROLLING_WINDOW_FP);
        assert forall|i: int| 0 <= i < k - 1 implies now - (#[trigger] s.skip(1)[i]).time
            > ROLLING_WINDOW_FP by {
            assert(s.skip(1)[i] == s[i + 1]);
        }
        lemma_evict_skip(s.skip(1), k - 1, now);
        assert(s.skip(1).skip(k - 1) =~= s.skip(k));
    }
}

/// Under nondecreasing event times, the folded window equals one eviction
/// pass at the newest time.
proof fn lemma_live_of_sorted(h: Seq<TimedSample>)
    requires
        times_sorted(h),
        h.len() > 0,
    ensures
        live_of(h) == evict(h, h.last().time as int),
    decreases h.len(),
{
    let h0 = h.drop_last();
    let x = h.last();
    if h0.len() == 0 {
        assert(live_of(h0) =~= Seq::<TimedSample>::empty());
        assert(live_of(h0).push(x) =~= h);
    } else {
        assert(times_sorted(h0));
        lemma_live_of_sorted(h0);
        let now0 = h0.last().time as int;
        lemma_evict_count(h0, now0);
        let c0 = evict_count(h0, now0);
        assert(live_of(h0) == h0.skip(c0));
        assert(h0.skip(c0).push(x) =~= h.skip(c0));
        assert(h0.last().time <= x.time) by {
            assert(h[h.len() - 2].time <= h[h.len() - 1].time);
        }
        assert forall|i: int| 0 <= i < c0 implies (x.time as int) - (#[trigger] h[i]).time
            > ROLLING_WINDOW_FP by {
            assert(h0[i] == h[i]);
            assert(now0 - h0[i].time > ROLLING_WINDOW_FP);
        }
        lemma_evict_skip(h, c0, x.time as int);
    }
}

/// With nondecreasing event times, the window's live samples are exactly
/// the history entries whose time lies within the window span of the
/// newest time: the suffix from `evict_count` on, and a history entry
/// stands there if and only if it is at most the window width older than
/// the newest sample. Together with `observe`'s contract, the smoothed
/// value is the arithmetic mean of exactly those samples.
pub proof fn lemma_window_is_recent_suffix(h: Seq<TimedSample>)
    requires
        times_sorted(h),
        h.len() > 0,
    ensures
        live_of(h) == h.skip(evict_count(h, h.last().time as int)),
        forall|i: int|
            0 <= i < h.len() ==> (i >= evict_count(h, h.last().time as int)) == ((
            h.last().time as int) - (#[trigger] h[i]).time <= ROLLING_WINDOW_FP),
{
    let now = h.last().time as int;
    lemma_live_of_sorted(h);
    lemma_evict_count(h, now);
    let c = evict_count(h, now);
    assert forall|i: int| 0 <= i < h.len() implies (i >= c) == (now - (#[trigger] h[i]).time
        <= ROLLING_WINDOW_FP) by {
        if i >= c {
            assert(c < h.len());
            assert(h[c].time <= h[i].time);
        }
    }
}

/// A window never evicts a sample as recent as the window's end.
proof fn lemma_evict_keeps_recent(s: Seq<TimedSample>, now: int)
    requires
        s.len() > 0,
        now - s.last().time <= ROLLING_WINDOW_FP,
    ensures
        evict(s, now).len() > 0,
        evict(s, now).last() == s.last(),
    decreases s.len(),
{
    if now - s[0].time > ROLLING_WINDOW_FP {
        assert(s.len() > 1);
        assert(s.skip(1).last() == s.last());
        lemma_evict_keeps_recent(s.skip(1), now);
    }
}

proof fn lemma_evict_bounded(s: Seq<TimedSample>, now: int)
    requires
        samples_bounded(s),
    ensures
        samples_bounded(evict(s, now)),
    decreases s.len(),
{
    if s.len() > 0 && now - s[0].time > ROLLING_WINDOW_FP {
        assert(samples_bounded(s.skip(1)));
        lemma_evict_bounded(s.skip(1), now);
    }
}

proof fn lemma_live_of_bounded(h: Seq<TimedSample>)
    requires
        samples_bounded(h),
    ensures
        samples_bounded(live_of(h)),
    decreases h.len(),
{
    if h.len() > 0 {
        assert(samples_bounded(h.drop_last()));
        lemma_live_of_bounded(h.drop_last());
        let pushed = live_of(h.drop_last()).push(h.last());
        assert(samples_bounded(pushed));
        lemma_evict_bounded(pushed, h.last().time as int);
    }
}

/// Remove samples older than the window from the front.
#[verifier::loop_isolation(false)]
fn evict_front(samples: &mut Vec<TimedSample>, now: i128)
    requires
        samples_bounded(old(samples)@),
        -FP_LIMIT < now < FP_LIMIT,
    ensures
        final(samples)@ == evict(old(samples)@, now as int),
{
    loop
        invariant
            samples_bounded(samples@),
            evict(samples@, now as int) == evict(old(samples)@, now as int),
        decreases samples@.len(),
    {
        if samples.len() > 0 {
            let front = samples[0];
            if now - front.time > ROLLING_WINDOW_FP {
                let ghost pre = samples@;
                let _ = samples.remove(0);
                proof {
                    assert(samples@ =~= pre.skip(1));
                    assert(samples_bounded(samples@));
                }
                continue ;
            }
        }
        break ;
    }
}

/// Sum the window's samples, or `None` when a partial sum overflows.
#[verifier::loop_isolation(false)]
fn window_sum(samples: &Vec<TimedSample>) -> (r: Option<i128>)
    ensures
        match r {
            Some(v) => sums_in_range(samples@) && v == sum_values(samples@),
            None => !sums_in_range(samples@),
        },
{
    let n = samples.len();
    let mut acc: i128 = 0;
    let mut i: usize = 0;
    while i < n
        invariant
            0 <= i <= n,
            acc == sum_values(samples@.take(i as int)),
            forall|k: int|
                0 <= k <= i ==> i128::MIN <= sum_values(#[trigger] samples@.take(k)) <= i128::MAX,
        decreases n - i,
    {
        proof {
            assert(samples@.take(i + 1).drop_last() =~= samples@.take(i as int));
            assert(samples@.take(i + 1).last() == samples@[i as int]);
        }
        match acc.checked_add(samples[i].value) {
            Some(v) => {
                acc = v;
            },
            None => {
                return None;
            },
        }
        i = i + 1;
    }
    proof {
        assert(samples@.take(n as int) =~= samples@);
        assert forall|k: int| 0 <= k <= samples@.len() implies i128::MIN <= sum_values(
            #[trigger] samples@.take(k),
        ) <= i128::MAX by {}
    }
    Some(acc)
}

/// The smoothed value: the mean of the window as an exact fraction.
fn window_mean(samples: &Vec<TimedSample>) -> (r: Option<Frac>)
    requires
        samples@.len() > 0,
    ensures
        match r {
            Some(f) => sums_in_range(samples@) && f.num == sum_values(samples@) && f.den
                == samples@.len() * FP_SCALE && f.wf(),
            None => !sums_in_range(samples@),
        },
{
    match window_sum(samples) {
        Some(sum) => {
            let count = samples.len();
            proof {
                assert((count as i128) * FP_SCALE <= 0xFFFF_FFFF_FFFF_FFFFi128 * FP_SCALE) by (
                    nonlinear_arith)
                    requires
                        0 < count <= 0xFFFF_FFFF_FFFF_FFFFu64 as usize || count
                            <= 0xFFFF_FFFF_FFFF_FFFFi128,
                ;
                assert((count as i128) * FP_SCALE >= FP_SCALE) by (nonlinear_arith)
                    requires
                        count >= 1,
                ;
            }
            Some(Frac { num: sum, den: (count as i128) * FP_SCALE })
        },
        None => None,
    }
}

} // verus!
