//! Day-by-day fitness and fatigue: a dense daily stress series built from
//! scattered activities, and the CTL/ATL/TSB recurrence rolled over it.
use vstd::prelude::*;

use crate::measurements::{Day, MAX_DAY};
use crate::metrics::{
    abs, lemma_next_load_bounded, next_load, DailyTSS, ATL, ATL_DECAY, CTL, CTL_DECAY, MAX_DAILY_TSS, MAX_LOAD, TSB, TSS,
};

verus! {

/// Loads below this magnitude, in millionths, count as settled: the tail of
/// rest days after the last activity ends once all three are below it.
pub const CONVERGENCE_THRESHOLD: i64 = 450_000;

/// Performance management metrics of one day.
#[derive(Clone, Copy, Debug, PartialEq, Eq)]
pub struct DailyStats {
    pub date: Day,
    pub tss: TSS,
    pub ctl: CTL,
    pub atl: ATL,
    pub tsb: TSB,
}

/// The metrics of the day of `daily_tss`, after the day of `prev`.
pub open spec fn next_stats(prev: DailyStats, daily_tss: DailyTSS) -> DailyStats {
    let ctl = next_load(prev.ctl.0 as int, daily_tss.1.0 as int, CTL_DECAY as int);
    let atl = next_load(prev.atl.0 as int, daily_tss.1.0 as int, ATL_DECAY as int);
    DailyStats {
        date: daily_tss.0,
        tss: daily_tss.1,
        ctl: CTL(ctl as i64),
        atl: ATL(atl as i64),
        tsb: TSB((ctl - atl) as i64),
    }
}

/// All three loads are below the convergence threshold.
pub open spec fn converged(s: DailyStats) -> bool {
    -CONVERGENCE_THRESHOLD < s.ctl.0 < CONVERGENCE_THRESHOLD && -CONVERGENCE_THRESHOLD < s.atl.0
        < CONVERGENCE_THRESHOLD && -CONVERGENCE_THRESHOLD < s.tsb.0 < CONVERGENCE_THRESHOLD
}

impl DailyStats {
    /// Loads within the model's range and a balance that is their difference.
    pub open spec fn wf(&self) -> bool {
        &&& self.date.wf()
        &&& -MAX_LOAD <= self.ctl.0 <= MAX_LOAD
        &&& -MAX_LOAD <= self.atl.0 <= MAX_LOAD
        &&& self.tsb.0 == self.ctl.0 - self.atl.0
    }

    /// Next day's metrics from yesterday's metrics and today's accumulated stress.
    pub fn calc_next(yesterdays_stats: &DailyStats, daily_tss: &DailyTSS) -> (r: DailyStats)
        requires
            -MAX_LOAD <= yesterdays_stats.ctl.0 <= MAX_LOAD,
            -MAX_LOAD <= yesterdays_stats.atl.0 <= MAX_LOAD,
            -MAX_DAILY_TSS <= daily_tss.1.0 <= MAX_DAILY_TSS,
        ensures
            r == next_stats(*yesterdays_stats, *daily_tss),
            -MAX_LOAD <= r.ctl.0 <= MAX_LOAD,
            -MAX_LOAD <= r.atl.0 <= MAX_LOAD,
            r.tsb.0 == r.ctl.0 - r.atl.0,
    {
        let ctl = CTL::calculate(&yesterdays_stats.ctl, daily_tss);
        let atl = ATL::calculate(&yesterdays_stats.atl, daily_tss);
        let tsb = TSB::calculate(&ctl, &atl);
        DailyStats { date: daily_tss.0, tss: daily_tss.1, ctl, atl, tsb }
    }
}

/// Stress of all entries dated `d`, summed.
pub open spec fn day_total(s: Seq<DailyTSS>, d: int) -> int
    decreases s.len(),
{
    if s.len() == 0 {
        0
    } else {
        day_total(s.drop_last(), d) + if s.last().0.0 == d {
            s.last().1.0 as int
        } else {
            0
        }
    }
}

/// Entries of stress at most `bound` in magnitude sum, on any date, to at
/// most `bound` per entry.
pub proof fn lemma_day_total_bounded(s: Seq<DailyTSS>, bound: int, d: int)
    requires
        forall|i: int| 0 <= i < s.len() ==> -bound <= (#[trigger] s[i]).1.0 <= bound,
    ensures
        -(s.len() * bound) <= day_total(s, d) <= s.len() * bound,
    decreases s.len(),
{
    if s.len() > 0 {
        let t = s.drop_last();
        assert forall|i: int| 0 <= i < t.len() implies -bound <= (#[trigger] t[i]).1.0 <= bound by {
            assert(t[i] == s[i]);
        }
        lemma_day_total_bounded(t, bound, d);
        assert(-bound <= s[s.len() - 1].1.0 <= bound);
        assert((t.len() + 1) * bound == t.len() * bound + bound) by (nonlinear_arith);
    }
}

/// Earliest date of a non-empty sequence of entries.
pub open spec fn min_date(s: Seq<DailyTSS>) -> int
    decreases s.len(),
{
    if s.len() <= 1 {
        s[0].0.0 as int
    } else {
        let m = min_date(s.drop_last());
        if s.last().0.0 < m {
            s.last().0.0 as int
        } else {
            m
        }
    }
}

/// Latest date of a non-empty sequence of entries.
pub open spec fn max_date(s: Seq<DailyTSS>) -> int
    decreases s.len(),
{
    if s.len() <= 1 {
        s[0].0.0 as int
    } else {
        let m = max_date(s.drop_last());
        if s.last().0.0 > m {
            s.last().0.0 as int
        } else {
            m
        }
    }
}

/// The checkpoint, by value.
pub open spec fn checkpoint_of(c: Option<&DailyStats>) -> Option<DailyStats> {
    match c {
        Some(s) => Some(*s),
        None => None,
    }
}

/// First day of the daily series: the day after the checkpoint, or else the
/// earliest entry.
pub open spec fn series_start(s: Seq<DailyTSS>, checkpoint: Option<DailyStats>) -> int {
    match checkpoint {
        Some(c) => c.date.0 + 1,
        None => min_date(s),
    }
}

/// Number of days of the daily series: through the latest entry, or none.
pub open spec fn series_len(s: Seq<DailyTSS>, checkpoint: Option<DailyStats>) -> int {
    if s.len() == 0 || max_date(s) < series_start(s, checkpoint) {
        0
    } else {
        max_date(s) - series_start(s, checkpoint) + 1
    }
}

/// Each entry is dated the day after the one before it.
pub open spec fn is_contiguous(days: Seq<DailyTSS>) -> bool {
    forall|i: int| 0 <= i && i + 1 < days.len() ==> #[trigger] days[i + 1].0.0 == days[i].0.0 + 1
}

/// Daily stress series, one entry per day, with no day missing.
#[derive(Clone, Debug)]
pub struct SortedDailyTSS {
    days: Vec<DailyTSS>,
}

impl SortedDailyTSS {
    pub closed spec fn view(&self) -> Seq<DailyTSS> {
        self.days@
    }

    /// The days of the series, in order.
    pub fn days(&self) -> (r: &Vec<DailyTSS>)
        ensures
            r@ == self.view(),
    {
        &self.days
    }

    /// Accumulates scattered per-activity stress into a daily series: entries
    /// of one date are summed; days at or before the checkpoint are dropped;
    /// every day from the day after the checkpoint (without one, from the
    /// earliest entry) through the latest entry appears once, in order, with
    /// zero stress where nothing was recorded.
    pub fn from_unsorted(unsorted: &[DailyTSS], last_known_stats: Option<&DailyStats>) -> (r:
        SortedDailyTSS)
        requires
            forall|i: int| 0 <= i < unsorted@.len() ==> (#[trigger] unsorted@[i]).0.wf(),
            last_known_stats matches Some(c) ==> c.date.wf(),
            forall|d: int| i64::MIN <= #[trigger] day_total(unsorted@, d) <= i64::MAX,
        ensures
            r@.len() == series_len(unsorted@, checkpoint_of(last_known_stats)),
            forall|i: int|
                0 <= i < r@.len() ==> (#[trigger] r@[i]).0.0 == series_start(
                    unsorted@,
                    checkpoint_of(last_known_stats),
                ) + i && r@[i].1.0 == day_total(unsorted@, r@[i].0.0 as int),
            is_contiguous(r@),
    {
        let mut days: Vec<DailyTSS> = Vec::new();
        if unsorted.len() == 0 {
            return SortedDailyTSS { days };
        }
        let (first, last) = date_range(unsorted);
        let start: i64 = match last_known_stats {
            Some(c) => c.date.0 + 1,
            None => first,
        };
        if last < start {
            return SortedDailyTSS { days };
        }
        let mut d: i64 = start;
        while d <= last
            invariant
                start <= d <= last + 1,
                last == max_date(unsorted@),
                start == series_start(unsorted@, checkpoint_of(last_known_stats)),
                -MAX_DAY <= last <= MAX_DAY,
                forall|e: int| i64::MIN <= #[trigger] day_total(unsorted@, e) <= i64::MAX,
                days@.len() == d - start,
                forall|i: int|
                    0 <= i < days@.len() ==> (#[trigger] days@[i]).0.0 == start + i
                        && days@[i].1.0 == day_total(unsorted@, days@[i].0.0 as int),
            decreases last + 1 - d,
        {
            let total = total_of_day(unsorted, d);
            days.push(DailyTSS(Day(d), TSS(total)));
            d = d + 1;
        }
        SortedDailyTSS { days }
    }
}

/// Earliest and latest date of a non-empty sequence of entries.
fn date_range(s: &[DailyTSS]) -> (r: (i64, i64))
    requires
        s@.len() > 0,
        forall|i: int| 0 <= i < s@.len() ==> (#[trigger] s@[i]).0.wf(),
    ensures
        r.0 == min_date(s@),
        r.1 == max_date(s@),
        -MAX_DAY <= r.0 <= r.1 <= MAX_DAY,
{
    let mut lo = s[0].0.0;
    let mut hi = s[0].0.0;
    let mut i: usize = 1;
    while i < s.len()
        invariant
            1 <= i <= s@.len(),
            forall|k: int| 0 <= k < s@.len() ==> (#[trigger] s@[k]).0.wf(),
            lo == min_date(s@.take(i as int)),
            hi == max_date(s@.take(i as int)),
            -MAX_DAY <= lo <= hi <= MAX_DAY,
        decreases s@.len() - i,
    {
        proof {
            assert(s@.take(i as int + 1).drop_last() =~= s@.take(i as int));
        }
        let d = s[i].0.0;
        if d < lo {
            lo = d;
        }
        if d > hi {
            hi = d;
        }
        i = i + 1;
    }
    assert(s@.take(i as int) =~= s@);
    (lo, hi)
}

/// Stress of all entries dated `d`, summed.
fn total_of_day(s: &[DailyTSS], d: i64) -> (r: i64)
    requires
        i64::MIN <= day_total(s@, d as int) <= i64::MAX,
    ensures
        r as int == day_total(s@, d as int),
{
    let mut total: i128 = 0;
    let mut i: usize = 0;
    while i < s.len()
        invariant
            i <= s@.len(),
            total as int == day_total(s@.take(i as int), d as int),
            -(i as int) * 0x8000_0000_0000_0000 <= total <= (i as int) * 0x7fff_ffff_ffff_ffff,
        decreases s@.len() - i,
    {
        proof {
            assert(s@.take(i as int + 1).drop_last() =~= s@.take(i as int));
        }
        if s[i].0.0 == d {
            total = total + s[i].1.0 as i128;
        }
        i = i + 1;
    }
    assert(s@.take(i as int) =~= s@);
    total as i64
}

/// The day before the first one rolled over: the checkpoint, or else a state
/// of zero load on the day before the first entry.
pub open spec fn rolling_init(days: Seq<DailyTSS>, checkpoint: Option<DailyStats>) -> DailyStats {
    match checkpoint {
        Some(c) => c,
        None => DailyStats {
            date: Day((days[0].0.0 - 1) as i64),
            tss: TSS(0),
            ctl: CTL(0),
            atl: ATL(0),
            tsb: TSB(0),
        },
    }
}

/// The `i`-th day rolled over: an entry of the series, or a rest day after its last one.
pub open spec fn rolling_day(days: Seq<DailyTSS>, i: int) -> DailyTSS {
    if i < days.len() {
        days[i]
    } else {
        DailyTSS(Day((days.last().0.0 + (i - days.len() + 1)) as i64), TSS(0))
    }
}

/// A series that the load model can roll over.
pub open spec fn rollable(days: Seq<DailyTSS>) -> bool {
    &&& is_contiguous(days)
    &&& forall|i: int| 0 <= i < days.len() ==> (#[trigger] days[i]).0.wf()
    &&& forall|i: int|
        0 <= i < days.len() ==> -MAX_DAILY_TSS <= (#[trigger] days[i]).1.0 <= MAX_DAILY_TSS
}

/// A rest day after an unsettled day lowers the loads.
proof fn lemma_rest_day(prev: DailyStats, day: DailyTSS)
    requires
        -MAX_LOAD <= prev.ctl.0 <= MAX_LOAD,
        -MAX_LOAD <= prev.atl.0 <= MAX_LOAD,
        prev.tsb.0 == prev.ctl.0 - prev.atl.0,
        day.1.0 == 0,
        !converged(prev),
    ensures
        abs(next_stats(prev, day).ctl.0 as int) + abs(next_stats(prev, day).atl.0 as int) < abs(
            prev.ctl.0 as int,
        ) + abs(prev.atl.0 as int),
{
    lemma_next_load_bounded(prev.ctl.0 as int, 0, CTL_DECAY as int);
    lemma_next_load_bounded(prev.atl.0 as int, 0, ATL_DECAY as int);
}

/// Whether all three loads are below the convergence threshold.
fn is_converged(s: &DailyStats) -> (r: bool)
    ensures
        r == converged(*s),
{
    -CONVERGENCE_THRESHOLD < s.ctl.0 && s.ctl.0 < CONVERGENCE_THRESHOLD && -CONVERGENCE_THRESHOLD
        < s.atl.0 && s.atl.0 < CONVERGENCE_THRESHOLD && -CONVERGENCE_THRESHOLD < s.tsb.0 && s.tsb.0
        < CONVERGENCE_THRESHOLD
}

/// Whether a daily series meets `rollable`, the demand of `DailyStats::calc_rolling`.
pub fn rollable_days(days: &Vec<DailyTSS>) -> (r: bool)
    ensures
        r == rollable(days@),
{
    let mut i: usize = 0;
    while i < days.len()
        invariant
            i <= days@.len(),
            rollable(days@.take(i as int)),
        decreases days@.len() - i,
    {
        let DailyTSS(day, tss) = days[i];
        let ok = -MAX_DAY <= day.0 && day.0 <= MAX_DAY && -MAX_DAILY_TSS <= tss.0 && tss.0
            <= MAX_DAILY_TSS && (i == 0 || days[i - 1].0.0 < MAX_DAY && days[i - 1].0.0 + 1 == day.0);
        if !ok {
            proof {
                let j = i as int;
                if !(-MAX_DAY <= day.0 && day.0 <= MAX_DAY) {
                    assert(!days@[j].0.wf());
                } else if !(-MAX_DAILY_TSS <= tss.0 && tss.0 <= MAX_DAILY_TSS) {
                    assert(!(-MAX_DAILY_TSS <= days@[j].1.0 <= MAX_DAILY_TSS));
                } else {
                    assert(!(days@[j - 1 + 1].0.0 == days@[j - 1].0.0 + 1));
                }
            }
            return false;
        }
        proof {
            let a = days@.take(i as int);
            let b = days@.take(i as int + 1);
            assert forall|k: int| 0 <= k && k + 1 < b.len() implies #[trigger] b[k + 1].0.0 == b[k].0.0
                + 1 by {
                if k + 1 < a.len() {
                    assert(b[k + 1] == a[k + 1] && b[k] == a[k]);
                }
            }
            assert forall|k: int| 0 <= k < b.len() implies (#[trigger] b[k]).0.wf() by {
                if k < a.len() {
                    assert(b[k] == a[k]);
                }
            }
            assert forall|k: int| 0 <= k < b.len() implies -MAX_DAILY_TSS <= (#[trigger] b[k]).1.0
                <= MAX_DAILY_TSS by {
                if k < a.len() {
                    assert(b[k] == a[k]);
                }
            }
        }
        i = i + 1;
    }
    assert(days@.take(i as int) =~= days@);
    true
}

impl DailyStats {
    /// Rolls the load model over a daily series, starting from the checkpoint
    /// (or from zero load), then over rest days until the loads settle: every
    /// day of the series gives one entry, and rest days follow while the last
    /// entry has not converged.
    pub fn calc_rolling(sorted_daily_tss: SortedDailyTSS, last_known_stats: Option<&DailyStats>) -> (r:
        Vec<DailyStats>)
        requires
            rollable(sorted_daily_tss@),
            last_known_stats matches Some(c) ==> c.wf(),
        ensures
            sorted_daily_tss@.len() == 0 ==> r@.len() == 0,
            sorted_daily_tss@.len() > 0 ==> {
                &&& r@.len() >= sorted_daily_tss@.len()
                &&& converged(r@.last())
                &&& forall|i: int|
                    sorted_daily_tss@.len() - 1 <= i < r@.len() - 1 ==> !converged(
                        #[trigger] r@[i],
                    )
            },
            forall|i: int|
                0 <= i < r@.len() ==> r@[i] == next_stats(
                    if i == 0 {
                        rolling_init(sorted_daily_tss@, checkpoint_of(last_known_stats))
                    } else {
                        r@[i - 1]
                    },
                    #[trigger] rolling_day(sorted_daily_tss@, i),
                ),
    {
        let ghost init = rolling_init(sorted_daily_tss@, checkpoint_of(last_known_stats));
        let days = sorted_daily_tss.days;
        let mut out: Vec<DailyStats> = Vec::new();
        if days.len() == 0 {
            return out;
        }
        let mut prev: DailyStats = match last_known_stats {
            Some(c) => *c,
            None => DailyStats {
                date: Day(days[0].0.0 - 1),
                tss: TSS(0),
                ctl: CTL(0),
                atl: ATL(0),
                tsb: TSB(0),
            },
        };
        let mut i: usize = 0;
        while i < days.len()
            invariant
                i <= days@.len(),
                rollable(days@),
                -MAX_LOAD <= prev.ctl.0 <= MAX_LOAD,
                -MAX_LOAD <= prev.atl.0 <= MAX_LOAD,
                prev.tsb.0 == prev.ctl.0 - prev.atl.0,
                out@.len() == i,
                i == 0 ==> prev == init,
                i > 0 ==> prev == out@.last(),
                forall|k: int|
                    0 <= k < i ==> out@[k] == next_stats(
                        if k == 0 {
                            init
                        } else {
                            out@[k - 1]
                        },
                        #[trigger] rolling_day(days@, k),
                    ),
            decreases days@.len() - i,
        {
            let next = DailyStats::calc_next(&prev, &days[i]);
            out.push(next);
            prev = next;
            i = i + 1;
        }
        let last_day = days[days.len() - 1].0.0;
        let mut k: i64 = 0;
        while !is_converged(&prev)
            invariant
                days@.len() > 0,
                rollable(days@),
                last_day == days@.last().0.0,
                -MAX_DAY <= last_day <= MAX_DAY,
                -MAX_LOAD <= prev.ctl.0 <= MAX_LOAD,
                -MAX_LOAD <= prev.atl.0 <= MAX_LOAD,
                prev.tsb.0 == prev.ctl.0 - prev.atl.0,
                0 <= k,
                k + abs(prev.ctl.0 as int) + abs(prev.atl.0 as int) <= 2 * MAX_LOAD,
                out@.len() == days@.len() + k,
                prev == out@.last(),
                forall|j: int|
                    days@.len() - 1 <= j < out@.len() - 1 ==> !converged(#[trigger] out@[j]),
                forall|j: int|
                    0 <= j < out@.len() ==> out@[j] == next_stats(
                        if j == 0 {
                            init
                        } else {
                            out@[j - 1]
                        },
                        #[trigger] rolling_day(days@, j),
                    ),
            decreases abs(prev.ctl.0 as int) + abs(prev.atl.0 as int),
        {
            let day = DailyTSS(Day(last_day + k + 1), TSS(0));
            let next = DailyStats::calc_next(&prev, &day);
            proof {
                lemma_rest_day(prev, day);
                assert(day == rolling_day(days@, out@.len() as int));
            }
            let ghost before = out@;
            out.push(next);
            proof {
                assert forall|j: int|
                    days@.len() - 1 <= j < out@.len() - 1 implies !converged(#[trigger] out@[j]) by {
                    if j < before.len() - 1 {
                        assert(out@[j] == before[j]);
                    }
                }
                assert forall|j: int| 0 <= j < out@.len() implies out@[j] == next_stats(
                    if j == 0 {
                        init
                    } else {
                        out@[j - 1]
                    },
                    #[trigger] rolling_day(days@, j),
                ) by {
                    if j < before.len() {
                        assert(out@[j] == before[j]);
                        if j > 0 {
                            assert(out@[j - 1] == before[j - 1]);
                        }
                    }
                }
            }
            prev = next;
            k = k + 1;
        }
        out
    }
}

} // verus!
