//! Analysis of one activity from its decoded samples.
use vstd::prelude::*;

use std::collections::HashMap;
use vstd::std_specs::hash::obeys_key_model;

use crate::measurements::{lemma_sum_of_push, sum_of, trunc_div, values_of, Altitude, AltitudeDiff, Average, HeartRate, Power, Speed, Work};
use crate::metrics::{
    altitudes, calc_altitude_changes, lemma_change_start, lemma_change_step,
    lemma_change_sums_prefix, calc_normalized_power, calc_total_work, gain_sum,
    has_drop, has_rise, hr_tss_value, is_normalized_power, loss_sum, powers_in_range,
    tss_value, IF, MAX_DURATION, MAX_POWER, RATIO_SCALE, TSS, VI,
};
use crate::peak::{is_peak_at, Peak};

verus! {

broadcast use vstd::std_specs::hash::group_hash_axioms;

/// The samples and session values of one decoded activity. Timestamps are
/// seconds since the Unix epoch; samples come one per second, in time order.
pub struct Activity {
    pub workout_name: Option<String>,
    pub start_time: Option<i64>,
    /// Duration in seconds.
    pub duration: Option<i64>,
    pub power: Vec<(Power, i64)>,
    pub heart_rate: Vec<(HeartRate, i64)>,
    pub speed: Vec<(Speed, i64)>,
    pub altitude: Vec<Altitude>,
}

/// The metrics of timestamped samples, without their timestamps.
pub open spec fn metrics_of<T>(m: Seq<(T, i64)>) -> Seq<T> {
    m.map_values(|e: (T, i64)| e.0)
}

/// Peaks of one metric by duration, in seconds: each requested duration that
/// the samples cover maps to the peak over it.
pub open spec fn is_peak_map<T: Average>(
    r: Map<i64, Peak<T>>,
    m: Seq<(T, i64)>,
    durations: Seq<i64>,
) -> bool {
    &&& forall|d: i64| #[trigger] r.contains_key(d) <==> durations.contains(d) && m.len() >= d
    &&& forall|d: i64| #[trigger] r.contains_key(d) ==> exists|i: int| is_peak_at(r[d], m, d as int, i)
}

/// Highest performance values achieved over given durations.
#[derive(Debug)]
pub struct PeakPerformances {
    pub power: HashMap<i64, Peak<Power>>,
    pub heart_rate: HashMap<i64, Peak<HeartRate>>,
    pub speed: HashMap<i64, Peak<Speed>>,
}

impl PeakPerformances {
    /// Peaks of power, heart rate and speed over each duration, in seconds.
    pub fn from_data(
        power_data: &Vec<(Power, i64)>,
        heart_rate_data: &Vec<(HeartRate, i64)>,
        speed_data: &Vec<(Speed, i64)>,
        peak_durations: &Vec<i64>,
    ) -> (r: Self)
        requires
            forall|i: int| 0 <= i < peak_durations@.len() ==> #[trigger] peak_durations@[i] >= 1,
        ensures
            is_peak_map(r.power@, power_data@, peak_durations@),
            is_peak_map(r.heart_rate@, heart_rate_data@, peak_durations@),
            is_peak_map(r.speed@, speed_data@, peak_durations@),
    {
        PeakPerformances {
            power: Self::get_one(power_data, peak_durations),
            heart_rate: Self::get_one(heart_rate_data, peak_durations),
            speed: Self::get_one(speed_data, peak_durations),
        }
    }

    /// Peaks of one metric over each duration.
    fn get_one<T: Average + Copy>(data_with_timestamps: &Vec<(T, i64)>, peak_durations: &Vec<i64>) -> (r:
        HashMap<i64, Peak<T>>)
        requires
            forall|i: int| 0 <= i < peak_durations@.len() ==> #[trigger] peak_durations@[i] >= 1,
        ensures
            is_peak_map(r@, data_with_timestamps@, peak_durations@),
    {
        let mut peaks: HashMap<i64, Peak<T>> = HashMap::new();
        let mut i: usize = 0;
        while i < peak_durations.len()
            invariant
                i <= peak_durations@.len(),
                forall|k: int| 0 <= k < peak_durations@.len() ==> #[trigger] peak_durations@[k] >= 1,
                is_peak_map(peaks@, data_with_timestamps@, peak_durations@.take(i as int)),
            decreases peak_durations@.len() - i,
        {
            let d = peak_durations[i];
            let ghost seen = peak_durations@.take(i as int);
            let ghost next = peak_durations@.take(i as int + 1);
            assert(next =~= seen.push(d));
            let ghost before = peaks@;
            match Peak::from_measurement_records(data_with_timestamps, d) {
                Some(p) => {
                    let ghost gp = p;
                    proof {
                        let j = choose|j: int| is_peak_at(gp, data_with_timestamps@, d as int, j);
                        assert(is_peak_at(gp, data_with_timestamps@, d as int, j));
                    }
                    peaks.insert(d, p);
                    proof {
                        assert(obeys_key_model::<i64>());
                        assert(peaks@ == before.insert(d, gp));
                        assert(peaks@[d] == gp);
                        assert forall|e: i64| #[trigger] peaks@.contains_key(e) implies exists|j: int|
                            is_peak_at(peaks@[e], data_with_timestamps@, e as int, j) by {
                            if e != d {
                                assert(peaks@[e] == before[e]);
                                assert(before.contains_key(e));
                            }
                        }
                    }
                },
                None => {},
            }
            proof {
                assert forall|e: i64| #[trigger] next.contains(e) <==> seen.contains(e) || e == d by {
                    if next.contains(e) && e != d {
                        let k = choose|k: int| 0 <= k < next.len() && next[k] == e;
                        assert(seen[k] == e);
                    }
                    if seen.contains(e) {
                        let k = choose|k: int| 0 <= k < seen.len() && seen[k] == e;
                        assert(next[k] == e);
                    }
                    if e == d {
                        assert(next[i as int] == e);
                    }
                }
            }
            i = i + 1;
        }
        assert(peak_durations@.take(i as int) =~= peak_durations@);
        peaks
    }
}

/// Results of a full activity analysis.
#[derive(Debug)]
pub struct ActivityAnalysis {
    pub total_work: Work,
    pub normalized_power: Option<Power>,
    pub intensity_factor: Option<IF>,
    pub variability_index: Option<VI>,
    pub tss: Option<TSS>,
    pub hr_tss: Option<TSS>,
    pub average_power: Option<Power>,
    pub maximum_power: Option<Power>,
    pub average_heart_rate: Option<HeartRate>,
    pub maximum_heart_rate: Option<HeartRate>,
    pub average_speed: Option<Speed>,
    pub maximum_speed: Option<Speed>,
    pub elevation_gain: Option<AltitudeDiff>,
    pub elevation_loss: Option<AltitudeDiff>,
    pub peak_performances: PeakPerformances,
}

/// `r` is the mean of the values of `s`, or `None` when there are none.
pub open spec fn is_average_of<T: Average>(s: Seq<T>, r: Option<T>) -> bool {
    &&& r is None <==> s.len() == 0
    &&& r matches Some(a) ==> a.value() == crate::measurements::mean_of(values_of(s))
}

/// `r` is a largest element of `s`, or `None` when there are none.
pub open spec fn is_maximum_of<T: Average>(s: Seq<T>, r: Option<T>) -> bool {
    &&& r is None <==> s.len() == 0
    &&& r matches Some(m) ==> (exists|i: int| 0 <= i < s.len() && s[i] == m) && forall|i: int|
        0 <= i < s.len() ==> (#[trigger] s[i]).value() <= m.value()
}

/// A largest element.
fn maximum<T: Average + Copy>(data: &Vec<T>) -> (r: Option<T>)
    ensures
        is_maximum_of(data@, r),
{
    if data.len() == 0 {
        return None;
    }
    let mut best = data[0];
    let ghost mut at: int = 0;
    let mut i: usize = 1;
    while i < data.len()
        invariant
            1 <= i <= data@.len(),
            0 <= at < data@.len(),
            data@[at] == best,
            forall|k: int| 0 <= k < i ==> (#[trigger] data@[k]).value() <= best.value(),
        decreases data@.len() - i,
    {
        if data[i].to_i64() > best.to_i64() {
            best = data[i];
            proof {
                at = i as int;
            }
        }
        i = i + 1;
    }
    Some(best)
}

/// The metrics of timestamped samples, without their timestamps.
fn strip_timestamps<T: Copy>(data: &Vec<(T, i64)>) -> (r: Vec<T>)
    ensures
        r@ == metrics_of(data@),
{
    let mut r: Vec<T> = Vec::new();
    let mut i: usize = 0;
    while i < data.len()
        invariant
            i <= data@.len(),
            r@ == metrics_of(data@.take(i as int)),
        decreases data@.len() - i,
    {
        r.push(data[i].0);
        proof {
            assert(metrics_of(data@.take(i as int + 1)) =~= metrics_of(data@.take(i as int)).push(
                data@[i as int].0,
            ));
        }
        i = i + 1;
    }
    assert(data@.take(i as int) =~= data@);
    r
}

impl Activity {
    /// Power samples within the range of the power-based formulas, whose sum
    /// and altitude changes fit the measurement types.
    pub open spec fn wf(&self) -> bool {
        &&& powers_in_range(values_of(metrics_of(self.power@)))
        &&& i64::MIN <= sum_of(values_of(metrics_of(self.power@))) <= i64::MAX
        &&& gain_sum(altitudes(self.altitude@)) <= i64::MAX
        &&& loss_sum(altitudes(self.altitude@)) <= i64::MAX
    }

    /// Whether the activity meets `wf`, the demand of `ActivityAnalysis::from_activity`.
    pub fn is_valid(&self) -> (r: bool)
        ensures
            r == self.wf(),
    {
        let ghost power = values_of(metrics_of(self.power@));
        let mut total: i128 = 0;
        let mut i: usize = 0;
        while i < self.power.len()
            invariant
                i <= self.power@.len(),
                power == values_of(metrics_of(self.power@)),
                powers_in_range(power.take(i as int)),
                total as int == sum_of(power.take(i as int)),
                -(i as int) * MAX_POWER <= total <= (i as int) * MAX_POWER,
            decreases self.power@.len() - i,
        {
            let p = self.power[i].0.0;
            assert(power[i as int] == p);
            if p < -MAX_POWER || p > MAX_POWER {
                return false;
            }
            proof {
                assert(power.take(i as int + 1) =~= power.take(i as int).push(p as int));
                lemma_sum_of_push(power.take(i as int), p as int);
            }
            total = total + p as i128;
            i = i + 1;
        }
        assert(power.take(i as int) =~= power);
        if total < i64::MIN as i128 || total > i64::MAX as i128 {
            return false;
        }
        let ghost alts = altitudes(self.altitude@);
        proof {
            lemma_change_start(alts);
        }
        if self.altitude.len() < 2 {
            return true;
        }
        let mut gain: i128 = 0;
        let mut loss: i128 = 0;
        let mut k: usize = 1;
        while k < self.altitude.len()
            invariant
                1 <= k <= self.altitude@.len(),
                alts == altitudes(self.altitude@),
                gain as int == gain_sum(alts.take(k as int)),
                loss as int == loss_sum(alts.take(k as int)),
                0 <= gain <= i64::MAX,
                0 <= loss <= i64::MAX,
            decreases self.altitude@.len() - k,
        {
            let prev = self.altitude[k - 1].0 as i128;
            let next = self.altitude[k].0 as i128;
            proof {
                lemma_change_step(alts, k as int);
                lemma_change_sums_prefix(alts, k as int + 1);
            }
            if prev < next {
                gain = gain + (next - prev);
            } else if prev > next {
                loss = loss + (prev - next);
            }
            if gain > i64::MAX as i128 || loss > i64::MAX as i128 {
                return false;
            }
            k = k + 1;
        }
        assert(alts.take(k as int) =~= alts);
        true
    }
}

impl ActivityAnalysis {
    /// Analyses an activity for an athlete with threshold power `ftp` and
    /// threshold heart rate `fthr` on its day. A metric whose inputs are
    /// missing is `None`: the stress score without a threshold power in
    /// `1..=MAX_POWER`, a duration within `MAX_DURATION` or a normalized
    /// power; the intensity factor without a positive threshold power; the
    /// variability index without a positive average power.
    pub fn from_activity(
        ftp: &Option<Power>,
        fthr: &Option<HeartRate>,
        activity: &Activity,
        peak_durations: &Vec<i64>,
    ) -> (r: Self)
        requires
            activity.wf(),
            forall|i: int| 0 <= i < peak_durations@.len() ==> #[trigger] peak_durations@[i] >= 1,
        ensures
            ({
                let power = values_of(metrics_of(activity.power@));
                let alts = altitudes(activity.altitude@);
                &&& r.total_work.0 == sum_of(power)
                &&& is_normalized_power(power, r.normalized_power)
                &&& is_average_of(metrics_of(activity.power@), r.average_power)
                &&& is_maximum_of(metrics_of(activity.power@), r.maximum_power)
                &&& is_average_of(metrics_of(activity.heart_rate@), r.average_heart_rate)
                &&& is_maximum_of(metrics_of(activity.heart_rate@), r.maximum_heart_rate)
                &&& is_average_of(metrics_of(activity.speed@), r.average_speed)
                &&& is_maximum_of(metrics_of(activity.speed@), r.maximum_speed)
                &&& r.intensity_factor == match (*ftp, r.normalized_power) {
                    (Some(f), Some(np)) if f.0 > 0 => Some(
                        IF(trunc_div(np.0 * RATIO_SCALE, f.0 as int) as i64),
                    ),
                    _ => None,
                }
                &&& r.variability_index == match (r.normalized_power, r.average_power) {
                    (Some(np), Some(avg)) if avg.0 > 0 => Some(
                        VI(trunc_div(np.0 * RATIO_SCALE, avg.0 as int) as i64),
                    ),
                    _ => None,
                }
                &&& r.tss == match (*ftp, activity.duration, r.normalized_power) {
                    (Some(f), Some(d), Some(np)) if 0 < f.0 <= MAX_POWER && -MAX_DURATION <= d
                        <= MAX_DURATION => Some(TSS(tss_value(f.0 as int, d as int, np.0 as int) as i64)),
                    _ => None,
                }
                &&& r.hr_tss == match *fthr {
                    Some(h) => Some(
                        TSS(hr_tss_value(values_of(metrics_of(activity.heart_rate@)), h.0 as int) as i64),
                    ),
                    None => None,
                }
                &&& (r.elevation_gain is Some <==> has_rise(alts))
                &&& (r.elevation_loss is Some <==> has_drop(alts))
                &&& (r.elevation_gain matches Some(g) ==> g.0 == gain_sum(alts))
                &&& (r.elevation_loss matches Some(l) ==> l.0 == loss_sum(alts))
                &&& is_peak_map(r.peak_performances.power@, activity.power@, peak_durations@)
                &&& is_peak_map(r.peak_performances.heart_rate@, activity.heart_rate@, peak_durations@)
                &&& is_peak_map(r.peak_performances.speed@, activity.speed@, peak_durations@)
            }),
    {
        let power_data = strip_timestamps(&activity.power);
        let heart_rate_data = strip_timestamps(&activity.heart_rate);
        let speed_data = strip_timestamps(&activity.speed);

        let average_power = Power::average(power_data.as_slice());
        let maximum_power = maximum(&power_data);
        let average_heart_rate = HeartRate::average(heart_rate_data.as_slice());
        let maximum_heart_rate = maximum(&heart_rate_data);
        let average_speed = Speed::average(speed_data.as_slice());
        let maximum_speed = maximum(&speed_data);

        let total_work = calc_total_work(&power_data);
        let normalized_power = calc_normalized_power(&power_data);
        let intensity_factor = match (ftp, normalized_power) {
            (Some(ftp), Some(np)) if ftp.0 > 0 => Some(IF::calculate(ftp, &np)),
            _ => None,
        };
        let variability_index = match (normalized_power, average_power) {
            (Some(np), Some(avg)) if avg.0 > 0 => Some(VI::calculate(&np, &avg)),
            _ => None,
        };
        let tss = match (ftp, activity.duration, normalized_power) {
            (Some(ftp), Some(duration), Some(np)) if 0 < ftp.0 && ftp.0 <= MAX_POWER && -MAX_DURATION
                <= duration && duration <= MAX_DURATION => Some(TSS::calculate(ftp, duration, &np)),
            _ => None,
        };
        let hr_tss = match fthr {
            Some(fthr) => Some(TSS::calculate_hr_tss(fthr, &heart_rate_data)),
            None => None,
        };
        let (elevation_gain, elevation_loss) = calc_altitude_changes(&activity.altitude);
        let peak_performances = PeakPerformances::from_data(
            &activity.power,
            &activity.heart_rate,
            &activity.speed,
            peak_durations,
        );
        ActivityAnalysis {
            total_work,
            normalized_power,
            intensity_factor,
            variability_index,
            tss,
            hr_tss,
            average_power,
            maximum_power,
            average_heart_rate,
            maximum_heart_rate,
            average_speed,
            maximum_speed,
            elevation_gain,
            elevation_loss,
            peak_performances,
        }
    }
}

/// Highest value per duration over `(duration, value)` pairs of many
/// activities: each duration that occurs maps to the largest value paired
/// with it, whatever the order of the pairs.
pub fn best_by_duration(entries: &Vec<(i64, i64)>) -> (r: HashMap<i64, i64>)
    ensures
        forall|d: i64| #[trigger] r@.contains_key(d) <==> exists|i: int| 0 <= i < entries@.len() && entries@[i].0 == d,
        forall|d: i64| #[trigger] r@.contains_key(d) ==> exists|i: int| 0 <= i < entries@.len() && entries@[i] == (d, r@[d]),
        forall|i: int| 0 <= i < entries@.len() ==> #[trigger] entries@[i].1 <= r@[entries@[i].0],
{
    let mut best: HashMap<i64, i64> = HashMap::new();
    let mut i: usize = 0;
    while i < entries.len()
        invariant
            i <= entries@.len(),
            forall|d: i64| #[trigger] best@.contains_key(d) <==> exists|k: int| 0 <= k < i && entries@[k].0 == d,
            forall|d: i64| #[trigger] best@.contains_key(d) ==> exists|k: int| 0 <= k < i && entries@[k] == (d, best@[d]),
            forall|k: int| 0 <= k < i ==> #[trigger] entries@[k].1 <= best@[entries@[k].0],
        decreases entries@.len() - i,
    {
        let (d, v) = entries[i];
        let ghost before = best@;
        let keep = match best.get(&d) {
            Some(b) => *b >= v,
            None => false,
        };
        if !keep {
            best.insert(d, v);
        }
        proof {
            assert(obeys_key_model::<i64>());
            assert(entries@[i as int] == (d, v));
            assert forall|e: i64| #[trigger] best@.contains_key(e) <==> exists|k: int|
                0 <= k < i + 1 && entries@[k].0 == e by {
                if best@.contains_key(e) && e != d {
                    assert(before.contains_key(e));
                    let k = choose|k: int| 0 <= k < i && entries@[k].0 == e;
                    assert(0 <= k < i + 1 && entries@[k].0 == e);
                }
                if e == d {
                    assert(0 <= i < i + 1 && entries@[i as int].0 == e);
                }
                if exists|k: int| 0 <= k < i + 1 && entries@[k].0 == e {
                    let k = choose|k: int| 0 <= k < i + 1 && entries@[k].0 == e;
                    if k < i {
                        assert(before.contains_key(e));
                    }
                }
            }
            assert forall|e: i64| #[trigger] best@.contains_key(e) implies exists|k: int|
                0 <= k < i + 1 && entries@[k] == (e, best@[e]) by {
                if e == d && !keep {
                    assert(entries@[i as int] == (e, best@[e]));
                } else {
                    assert(before.contains_key(e));
                    assert(best@[e] == before[e]);
                    let k = choose|k: int| 0 <= k < i && entries@[k] == (e, before[e]);
                    assert(0 <= k < i + 1 && entries@[k] == (e, best@[e]));
                }
            }
            assert forall|k: int| 0 <= k < i + 1 implies #[trigger] entries@[k].1 <= best@[entries@[k].0] by {
                if k < i {
                    assert(before.contains_key(entries@[k].0));
                }
            }
        }
        i = i + 1;
    }
    best
}

} // verus!
