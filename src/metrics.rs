//! Per-activity training metrics: normalized power, stress scores,
//! intensity and variability, work and elevation changes.
use vstd::prelude::*;

use crate::measurements::{
    lemma_mean_bounded, lemma_sum_of_push, mean_of, sum_of, trunc_div, values_of, Altitude,
    AltitudeDiff, Average, Day, HeartRate, Power, Work,
};

verus! {

/// Number of samples in the rolling window of normalized power.
pub const NP_WINDOW: usize = 30;

/// Largest power magnitude, in watts, that the power-based formulas take:
/// its fourth power still fits in an `i64`.
pub const MAX_POWER: i64 = 55108;

/// Means of every window of `size` consecutive values, in order.
pub open spec fn window_means(s: Seq<int>, size: int) -> Seq<int> {
    Seq::new(
        if s.len() >= size { (s.len() - size + 1) as nat } else { 0 },
        |i: int| mean_of(s.subrange(i, i + size)),
    )
}

pub open spec fn pow4(x: int) -> int {
    x * x * x * x
}

/// `r` is the integer fourth root of `m`, rounded down.
pub open spec fn is_fourth_root(r: int, m: int) -> bool {
    0 <= r && pow4(r) <= m < pow4(r + 1)
}

/// Mean of the fourth powers of the 30-sample rolling means.
pub open spec fn fourth_power_mean(s: Seq<int>) -> int {
    mean_of(window_means(s, NP_WINDOW as int).map_values(|x: int| pow4(x)))
}

/// `r` is the normalized power of the power values `s`.
pub open spec fn is_normalized_power(s: Seq<int>, r: Option<Power>) -> bool {
    &&& r is None <==> s.len() == 0
    &&& 0 < s.len() < NP_WINDOW ==> (r matches Some(p) && p.0 as int == mean_of(s))
    &&& s.len() >= NP_WINDOW ==> (r matches Some(p) && is_fourth_root(
        p.0 as int,
        fourth_power_mean(s),
    ))
}

/// Every value lies within `MAX_POWER` of zero.
pub open spec fn powers_in_range(s: Seq<int>) -> bool {
    forall|i: int| 0 <= i < s.len() ==> -MAX_POWER <= #[trigger] s[i] <= MAX_POWER
}

/// Averages of every window of `size` consecutive elements, in order.
pub fn rolling_averages<I: Average>(data: &[I], size: usize) -> (r: Vec<I>)
    requires
        size >= 1,
    ensures
        r@.len() == window_means(values_of(data@), size as int).len(),
        forall|i: int|
            0 <= i < r@.len() ==> #[trigger] r@[i].value() == window_means(
                values_of(data@),
                size as int,
            )[i],
{
    let mut r: Vec<I> = Vec::new();
    let ghost vals = values_of(data@);
    if data.len() < size {
        return r;
    }
    let mut i: usize = 0;
    while i <= data.len() - size
        invariant
            size >= 1,
            size <= data@.len(),
            i <= data@.len() - size + 1,
            vals == values_of(data@),
            r@.len() == i,
            forall|k: int| 0 <= k < i ==> #[trigger] r@[k].value() == window_means(vals, size as int)[k],
        decreases data@.len() - i,
    {
        let window = &data[i..i + size];
        assert(values_of(window@) =~= vals.subrange(i as int, i + size));
        match I::average(window) {
            Some(a) => {
                r.push(a);
            },
            None => {},
        }
        i = i + 1;
    }
    r
}

proof fn lemma_pow4_monotonic(a: int, b: int)
    requires
        0 <= a <= b,
    ensures
        0 <= pow4(a) <= pow4(b),
{
    assert(0 <= a * a <= b * b) by (nonlinear_arith)
        requires
            0 <= a <= b,
    ;
    assert(0 <= (a * a) * (a * a) <= (b * b) * (b * b)) by (nonlinear_arith)
        requires
            0 <= a * a <= b * b,
    ;
    assert(pow4(a) == (a * a) * (a * a)) by (nonlinear_arith);
    assert(pow4(b) == (b * b) * (b * b)) by (nonlinear_arith);
}

proof fn lemma_pow4_even(a: int)
    ensures
        pow4(a) == pow4(-a),
{
    assert(pow4(a) == pow4(-a)) by (nonlinear_arith);
}

/// Fourth power of a sample small enough for the result to fit in an `i64`.
fn fourth_power(x: i64) -> (r: i64)
    requires
        -MAX_POWER <= x <= MAX_POWER,
    ensures
        r as int == pow4(x as int),
        0 <= r,
{
    let a: i64 = if x < 0 { -x } else { x };
    proof {
        lemma_pow4_even(x as int);
        lemma_pow4_monotonic(a as int, MAX_POWER as int);
        assert(0 <= a * a <= 55108 * 55108) by (nonlinear_arith)
            requires
                0 <= a <= 55108,
        ;
        assert(0 <= a * a * a <= 55108 * 55108 * 55108) by (nonlinear_arith)
            requires
                0 <= a <= 55108,
                0 <= a * a <= 55108 * 55108,
        ;
    }
    a * a * a * a
}

/// Integer fourth root of `m`, rounded down.
fn fourth_root(m: i64) -> (r: i64)
    requires
        0 <= m,
    ensures
        is_fourth_root(r as int, m as int),
        r <= MAX_POWER,
{
    let mut lo: i64 = 0;
    let mut hi: i64 = MAX_POWER + 1;
    assert(pow4(0) == 0);
    assert(pow4(55109) > 0x7fff_ffff_ffff_ffff);
    while hi - lo > 1
        invariant
            0 <= lo < hi <= MAX_POWER + 1,
            pow4(lo as int) <= m < pow4(hi as int),
        decreases hi - lo,
    {
        let mid: i64 = lo + (hi - lo) / 2;
        let w = mid as i128;
        proof {
            lemma_pow4_monotonic(mid as int, 55109);
            assert(0 <= w * w <= 55109 * 55109) by (nonlinear_arith)
                requires
                    0 <= w <= 55109,
            ;
            assert(0 <= w * w * w <= 55109 * 55109 * 55109) by (nonlinear_arith)
                requires
                    0 <= w <= 55109,
                    0 <= w * w <= 55109 * 55109,
            ;
        }
        if w * w * w * w <= m as i128 {
            lo = mid;
        } else {
            hi = mid;
        }
    }
    lo
}

/// Normalized power: below thirty samples the plain mean; from thirty on the
/// integer fourth root of the mean fourth power of the 30-sample rolling means.
pub fn calc_normalized_power(power_data: &Vec<Power>) -> (r: Option<Power>)
    requires
        power_data@.len() >= NP_WINDOW ==> powers_in_range(values_of(power_data@)),
    ensures
        is_normalized_power(values_of(power_data@), r),
        powers_in_range(values_of(power_data@)) ==> (r matches Some(p) ==> -MAX_POWER <= p.0
            <= MAX_POWER),
{
    if power_data.len() < NP_WINDOW {
        let r = Power::average(power_data.as_slice());
        proof {
            if powers_in_range(values_of(power_data@)) && power_data@.len() > 0 {
                lemma_mean_bounded(values_of(power_data@), -MAX_POWER as int, MAX_POWER as int);
            }
        }
        return r;
    }
    let ghost vals = values_of(power_data@);
    let averages = rolling_averages(power_data.as_slice(), NP_WINDOW);
    let ghost fourth_spec = window_means(vals, NP_WINDOW as int).map_values(|x: int| pow4(x));
    let mut fourth: Vec<i64> = Vec::new();
    let mut i: usize = 0;
    while i < averages.len()
        invariant
            i <= averages@.len(),
            averages@.len() == window_means(vals, NP_WINDOW as int).len(),
            forall|k: int|
                0 <= k < averages@.len() ==> #[trigger] averages@[k].value() == window_means(
                    vals,
                    NP_WINDOW as int,
                )[k],
            vals == values_of(power_data@),
            power_data@.len() >= NP_WINDOW,
            powers_in_range(vals),
            fourth_spec == window_means(vals, NP_WINDOW as int).map_values(|x: int| pow4(x)),
            fourth@.len() == i,
            forall|k: int| 0 <= k < i ==> #[trigger] fourth@[k] as int == fourth_spec[k],
            forall|k: int| 0 <= k < i ==> 0 <= #[trigger] fourth@[k],
        decreases averages@.len() - i,
    {
        let a = averages[i].0;
        proof {
            let w = vals.subrange(i as int, i + NP_WINDOW);
            assert forall|k: int| 0 <= k < w.len() implies -MAX_POWER <= #[trigger] w[k]
                <= MAX_POWER by {
                assert(w[k] == vals[i + k]);
            }
            lemma_mean_bounded(w, -MAX_POWER as int, MAX_POWER as int);
            assert(averages@[i as int].value() == a);
        }
        fourth.push(fourth_power(a));
        i = i + 1;
    }
    assert(values_of(fourth@) =~= fourth_spec);
    match <i64 as Average>::average(fourth.as_slice()) {
        Some(m) => {
            proof {
                lemma_mean_bounded(fourth_spec, 0, 0x7fff_ffff_ffff_ffff);
            }
            Some(Power(fourth_root(m)))
        },
        None => None,
    }
}

/// Longest duration, in seconds, that the power-based stress score takes.
pub const MAX_DURATION: i64 = 100_000_000_000;

/// Scale of the fixed-point ratios: 10000 stands for 1.
pub const RATIO_SCALE: i64 = 10000;

/// Training Stress Score.
#[derive(Clone, Copy, PartialEq, Eq, PartialOrd, Ord, Debug)]
pub struct TSS(pub i64);

/// Intensity Factor, in ten-thousandths.
#[derive(Clone, Copy, PartialEq, Eq, PartialOrd, Ord, Debug)]
pub struct IF(pub i64);

/// Variability Index, in ten-thousandths.
#[derive(Clone, Copy, PartialEq, Eq, PartialOrd, Ord, Debug)]
pub struct VI(pub i64);

/// Power-based stress of `duration` seconds at normalized power `np` for a
/// threshold `ftp`: `duration * np * (np / ftp) / (ftp * 3600) * 100`, rounded toward zero.
pub open spec fn tss_value(ftp: int, duration: int, np: int) -> int {
    trunc_div(duration * np * np * 100, ftp * ftp * 3600)
}

/// Per-second weight of a heart rate in the zone model around threshold `fthr`.
pub open spec fn hr_zone_weight(hr: int, fthr: int) -> int {
    if hr < trunc_div(fthr * 73, 100) {
        20
    } else if hr < trunc_div(fthr * 77, 100) {
        30
    } else if hr < trunc_div(fthr * 81, 100) {
        40
    } else if hr < trunc_div(fthr * 85, 100) {
        50
    } else if hr < trunc_div(fthr * 89, 100) {
        60
    } else if hr < trunc_div(fthr * 93, 100) {
        75
    } else if hr < fthr {
        100
    } else if hr < trunc_div(fthr * 103, 100) {
        105
    } else if hr < trunc_div(fthr * 106, 100) {
        110
    } else {
        120
    }
}

/// Heart-rate stress: the zone weights of all one-second samples, summed, over 3600.
pub open spec fn hr_tss_value(hrs: Seq<int>, fthr: int) -> int {
    sum_of(hrs.map_values(|h: int| hr_zone_weight(h, fthr))) / 3600
}

/// Division rounding toward zero by a positive divisor.
fn div_toward_zero(a: i128, b: i128) -> (r: i128)
    requires
        b > 0,
        a > i128::MIN,
    ensures
        r as int == trunc_div(a as int, b as int),
{
    if a >= 0 {
        a / b
    } else {
        -((-a) / b)
    }
}

/// Zone weight of one heart rate, given the zone limits computed from the threshold.
fn zone_weight(hr: i64, fthr: i64) -> (r: i128)
    ensures
        r as int == hr_zone_weight(hr as int, fthr as int),
{
    let f = fthr as i128;
    let h = hr as i128;
    if h < div_toward_zero(f * 73, 100) {
        20
    } else if h < div_toward_zero(f * 77, 100) {
        30
    } else if h < div_toward_zero(f * 81, 100) {
        40
    } else if h < div_toward_zero(f * 85, 100) {
        50
    } else if h < div_toward_zero(f * 89, 100) {
        60
    } else if h < div_toward_zero(f * 93, 100) {
        75
    } else if h < f {
        100
    } else if h < div_toward_zero(f * 103, 100) {
        105
    } else if h < div_toward_zero(f * 106, 100) {
        110
    } else {
        120
    }
}

impl TSS {
    /// Power-based Training Stress Score of an effort of `duration` seconds.
    pub fn calculate(ftp: &Power, duration: i64, normalized_power: &Power) -> (r: TSS)
        requires
            0 < ftp.0 <= MAX_POWER,
            -MAX_POWER <= normalized_power.0 <= MAX_POWER,
            -MAX_DURATION <= duration <= MAX_DURATION,
        ensures
            r.0 as int == tss_value(ftp.0 as int, duration as int, normalized_power.0 as int),
    {
        let f = ftp.0 as i128;
        let n = normalized_power.0 as i128;
        let d = duration as i128;
        proof {
            assert(0 <= n * n <= MAX_POWER * MAX_POWER) by (nonlinear_arith)
                requires
                    -MAX_POWER <= n <= MAX_POWER,
            ;
            assert(0 < f * f <= MAX_POWER * MAX_POWER) by (nonlinear_arith)
                requires
                    0 < f <= MAX_POWER,
            ;
            let nn = n * n;
            assert(-0x8000_0000_0000_0000 * (MAX_POWER * MAX_POWER) <= d * nn
                <= 0x8000_0000_0000_0000 * (MAX_POWER * MAX_POWER)) by (nonlinear_arith)
                requires
                    i64::MIN <= d <= i64::MAX,
                    0 <= nn <= MAX_POWER * MAX_POWER,
            ;
            assert(d * n * n == d * nn) by (nonlinear_arith)
                requires
                    nn == n * n,
            ;
        }
        let q = div_toward_zero(d * (n * n) * 100, f * f * 3600);
        proof {
            assert(d * (n * n) * 100 == d * n * n * 100) by (nonlinear_arith);
            let num = d * (n * n) * 100;
            let den = f * f * 3600;
            let bound = MAX_DURATION * (MAX_POWER * MAX_POWER) * 100;
            assert(-bound <= num <= bound) by (nonlinear_arith)
                requires
                    -MAX_DURATION <= d <= MAX_DURATION,
                    0 <= n * n <= MAX_POWER * MAX_POWER,
                    num == d * (n * n) * 100,
                    bound == MAX_DURATION * (MAX_POWER * MAX_POWER) * 100,
            ;
            if num >= 0 {
                assert(num / den <= bound / 3600) by (nonlinear_arith)
                    requires
                        0 <= num <= bound,
                        den >= 3600,
                ;
            } else {
                assert((-num) / den <= bound / 3600) by (nonlinear_arith)
                    requires
                        0 < -num <= bound,
                        den >= 3600,
                ;
            }
        }
        TSS(q as i64)
    }

    /// Heart-rate Training Stress Score of one-second heart-rate samples.
    pub fn calculate_hr_tss(fthr: &HeartRate, heart_rate_data: &Vec<HeartRate>) -> (r: TSS)
        ensures
            r.0 as int == hr_tss_value(values_of(heart_rate_data@), fthr.0 as int),
    {
        let ghost weights = values_of(heart_rate_data@).map_values(
            |h: int| hr_zone_weight(h, fthr.0 as int),
        );
        let mut total: i128 = 0;
        let mut i: usize = 0;
        while i < heart_rate_data.len()
            invariant
                i <= heart_rate_data@.len(),
                weights == values_of(heart_rate_data@).map_values(
                    |h: int| hr_zone_weight(h, fthr.0 as int),
                ),
                total as int == sum_of(weights.take(i as int)),
                0 <= total <= 120 * i,
            decreases heart_rate_data@.len() - i,
        {
            let w = zone_weight(heart_rate_data[i].0, fthr.0);
            proof {
                assert(weights.take(i as int + 1) =~= weights.take(i as int).push(w as int));
                lemma_sum_of_push(weights.take(i as int), w as int);
            }
            total = total + w;
            i = i + 1;
        }
        assert(weights.take(i as int) =~= weights);
        TSS((total / 3600) as i64)
    }
}

impl IF {
    /// Intensity Factor `normalized_power / ftp`, in ten-thousandths rounded toward zero.
    pub fn calculate(ftp: &Power, normalized_power: &Power) -> (r: IF)
        requires
            0 < ftp.0,
            -MAX_POWER <= normalized_power.0 <= MAX_POWER,
        ensures
            r.0 as int == trunc_div(normalized_power.0 * RATIO_SCALE, ftp.0 as int),
    {
        IF(ratio(normalized_power.0, ftp.0))
    }
}

impl VI {
    /// Variability Index `normalized_power / average_power`, in ten-thousandths
    /// rounded toward zero.
    pub fn calculate(normalized_power: &Power, average_power: &Power) -> (r: VI)
        requires
            0 < average_power.0,
            -MAX_POWER <= normalized_power.0 <= MAX_POWER,
        ensures
            r.0 as int == trunc_div(normalized_power.0 * RATIO_SCALE, average_power.0 as int),
    {
        VI(ratio(normalized_power.0, average_power.0))
    }
}

/// `num / den` in ten-thousandths, rounded toward zero.
fn ratio(num: i64, den: i64) -> (r: i64)
    requires
        0 < den,
        -MAX_POWER <= num <= MAX_POWER,
    ensures
        r as int == trunc_div(num * RATIO_SCALE, den as int),
{
    let q = div_toward_zero(num as i128 * 10000, den as i128);
    proof {
        let a = num * 10000;
        let b = den as int;
        if a >= 0 {
            assert(a / b <= a) by (nonlinear_arith)
                requires
                    0 <= a,
                    b >= 1,
            ;
        } else {
            assert((-a) / b <= -a) by (nonlinear_arith)
                requires
                    0 < -a,
                    b >= 1,
            ;
        }
    }
    q as i64
}

/// Total mechanical work of one-second power samples: one joule per watt-second.
pub fn calc_total_work(power_data: &Vec<Power>) -> (r: Work)
    requires
        i64::MIN <= sum_of(values_of(power_data@)) <= i64::MAX,
    ensures
        r.0 as int == sum_of(values_of(power_data@)),
{
    let ghost vals = values_of(power_data@);
    let mut total: i128 = 0;
    let mut i: usize = 0;
    while i < power_data.len()
        invariant
            i <= power_data@.len(),
            vals == values_of(power_data@),
            total as int == sum_of(vals.take(i as int)),
            -(i as int) * 0x8000_0000_0000_0000 <= total <= (i as int) * 0x7fff_ffff_ffff_ffff,
        decreases power_data@.len() - i,
    {
        let v = power_data[i].0;
        proof {
            assert(vals.take(i as int + 1) =~= vals.take(i as int).push(v as int));
            lemma_sum_of_push(vals.take(i as int), v as int);
        }
        total = total + v as i128;
        i = i + 1;
    }
    assert(vals.take(i as int) =~= vals);
    Work(total as i64)
}

/// Fixed-point scale of the training loads: 1_000_000 stands for one TSS point.
pub const LOAD_SCALE: i64 = 1_000_000;

/// Fixed-point scale of the daily decay factors.
pub const FACTOR_SCALE: i64 = 1_000_000_000;

/// `e^(-1/42)` in billionths: the daily decay of the 42-day chronic load.
pub const CTL_DECAY: i64 = 976_471_687;

/// `e^(-1/7)` in billionths: the daily decay of the 7-day acute load.
pub const ATL_DECAY: i64 = 866_877_900;

/// Largest daily TSS, in magnitude, that the load model takes.
pub const MAX_DAILY_TSS: i64 = 1_000_000_000_000;

/// Largest load magnitude, in millionths, that the load model reaches from
/// days within `MAX_DAILY_TSS`.
pub const MAX_LOAD: i64 = 1_000_000_000_000_000_000;

/// Accumulated Training Stress Score of one day.
#[derive(Clone, Copy, Debug, PartialEq, Eq)]
pub struct DailyTSS(pub Day, pub TSS);

/// Chronic Training Load, in millionths of a TSS point.
#[derive(Clone, Copy, PartialEq, Eq, PartialOrd, Ord, Debug)]
pub struct CTL(pub i64);

/// Acute Training Load, in millionths of a TSS point.
#[derive(Clone, Copy, PartialEq, Eq, PartialOrd, Ord, Debug)]
pub struct ATL(pub i64);

/// Training Stress Balance, in millionths of a TSS point.
#[derive(Clone, Copy, PartialEq, Eq, PartialOrd, Ord, Debug)]
pub struct TSB(pub i64);

/// Yesterday's load decayed by `decay / FACTOR_SCALE`, plus today's stress
/// weighted by the rest of the factor: `prev * f + tss * (1 - f)`, in
/// millionths, rounded toward zero.
pub open spec fn next_load(prev: int, tss: int, decay: int) -> int {
    trunc_div(prev * decay + tss * LOAD_SCALE * (FACTOR_SCALE - decay), FACTOR_SCALE as int)
}

pub open spec fn abs(x: int) -> int {
    if x < 0 {
        -x
    } else {
        x
    }
}

pub proof fn lemma_next_load_bounded(prev: int, tss: int, decay: int)
    requires
        -MAX_LOAD <= prev <= MAX_LOAD,
        -MAX_DAILY_TSS <= tss <= MAX_DAILY_TSS,
        0 <= decay <= FACTOR_SCALE,
    ensures
        -MAX_LOAD <= next_load(prev, tss, decay) <= MAX_LOAD,
        tss == 0 && prev != 0 && decay < FACTOR_SCALE ==> abs(next_load(prev, tss, decay)) < abs(
            prev,
        ),
        tss == 0 && prev == 0 ==> next_load(prev, tss, decay) == 0,
{
    let a = prev * decay;
    let b = tss * LOAD_SCALE * (FACTOR_SCALE - decay);
    let m = MAX_LOAD as int;
    let fs = FACTOR_SCALE as int;
    assert(-m * decay <= a <= m * decay) by (nonlinear_arith)
        requires
            -m <= prev <= m,
            0 <= decay,
            a == prev * decay,
    ;
    assert(-m * (fs - decay) <= b <= m * (fs - decay)) by (nonlinear_arith)
        requires
            -MAX_DAILY_TSS <= tss <= MAX_DAILY_TSS,
            decay <= fs,
            b == tss * 1_000_000 * (fs - decay),
            m == MAX_DAILY_TSS * 1_000_000,
    ;
    let t = a + b;
    assert(-m * fs <= t <= m * fs) by (nonlinear_arith)
        requires
            -m * decay <= a <= m * decay,
            -m * (fs - decay) <= b <= m * (fs - decay),
            t == a + b,
    ;
    if t >= 0 {
        assert(t / fs <= m) by (nonlinear_arith)
            requires
                fs > 0,
                0 <= t <= m * fs,
        ;
    } else {
        assert((-t) / fs <= m) by (nonlinear_arith)
            requires
                fs > 0,
                0 < -t <= m * fs,
        ;
    }
    if tss == 0 && prev == 0 {
        assert(a == 0 && b == 0) by (nonlinear_arith)
            requires
                tss == 0,
                prev == 0,
                a == prev * decay,
                b == tss * 1_000_000 * (fs - decay),
        ;
    }
    if tss == 0 && prev != 0 && decay < fs {
        assert(b == 0) by (nonlinear_arith)
            requires
                tss == 0,
                b == tss * 1_000_000 * (fs - decay),
        ;
        if prev > 0 {
            assert(0 <= a / fs < prev) by (nonlinear_arith)
                requires
                    fs > 0,
                    prev > 0,
                    0 <= decay < fs,
                    a == prev * decay,
            ;
        } else {
            let q = -prev;
            assert((q * decay) / fs < q) by (nonlinear_arith)
                requires
                    fs > 0,
                    q > 0,
                    0 <= decay < fs,
            ;
            assert(-a == q * decay) by (nonlinear_arith)
                requires
                    a == prev * decay,
                    q == -prev,
            ;
        }
    }
}

/// Next day's load from yesterday's and today's stress.
fn calc_training_load(decay: i64, yesterdays_load: i64, daily_tss: &DailyTSS) -> (r: i64)
    requires
        0 <= decay <= FACTOR_SCALE,
        -MAX_LOAD <= yesterdays_load <= MAX_LOAD,
        -MAX_DAILY_TSS <= daily_tss.1.0 <= MAX_DAILY_TSS,
    ensures
        r as int == next_load(yesterdays_load as int, daily_tss.1.0 as int, decay as int),
        -MAX_LOAD <= r <= MAX_LOAD,
{
    proof {
        lemma_next_load_bounded(yesterdays_load as int, daily_tss.1.0 as int, decay as int);
        let p = yesterdays_load as int;
        let t = daily_tss.1.0 as int;
        let d = decay as int;
        assert(-MAX_LOAD * FACTOR_SCALE <= p * d <= MAX_LOAD * FACTOR_SCALE) by (nonlinear_arith)
            requires
                -MAX_LOAD <= p <= MAX_LOAD,
                0 <= d <= FACTOR_SCALE,
        ;
        assert(-MAX_LOAD * FACTOR_SCALE <= t * 1_000_000 * (FACTOR_SCALE - d) <= MAX_LOAD
            * FACTOR_SCALE) by (nonlinear_arith)
            requires
                -MAX_DAILY_TSS <= t <= MAX_DAILY_TSS,
                0 <= d <= FACTOR_SCALE,
        ;
    }
    let prev = yesterdays_load as i128;
    let tss = daily_tss.1.0 as i128;
    let d = decay as i128;
    let total = prev * d + tss * 1_000_000 * (1_000_000_000 - d);
    div_toward_zero(total, 1_000_000_000) as i64
}

impl CTL {
    /// Chronic Training Load of today from yesterday's and today's stress.
    pub fn calculate(yesterdays: &CTL, daily_tss: &DailyTSS) -> (r: CTL)
        requires
            -MAX_LOAD <= yesterdays.0 <= MAX_LOAD,
            -MAX_DAILY_TSS <= daily_tss.1.0 <= MAX_DAILY_TSS,
        ensures
            r.0 as int == next_load(yesterdays.0 as int, daily_tss.1.0 as int, CTL_DECAY as int),
            -MAX_LOAD <= r.0 <= MAX_LOAD,
    {
        CTL(calc_training_load(CTL_DECAY, yesterdays.0, daily_tss))
    }
}

impl ATL {
    /// Acute Training Load of today from yesterday's and today's stress.
    pub fn calculate(yesterdays: &ATL, daily_tss: &DailyTSS) -> (r: ATL)
        requires
            -MAX_LOAD <= yesterdays.0 <= MAX_LOAD,
            -MAX_DAILY_TSS <= daily_tss.1.0 <= MAX_DAILY_TSS,
        ensures
            r.0 as int == next_load(yesterdays.0 as int, daily_tss.1.0 as int, ATL_DECAY as int),
            -MAX_LOAD <= r.0 <= MAX_LOAD,
    {
        ATL(calc_training_load(ATL_DECAY, yesterdays.0, daily_tss))
    }
}

impl TSB {
    /// Training Stress Balance: chronic minus acute load.
    pub fn calculate(ctl: &CTL, atl: &ATL) -> (r: TSB)
        requires
            -MAX_LOAD <= ctl.0 <= MAX_LOAD,
            -MAX_LOAD <= atl.0 <= MAX_LOAD,
        ensures
            r.0 == ctl.0 - atl.0,
    {
        TSB(ctl.0 - atl.0)
    }
}

/// Altitudes in millimetres.
pub open spec fn altitudes(s: Seq<Altitude>) -> Seq<int> {
    s.map_values(|a: Altitude| a.0 as int)
}

/// Sum of the rises between consecutive altitudes.
pub open spec fn gain_sum(s: Seq<int>) -> int
    decreases s.len(),
{
    if s.len() < 2 {
        0
    } else {
        gain_sum(s.drop_last()) + if s[s.len() - 2] < s[s.len() - 1] {
            s[s.len() - 1] - s[s.len() - 2]
        } else {
            0
        }
    }
}

/// Sum of the drops between consecutive altitudes.
pub open spec fn loss_sum(s: Seq<int>) -> int
    decreases s.len(),
{
    if s.len() < 2 {
        0
    } else {
        loss_sum(s.drop_last()) + if s[s.len() - 2] > s[s.len() - 1] {
            s[s.len() - 2] - s[s.len() - 1]
        } else {
            0
        }
    }
}

/// Some consecutive pair rises.
#[verifier::opaque]
pub open spec fn has_rise(s: Seq<int>) -> bool {
    exists|i: int| 0 <= i && i + 1 < s.len() && #[trigger] s[i] < s[i + 1]
}

/// Some consecutive pair drops.
#[verifier::opaque]
pub open spec fn has_drop(s: Seq<int>) -> bool {
    exists|i: int| 0 <= i && i + 1 < s.len() && #[trigger] s[i] > s[i + 1]
}

pub proof fn lemma_change_sums_prefix(s: Seq<int>, k: int)
    requires
        0 <= k <= s.len(),
    ensures
        0 <= gain_sum(s.take(k)) <= gain_sum(s),
        0 <= loss_sum(s.take(k)) <= loss_sum(s),
    decreases s.len() - k,
{
    if k == s.len() {
        assert(s.take(k) =~= s);
        lemma_change_sums_nonneg(s);
    } else {
        lemma_change_sums_prefix(s, k + 1);
        assert(s.take(k + 1).drop_last() =~= s.take(k));
        lemma_change_sums_nonneg(s.take(k));
    }
}

proof fn lemma_change_sums_nonneg(s: Seq<int>)
    ensures
        0 <= gain_sum(s),
        0 <= loss_sum(s),
    decreases s.len(),
{
    if s.len() >= 2 {
        lemma_change_sums_nonneg(s.drop_last());
    }
}

pub proof fn lemma_change_start(s: Seq<int>)
    ensures
        s.len() < 2 ==> !has_rise(s) && !has_drop(s),
        s.len() >= 1 ==> gain_sum(s.take(1)) == 0 && loss_sum(s.take(1)) == 0 && !has_rise(
            s.take(1),
        ) && !has_drop(s.take(1)),
{
    reveal(has_rise);
    reveal(has_drop);
}

pub proof fn lemma_change_step(s: Seq<int>, k: int)
    requires
        1 <= k < s.len(),
    ensures
        gain_sum(s.take(k + 1)) == gain_sum(s.take(k)) + if s[k - 1] < s[k] {
            s[k] - s[k - 1]
        } else {
            0
        },
        loss_sum(s.take(k + 1)) == loss_sum(s.take(k)) + if s[k - 1] > s[k] {
            s[k - 1] - s[k]
        } else {
            0
        },
        has_rise(s.take(k + 1)) == (has_rise(s.take(k)) || s[k - 1] < s[k]),
        has_drop(s.take(k + 1)) == (has_drop(s.take(k)) || s[k - 1] > s[k]),
{
    reveal(has_rise);
    reveal(has_drop);
    let before = s.take(k);
    let after = s.take(k + 1);
    assert(after.drop_last() =~= before);
    assert(after[k - 1] == s[k - 1] && after[k] == s[k]);
    if has_rise(after) && !(s[k - 1] < s[k]) {
        let j = choose|j: int| 0 <= j && j + 1 < after.len() && #[trigger] after[j] < after[j + 1];
        assert(before[j] < before[j + 1]);
    }
    if has_rise(before) {
        let j = choose|j: int| 0 <= j && j + 1 < before.len() && #[trigger] before[j] < before[j + 1];
        assert(after[j] < after[j + 1]);
    }
    if has_drop(after) && !(s[k - 1] > s[k]) {
        let j = choose|j: int| 0 <= j && j + 1 < after.len() && #[trigger] after[j] > after[j + 1];
        assert(before[j] > before[j + 1]);
    }
    if has_drop(before) {
        let j = choose|j: int| 0 <= j && j + 1 < before.len() && #[trigger] before[j] > before[j + 1];
        assert(after[j] > after[j + 1]);
    }
}

/// Total gain and total loss of an altitude trace, each `None` when no
/// consecutive pair ever rose, respectively dropped; level steps change nothing.
pub fn calc_altitude_changes(altitude_data: &Vec<Altitude>) -> (r: (
    Option<AltitudeDiff>,
    Option<AltitudeDiff>,
))
    requires
        gain_sum(altitudes(altitude_data@)) <= i64::MAX,
        loss_sum(altitudes(altitude_data@)) <= i64::MAX,
    ensures
        r.0 is Some <==> has_rise(altitudes(altitude_data@)),
        r.1 is Some <==> has_drop(altitudes(altitude_data@)),
        r.0 matches Some(g) ==> g.0 as int == gain_sum(altitudes(altitude_data@)),
        r.1 matches Some(l) ==> l.0 as int == loss_sum(altitudes(altitude_data@)),
{
    let ghost alts = altitudes(altitude_data@);
    proof {
        lemma_change_start(alts);
    }
    if altitude_data.len() < 2 {
        return (None, None);
    }
    let mut gain: i128 = 0;
    let mut loss: i128 = 0;
    let mut rose = false;
    let mut dropped = false;
    let mut i: usize = 1;
    while i < altitude_data.len()
        invariant
            1 <= i <= altitude_data@.len(),
            alts == altitudes(altitude_data@),
            gain_sum(alts) <= i64::MAX,
            loss_sum(alts) <= i64::MAX,
            gain as int == gain_sum(alts.take(i as int)),
            loss as int == loss_sum(alts.take(i as int)),
            0 <= gain <= i64::MAX,
            0 <= loss <= i64::MAX,
            rose == has_rise(alts.take(i as int)),
            dropped == has_drop(alts.take(i as int)),
        decreases altitude_data@.len() - i,
    {
        let prev = altitude_data[i - 1].0 as i128;
        let next = altitude_data[i].0 as i128;
        proof {
            lemma_change_step(alts, i as int);
            lemma_change_sums_prefix(alts, i as int + 1);
        }
        if prev < next {
            gain = gain + (next - prev);
            rose = true;
        } else if prev > next {
            loss = loss + (prev - next);
            dropped = true;
        }
        i = i + 1;
    }
    proof {
        assert(alts.take(i as int) =~= alts);
    }
    let g = if rose { Some(AltitudeDiff(gain as i64)) } else { None };
    let l = if dropped { Some(AltitudeDiff(loss as i64)) } else { None };
    (g, l)
}

/// One hour at threshold power scores exactly 100, whatever the threshold.
pub proof fn lemma_one_hour_at_threshold(ftp: int)
    requires
        ftp != 0,
    ensures
        tss_value(ftp, 3600, ftp) == 100,
{
    lemma_tss_at_threshold(ftp, 3600, 100);
}

/// Ninety minutes at threshold power scores exactly 150, whatever the threshold.
pub proof fn lemma_ninety_minutes_at_threshold(ftp: int)
    requires
        ftp != 0,
    ensures
        tss_value(ftp, 5400, ftp) == 150,
{
    lemma_tss_at_threshold(ftp, 5400, 150);
}

proof fn lemma_tss_at_threshold(ftp: int, duration: int, score: int)
    requires
        ftp != 0,
        duration == score * 36,
        score >= 0,
    ensures
        tss_value(ftp, duration, ftp) == score,
{
    let x = ftp * ftp * 3600;
    assert(x > 0) by (nonlinear_arith)
        requires
            ftp != 0,
            x == ftp * ftp * 3600,
    ;
    assert(duration * ftp * ftp * 100 == score * x) by (nonlinear_arith)
        requires
            duration == score * 36,
            x == ftp * ftp * 3600,
    ;
    assert(score * x / x == score) by (nonlinear_arith)
        requires
            x > 0,
    ;
}

/// Altitudes that never drop and end higher than they start give no loss,
/// and their gain is the last altitude minus the first.
pub proof fn lemma_rising_altitudes(s: Seq<int>)
    requires
        s.len() >= 2,
        forall|i: int| 0 <= i && i + 1 < s.len() ==> #[trigger] s[i] <= s[i + 1],
        s[0] < s.last(),
    ensures
        !has_drop(s),
        has_rise(s),
        gain_sum(s) == s.last() - s[0],
{
    reveal(has_rise);
    reveal(has_drop);
    lemma_gain_of_non_decreasing(s);
    if forall|i: int| 0 <= i && i + 1 < s.len() ==> !(#[trigger] s[i] < s[i + 1]) {
        assert forall|i: int| 0 <= i < s.len() implies #[trigger] s[i] == s[0] by {
            lemma_flat_prefix(s, i);
        }
        assert(s[s.len() - 1] == s[0]);
    }
}

proof fn lemma_flat_prefix(s: Seq<int>, i: int)
    requires
        0 <= i < s.len(),
        forall|k: int| 0 <= k && k + 1 < s.len() ==> #[trigger] s[k] <= s[k + 1],
        forall|k: int| 0 <= k && k + 1 < s.len() ==> !(#[trigger] s[k] < s[k + 1]),
    ensures
        s[i] == s[0],
    decreases i,
{
    if i > 0 {
        lemma_flat_prefix(s, i - 1);
        assert(s[i - 1] <= s[i] && !(s[i - 1] < s[i]));
    }
}

proof fn lemma_gain_of_non_decreasing(s: Seq<int>)
    requires
        s.len() >= 1,
        forall|i: int| 0 <= i && i + 1 < s.len() ==> #[trigger] s[i] <= s[i + 1],
    ensures
        gain_sum(s) == s.last() - s[0],
    decreases s.len(),
{
    if s.len() >= 2 {
        let t = s.drop_last();
        assert forall|i: int| 0 <= i && i + 1 < t.len() implies #[trigger] t[i] <= t[i + 1] by {
            assert(t[i] == s[i] && t[i + 1] == s[i + 1]);
        }
        lemma_gain_of_non_decreasing(t);
        assert(s[s.len() - 2] <= s[s.len() - 1]);
    }
}

/// A stream of one constant, non-negative power of at least thirty samples has
/// that power as its normalized power.
pub proof fn lemma_constant_normalized_power(s: Seq<int>, c: int)
    requires
        s.len() >= NP_WINDOW,
        c >= 0,
        forall|i: int| 0 <= i < s.len() ==> #[trigger] s[i] == c,
    ensures
        forall|r: int| is_fourth_root(r, fourth_power_mean(s)) ==> r == c,
        is_fourth_root(c, fourth_power_mean(s)),
{
    let w = window_means(s, NP_WINDOW as int);
    assert forall|i: int| 0 <= i < w.len() implies #[trigger] w[i] == c by {
        lemma_mean_of_constant(s.subrange(i, i + NP_WINDOW), c);
    }
    let f = w.map_values(|x: int| pow4(x));
    assert forall|i: int| 0 <= i < f.len() implies #[trigger] f[i] == pow4(c) by {
        assert(w[i] == c);
    }
    lemma_mean_of_constant(f, pow4(c));
    lemma_pow4_monotonic(c, c + 1);
    assert(pow4(c) < pow4(c + 1)) by (nonlinear_arith)
        requires
            c >= 0,
    ;
    assert forall|r: int| is_fourth_root(r, fourth_power_mean(s)) implies r == c by {
        if r < c {
            lemma_pow4_monotonic(r + 1, c);
        } else if r > c {
            lemma_pow4_monotonic(c + 1, r);
        }
    }
}

/// The mean of copies of one value is that value.
pub proof fn lemma_mean_of_constant(s: Seq<int>, c: int)
    requires
        s.len() > 0,
        forall|i: int| 0 <= i < s.len() ==> #[trigger] s[i] == c,
    ensures
        mean_of(s) == c,
{
    crate::measurements::lemma_sum_bounded(s, c, c);
    let n = s.len() as int;
    assert(sum_of(s) == n * c) by (nonlinear_arith)
        requires
            n * c <= sum_of(s) <= n * c,
    ;
    if c >= 0 {
        assert(n * c / n == c) by (nonlinear_arith)
            requires
                n > 0,
        ;
    } else {
        assert(n * (-c) / n == -c) by (nonlinear_arith)
            requires
                n > 0,
        ;
        assert(-(n * c) == n * (-c)) by (nonlinear_arith);
    }
}

} // verus!
