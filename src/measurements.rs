//! Typed measurement values and the averaging capability shared by them.
use vstd::prelude::*;

verus! {

/// Sum of a sequence of integers.
pub open spec fn sum_of(s: Seq<int>) -> int
    decreases s.len(),
{
    if s.len() == 0 {
        0
    } else {
        sum_of(s.drop_last()) + s.last()
    }
}

/// Integer division rounding toward zero, as Rust's `/` does on signed integers.
pub open spec fn trunc_div(a: int, b: int) -> int {
    if a >= 0 {
        a / b
    } else {
        -((-a) / b)
    }
}

/// Arithmetic mean of a non-empty sequence, rounded toward zero.
pub open spec fn mean_of(s: Seq<int>) -> int {
    trunc_div(sum_of(s), s.len() as int)
}

/// The sum of values between `lo` and `hi` lies between `n * lo` and `n * hi`.
pub proof fn lemma_sum_bounded(s: Seq<int>, lo: int, hi: int)
    requires
        forall|i: int| 0 <= i < s.len() ==> lo <= #[trigger] s[i] <= hi,
    ensures
        s.len() * lo <= sum_of(s) <= s.len() * hi,
    decreases s.len(),
{
    if s.len() > 0 {
        let t = s.drop_last();
        assert forall|i: int| 0 <= i < t.len() implies lo <= #[trigger] t[i] <= hi by {
            assert(t[i] == s[i]);
        }
        lemma_sum_bounded(t, lo, hi);
        let n = s.len() as int;
        let x = s.last();
        let st = sum_of(t);
        assert(n * lo <= st + x <= n * hi) by (nonlinear_arith)
            requires
                (n - 1) * lo <= st <= (n - 1) * hi,
                lo <= x <= hi,
        ;
    }
}

/// The mean of values between `lo` and `hi` lies between them too.
pub proof fn lemma_mean_bounded(s: Seq<int>, lo: int, hi: int)
    requires
        s.len() > 0,
        lo <= hi,
        forall|i: int| 0 <= i < s.len() ==> lo <= #[trigger] s[i] <= hi,
    ensures
        lo <= mean_of(s) <= hi,
{
    lemma_sum_bounded(s, lo, hi);
    let n = s.len() as int;
    let t = sum_of(s);
    if t >= 0 {
        assert(t / n <= hi && (lo <= 0 || lo <= t / n)) by (nonlinear_arith)
            requires
                n > 0,
                0 <= t,
                n * lo <= t <= n * hi,
        ;
    } else {
        let u = -t;
        assert(u / n <= -lo && (hi >= 0 || -hi <= u / n)) by (nonlinear_arith)
            requires
                n > 0,
                0 < u,
                -(n * hi) <= u <= -(n * lo),
        ;
    }
}

/// The integer values of a sequence of measurements.
pub open spec fn values_of<T: Average>(s: Seq<T>) -> Seq<int> {
    s.map_values(|e: T| e.value())
}

/// A measurement carried as one integer, which can be averaged.
pub trait Average: Sized {
    /// The integer the measurement stands for, in its unit.
    spec fn value(&self) -> int;

    /// The measurement's integer.
    fn to_i64(&self) -> (r: i64)
        ensures
            r as int == self.value(),
    ;

    /// The measurement of an integer.
    fn from_i64(v: i64) -> (r: Self)
        ensures
            r.value() == v as int,
    ;

    /// Mean of the measurements, rounded toward zero; `None` exactly when there are none.
    fn average(elems: &[Self]) -> (r: Option<Self>)
        ensures
            r is None <==> elems@.len() == 0,
            r matches Some(a) ==> a.value() == mean_of(elems@.map_values(|e: Self| e.value())),
    {
        if elems.len() == 0 {
            return None;
        }
        let ghost vals = elems@.map_values(|e: Self| e.value());
        let mut total: i128 = 0;
        let mut i: usize = 0;
        while i < elems.len()
            invariant
                i <= elems@.len(),
                vals == elems@.map_values(|e: Self| e.value()),
                total as int == sum_of(vals.take(i as int)),
                -(i as int) * 0x8000_0000_0000_0000 <= total <= (i as int) * 0x7fff_ffff_ffff_ffff,
            decreases elems@.len() - i,
        {
            let v = elems[i].to_i64();
            proof {
                assert(vals.take(i as int + 1) =~= vals.take(i as int).push(v as int));
                lemma_sum_of_push(vals.take(i as int), v as int);
            }
            total = total + v as i128;
            i = i + 1;
        }
        assert(vals.take(i as int) =~= vals);
        Some(Self::from_i64(mean_i128(total, elems.len())))
    }
}

pub proof fn lemma_sum_of_push(s: Seq<int>, x: int)
    ensures
        sum_of(s.push(x)) == sum_of(s) + x,
{
    assert(s.push(x).drop_last() =~= s);
}

/// Mean of `n` integers whose sum is `total`, rounded toward zero.
fn mean_i128(total: i128, n: usize) -> (r: i64)
    requires
        n > 0,
        -(n as int) * 0x8000_0000_0000_0000 <= total <= (n as int) * 0x7fff_ffff_ffff_ffff,
    ensures
        r as int == trunc_div(total as int, n as int),
{
    let d = n as i128;
    if total >= 0 {
        proof {
            assert(total / d <= 0x7fff_ffff_ffff_ffff) by (nonlinear_arith)
                requires
                    d > 0,
                    0 <= total <= d * 0x7fff_ffff_ffff_ffff,
            ;
        }
        (total / d) as i64
    } else {
        proof {
            let t: int = -(total as int);
            assert(t / (d as int) <= 0x8000_0000_0000_0000) by (nonlinear_arith)
                requires
                    d > 0,
                    0 <= t <= d * 0x8000_0000_0000_0000,
            ;
        }
        (-((-total) / d)) as i64
    }
}

impl Average for i64 {
    open spec fn value(&self) -> int {
        *self as int
    }

    fn to_i64(&self) -> (r: i64) {
        *self
    }

    fn from_i64(v: i64) -> (r: i64) {
        v
    }
}

/// Power in watts.
#[derive(Debug, Clone, Copy, PartialEq, Eq, PartialOrd, Ord)]
pub struct Power(pub i64);

impl Average for Power {
    open spec fn value(&self) -> int {
        self.0 as int
    }

    fn to_i64(&self) -> (r: i64) {
        self.0
    }

    fn from_i64(v: i64) -> (r: Power) {
        Power(v)
    }
}

/// Heart rate in beats per minute.
#[derive(Debug, Clone, Copy, PartialEq, Eq, PartialOrd, Ord)]
pub struct HeartRate(pub i64);

impl Average for HeartRate {
    open spec fn value(&self) -> int {
        self.0 as int
    }

    fn to_i64(&self) -> (r: i64) {
        self.0
    }

    fn from_i64(v: i64) -> (r: HeartRate) {
        HeartRate(v)
    }
}

/// Speed in millimetres per second.
#[derive(Debug, Clone, Copy, PartialEq, Eq, PartialOrd, Ord)]
pub struct Speed(pub i64);

impl Average for Speed {
    open spec fn value(&self) -> int {
        self.0 as int
    }

    fn to_i64(&self) -> (r: i64) {
        self.0
    }

    fn from_i64(v: i64) -> (r: Speed) {
        Speed(v)
    }
}

/// Cadence in revolutions per minute.
#[derive(Debug, Clone, Copy, PartialEq, Eq)]
pub struct Cadence(pub i64);

/// Mechanical work in joules.
#[derive(Debug, Clone, Copy, PartialEq, Eq, PartialOrd, Ord)]
pub struct Work(pub i64);

/// Altitude in millimetres.
#[derive(Debug, Clone, Copy, PartialEq, Eq, PartialOrd, Ord)]
pub struct Altitude(pub i64);

/// Signed altitude difference in millimetres.
#[derive(Debug, Clone, Copy, PartialEq, Eq, PartialOrd, Ord)]
pub struct AltitudeDiff(pub i64);

/// Body weight in grams.
#[derive(Debug, Clone, Copy, PartialEq, Eq)]
pub struct Weight(pub i64);

/// Largest day number, in magnitude, that dates may carry: about eleven
/// million years either side of year 1.
pub const MAX_DAY: i64 = 4_294_967_296;

/// A calendar date as a day number: 1 is 1 January of year 1 in the proleptic
/// Gregorian calendar, and each day after adds one.
#[derive(Debug, Clone, Copy, PartialEq, Eq, PartialOrd, Ord, Hash)]
pub struct Day(pub i64);

impl Day {
    /// The day number lies within `MAX_DAY` of zero.
    pub open spec fn wf(&self) -> bool {
        -MAX_DAY <= self.0 <= MAX_DAY
    }
}

} // verus!
