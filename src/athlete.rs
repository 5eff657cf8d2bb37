//! The athlete's thresholds and weight over time.
use vstd::prelude::*;

use crate::measurements::{Day, HeartRate, Power, Weight};

verus! {

broadcast use {vstd::seq_lib::to_multiset_insert, vstd::seq_lib::group_to_multiset_ensures};

/// One measurement of the athlete, effective from its date on.
#[derive(Clone, Copy, Debug, PartialEq, Eq)]
pub enum MeasurementRecord {
    FTP(Power),
    FTHr(HeartRate),
    Weight(Weight),
}

impl MeasurementRecord {
    pub open spec fn get_ftp_spec(&self) -> Option<Power> {
        match *self {
            MeasurementRecord::FTP(p) => Some(p),
            _ => None,
        }
    }

    pub open spec fn get_fthr_spec(&self) -> Option<HeartRate> {
        match *self {
            MeasurementRecord::FTHr(hr) => Some(hr),
            _ => None,
        }
    }

    /// The threshold power of an FTP record.
    pub fn get_ftp(&self) -> (r: Option<Power>)
        ensures
            r == self.get_ftp_spec(),
    {
        match self {
            MeasurementRecord::FTP(power) => Some(*power),
            _ => None,
        }
    }

    /// The threshold heart rate of an FTHr record.
    pub fn get_fthr(&self) -> (r: Option<HeartRate>)
        ensures
            r == self.get_fthr_spec(),
    {
        match self {
            MeasurementRecord::FTHr(hr) => Some(*hr),
            _ => None,
        }
    }
}

/// Dates never decrease along the sequence.
pub open spec fn sorted_by_date(s: Seq<(Day, MeasurementRecord)>) -> bool {
    forall|i: int, j: int| 0 <= i < j < s.len() ==> #[trigger] s[i].0.0 <= #[trigger] s[j].0.0
}

/// Threshold power of the last FTP record dated on or before `d`.
pub open spec fn latest_ftp(s: Seq<(Day, MeasurementRecord)>, d: int) -> Option<Power>
    decreases s.len(),
{
    if s.len() == 0 {
        None
    } else {
        match s.last().1 {
            MeasurementRecord::FTP(p) if s.last().0.0 <= d => Some(p),
            _ => latest_ftp(s.drop_last(), d),
        }
    }
}

/// Threshold heart rate of the last FTHr record dated on or before `d`.
pub open spec fn latest_fthr(s: Seq<(Day, MeasurementRecord)>, d: int) -> Option<HeartRate>
    decreases s.len(),
{
    if s.len() == 0 {
        None
    } else {
        match s.last().1 {
            MeasurementRecord::FTHr(h) if s.last().0.0 <= d => Some(h),
            _ => latest_fthr(s.drop_last(), d),
        }
    }
}

/// Where a record dated `d` goes in a date-sorted sequence: after every
/// record dated on or before `d`.
pub open spec fn insertion_point(s: Seq<(Day, MeasurementRecord)>, d: int) -> int
    decreases s.len(),
{
    if s.len() == 0 {
        0
    } else if s.last().0.0 <= d {
        s.len() as int
    } else {
        insertion_point(s.drop_last(), d)
    }
}

/// The records sorted by date; records of one date keep their order.
pub open spec fn sort_by_date(s: Seq<(Day, MeasurementRecord)>) -> Seq<(Day, MeasurementRecord)>
    decreases s.len(),
{
    if s.len() == 0 {
        s
    } else {
        let t = sort_by_date(s.drop_last());
        t.insert(insertion_point(t, s.last().0.0 as int), s.last())
    }
}

proof fn lemma_insertion_point(s: Seq<(Day, MeasurementRecord)>, d: int, pos: int)
    requires
        sorted_by_date(s),
        0 <= pos <= s.len(),
        forall|k: int| 0 <= k < pos ==> #[trigger] s[k].0.0 <= d,
        pos < s.len() ==> s[pos].0.0 > d,
    ensures
        insertion_point(s, d) == pos,
    decreases s.len(),
{
    if s.len() > 0 && pos < s.len() {
        let t = s.drop_last();
        assert(s.last().0.0 >= s[pos].0.0) by {
            if pos < s.len() - 1 {
                assert(s[pos].0.0 <= s[s.len() - 1].0.0);
            }
        }
        assert forall|a: int, b: int| 0 <= a < b < t.len() implies #[trigger] t[a].0.0
            <= #[trigger] t[b].0.0 by {
            assert(t[a] == s[a] && t[b] == s[b]);
        }
        assert forall|k: int| 0 <= k < pos implies #[trigger] t[k].0.0 <= d by {
            assert(t[k] == s[k]);
        }
        if pos < t.len() {
            assert(t[pos] == s[pos]);
        }
        lemma_insertion_point(t, d, pos);
    }
}

/// The athlete's measurements, ordered by date.
pub struct MeasurementRecords {
    records: Vec<(Day, MeasurementRecord)>,
}

impl MeasurementRecords {
    #[verifier::type_invariant]
    spec fn is_sorted(&self) -> bool {
        sorted_by_date(self.records@)
    }

    pub closed spec fn view(&self) -> Seq<(Day, MeasurementRecord)> {
        self.records@
    }

    /// The records, ordered by date; those of one date keep their given order.
    pub fn new(measurements: Vec<(Day, MeasurementRecord)>) -> (r: Self)
        ensures
            r@ == sort_by_date(measurements@),
            sorted_by_date(r@),
            r@.to_multiset() == measurements@.to_multiset(),
    {
        let mut sorted: Vec<(Day, MeasurementRecord)> = Vec::new();
        let mut i: usize = 0;
        assert(measurements@.take(0) =~= sorted@);
        assert(sort_by_date(measurements@.take(0)) == measurements@.take(0));
        while i < measurements.len()
            invariant
                i <= measurements@.len(),
                sorted_by_date(sorted@),
                sorted@ == sort_by_date(measurements@.take(i as int)),
                sorted@.to_multiset() == measurements@.take(i as int).to_multiset(),
            decreases measurements@.len() - i,
        {
            let e = measurements[i];
            let mut pos: usize = 0;
            while pos < sorted.len() && sorted[pos].0.0 <= e.0.0
                invariant
                    pos <= sorted@.len(),
                    forall|k: int| 0 <= k < pos ==> #[trigger] sorted@[k].0.0 <= e.0.0,
                decreases sorted@.len() - pos,
            {
                pos = pos + 1;
            }
            let ghost before = sorted@;
            proof {
                lemma_insertion_point(before, e.0.0 as int, pos as int);
                assert(measurements@.take(i as int + 1).drop_last() =~= measurements@.take(i as int));
            }
            sorted.insert(pos, e);
            proof {
                assert forall|a: int, b: int| 0 <= a < b < sorted@.len() implies #[trigger] sorted@[a].0.0
                    <= #[trigger] sorted@[b].0.0 by {
                    if b < pos {
                    } else if b == pos {
                        assert(sorted@[a] == before[a]);
                    } else if a < pos {
                        assert(sorted@[b] == before[b - 1]);
                        assert(before[pos as int].0.0 > e.0.0);
                        assert(before[a].0.0 <= e.0.0);
                    } else if a == pos {
                        assert(sorted@[b] == before[b - 1]);
                        assert(before[pos as int].0.0 > e.0.0);
                        if b - 1 > pos {
                            assert(before[pos as int].0.0 <= before[b - 1].0.0);
                        }
                    } else {
                        assert(sorted@[a] == before[a - 1]);
                        assert(sorted@[b] == before[b - 1]);
                    }
                }
                assert(measurements@.take(i as int + 1) =~= measurements@.take(i as int).push(e));
                assert(before.insert(pos as int, e).to_multiset() == before.to_multiset().insert(e));
                let prefix = measurements@.take(i as int);
                assert(prefix.push(e) =~= prefix.insert(i as int, e));
                assert(prefix.insert(i as int, e).to_multiset() == prefix.to_multiset().insert(e));
            }
            i = i + 1;
        }
        assert(measurements@.take(i as int) =~= measurements@);
        MeasurementRecords { records: sorted }
    }

    /// Threshold power in force on `date`: that of the last FTP record dated
    /// on or before it.
    pub fn get_actual_ftp(&self, date: &Day) -> (r: Option<Power>)
        ensures
            r == latest_ftp(self@, date.0 as int),
    {
        let mut found: Option<Power> = None;
        let mut i: usize = 0;
        while i < self.records.len()
            invariant
                i <= self.records@.len(),
                found == latest_ftp(self.records@.take(i as int), date.0 as int),
            decreases self.records@.len() - i,
        {
            proof {
                assert(self.records@.take(i as int + 1).drop_last() =~= self.records@.take(i as int));
            }
            let (d, m) = self.records[i];
            if d.0 <= date.0 {
                match m {
                    MeasurementRecord::FTP(p) => {
                        found = Some(p);
                    },
                    _ => {},
                }
            }
            i = i + 1;
        }
        assert(self.records@.take(i as int) =~= self.records@);
        found
    }

    /// Threshold heart rate in force on `date`: that of the last FTHr record
    /// dated on or before it.
    pub fn get_actual_fthr(&self, date: &Day) -> (r: Option<HeartRate>)
        ensures
            r == latest_fthr(self@, date.0 as int),
    {
        let mut found: Option<HeartRate> = None;
        let mut i: usize = 0;
        while i < self.records.len()
            invariant
                i <= self.records@.len(),
                found == latest_fthr(self.records@.take(i as int), date.0 as int),
            decreases self.records@.len() - i,
        {
            proof {
                assert(self.records@.take(i as int + 1).drop_last() =~= self.records@.take(i as int));
            }
            let (d, m) = self.records[i];
            if d.0 <= date.0 {
                match m {
                    MeasurementRecord::FTHr(h) => {
                        found = Some(h);
                    },
                    _ => {},
                }
            }
            i = i + 1;
        }
        assert(self.records@.take(i as int) =~= self.records@);
        found
    }
}

/// No threshold power is in force before the earliest FTP record; from the
/// latest FTP record's date on, the latest record's power is.
pub proof fn lemma_ftp_timeline(s: Seq<(Day, MeasurementRecord)>, d: int)
    requires
        sorted_by_date(s),
    ensures
        (forall|i: int| 0 <= i < s.len() && (#[trigger] s[i]).1 is FTP ==> d < s[i].0.0)
            ==> latest_ftp(s, d) is None,
        forall|j: int|
            0 <= j < s.len() && (#[trigger] s[j]).1 is FTP && s[j].0.0 <= d && (forall|k: int|
                j < k < s.len() ==> !((#[trigger] s[k]).1 is FTP)) ==> latest_ftp(s, d) == s[j].1.get_ftp_spec(),
    decreases s.len(),
{
    if s.len() > 0 {
        let t = s.drop_last();
        assert forall|a: int, b: int| 0 <= a < b < t.len() implies #[trigger] t[a].0.0
            <= #[trigger] t[b].0.0 by {
            assert(t[a] == s[a] && t[b] == s[b]);
        }
        lemma_ftp_timeline(t, d);
        if forall|i: int| 0 <= i < s.len() && (#[trigger] s[i]).1 is FTP ==> d < s[i].0.0 {
            assert forall|i: int| 0 <= i < t.len() && (#[trigger] t[i]).1 is FTP implies d < t[i].0.0 by {
                assert(t[i] == s[i]);
            }
            assert(!(s.last().1 is FTP) || d < s.last().0.0);
        }
        assert forall|j: int|
            0 <= j < s.len() && (#[trigger] s[j]).1 is FTP && s[j].0.0 <= d && (forall|k: int|
                j < k < s.len() ==> !((#[trigger] s[k]).1 is FTP)) implies latest_ftp(s, d)
            == s[j].1.get_ftp_spec() by {
            if j < s.len() - 1 {
                assert(!(s[s.len() - 1].1 is FTP));
                assert(t[j] == s[j]);
                assert forall|k: int| j < k < t.len() implies !((#[trigger] t[k]).1 is FTP) by {
                    assert(t[k] == s[k]);
                }
            }
        }
    }
}

/// No threshold heart rate is in force before the earliest FTHr record; from
/// the latest FTHr record's date on, the latest record's heart rate is.
pub proof fn lemma_fthr_timeline(s: Seq<(Day, MeasurementRecord)>, d: int)
    requires
        sorted_by_date(s),
    ensures
        (forall|i: int| 0 <= i < s.len() && (#[trigger] s[i]).1 is FTHr ==> d < s[i].0.0)
            ==> latest_fthr(s, d) is None,
        forall|j: int|
            0 <= j < s.len() && (#[trigger] s[j]).1 is FTHr && s[j].0.0 <= d && (forall|k: int|
                j < k < s.len() ==> !((#[trigger] s[k]).1 is FTHr)) ==> latest_fthr(s, d)
                == s[j].1.get_fthr_spec(),
    decreases s.len(),
{
    if s.len() > 0 {
        let t = s.drop_last();
        assert forall|a: int, b: int| 0 <= a < b < t.len() implies #[trigger] t[a].0.0
            <= #[trigger] t[b].0.0 by {
            assert(t[a] == s[a] && t[b] == s[b]);
        }
        lemma_fthr_timeline(t, d);
        if forall|i: int| 0 <= i < s.len() && (#[trigger] s[i]).1 is FTHr ==> d < s[i].0.0 {
            assert forall|i: int| 0 <= i < t.len() && (#[trigger] t[i]).1 is FTHr implies d < t[i].0.0 by {
                assert(t[i] == s[i]);
            }
            assert(!(s.last().1 is FTHr) || d < s.last().0.0);
        }
        assert forall|j: int|
            0 <= j < s.len() && (#[trigger] s[j]).1 is FTHr && s[j].0.0 <= d && (forall|k: int|
                j < k < s.len() ==> !((#[trigger] s[k]).1 is FTHr)) implies latest_fthr(s, d)
            == s[j].1.get_fthr_spec() by {
            if j < s.len() - 1 {
                assert(!(s[s.len() - 1].1 is FTHr));
                assert(t[j] == s[j]);
                assert forall|k: int| j < k < t.len() implies !((#[trigger] t[k]).1 is FTHr) by {
                    assert(t[k] == s[k]);
                }
            }
        }
    }
}

} // verus!
