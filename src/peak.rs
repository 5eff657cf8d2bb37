//! Best sustained efforts: the highest average of a metric over a window of
//! consecutive one-second samples.
use vstd::prelude::*;

use crate::measurements::{mean_of, values_of, Average};
use crate::metrics::lemma_mean_of_constant;

verus! {

/// Highest average of a metric over `duration` seconds, with the timestamps,
/// in seconds, of the first and last sample of the winning window.
#[derive(Debug)]
pub struct Peak<T> {
    pub value: T,
    pub timestamps: (i64, i64),
    pub duration: i64,
}

/// The metric values of timestamped samples.
pub open spec fn sample_values<T: Average>(m: Seq<(T, i64)>) -> Seq<int> {
    m.map_values(|e: (T, i64)| e.0.value())
}

/// Mean of the window of `size` samples starting at `i`.
pub open spec fn window_mean<T: Average>(m: Seq<(T, i64)>, i: int, size: int) -> int {
    mean_of(sample_values(m).subrange(i, i + size))
}

/// `p` is the peak of `m` over `duration` samples: the window starting at
/// `i` has the highest mean, and no later window reaches it.
pub open spec fn is_peak_at<T: Average>(p: Peak<T>, m: Seq<(T, i64)>, duration: int, i: int) -> bool {
    &&& 0 <= i <= m.len() - duration
    &&& p.value.value() == window_mean(m, i, duration)
    &&& p.timestamps == (m[i].1, m[i + duration - 1].1)
    &&& p.duration == duration
    &&& forall|j: int| 0 <= j <= m.len() - duration ==> #[trigger] window_mean(m, j, duration) <= p.value.value()
    &&& forall|j: int| i < j <= m.len() - duration ==> #[trigger] window_mean(m, j, duration) < p.value.value()
}

impl<T: Average + Copy> Peak<T> {
    /// Peak of one-second samples over `duration` seconds: the window of
    /// `duration` consecutive samples with the highest average, the latest
    /// such window where several tie; `None` when there are fewer samples.
    pub fn from_measurement_records(measurements: &Vec<(T, i64)>, duration: i64) -> (r: Option<Self>)
        requires
            duration >= 1,
        ensures
            r is None <==> measurements@.len() < duration,
            r matches Some(p) ==> exists|i: int| is_peak_at(p, measurements@, duration as int, i),
    {
        if (measurements.len() as u64) < (duration as u64) {
            return None;
        }
        let size = duration as usize;
        let mut best: Option<Peak<T>> = None;
        let ghost mut best_at: int = 0;
        let mut i: usize = 0;
        while i <= measurements.len() - size
            invariant
                1 <= size <= measurements@.len(),
                size == duration,
                i <= measurements@.len() - size + 1,
                i == 0 <==> best is None,
                best matches Some(p) ==> {
                    &&& 0 <= best_at < i
                    &&& p.value.value() == window_mean(measurements@, best_at, duration as int)
                    &&& p.timestamps == (measurements@[best_at].1, measurements@[best_at + duration - 1].1)
                    &&& p.duration == duration
                    &&& forall|j: int| 0 <= j < i ==> #[trigger] window_mean(measurements@, j, duration as int) <= p.value.value()
                    &&& forall|j: int| best_at < j < i ==> #[trigger] window_mean(measurements@, j, duration as int) < p.value.value()
                },
            decreases measurements@.len() - i,
        {
            let mut window: Vec<T> = Vec::new();
            let end: usize = i + size;
            let mut k: usize = i;
            while k < end
                invariant
                    end == i + size,
                    end <= measurements@.len(),
                    i <= k <= end,
                    window@.len() == k - i,
                    forall|x: int| 0 <= x < window@.len() ==> #[trigger] window@[x] == measurements@[i + x].0,
                decreases end - k,
            {
                window.push(measurements[k].0);
                k = k + 1;
            }
            assert(values_of(window@) =~= sample_values(measurements@).subrange(i as int, i + size));
            match T::average(window.as_slice()) {
                Some(avg) => {
                    let better = match &best {
                        Some(p) => avg.to_i64() >= p.value.to_i64(),
                        None => true,
                    };
                    if better {
                        best = Some(Peak {
                            value: avg,
                            timestamps: (measurements[i].1, measurements[i + size - 1].1),
                            duration,
                        });
                        proof {
                            best_at = i as int;
                        }
                    }
                },
                None => {},
            }
            i = i + 1;
        }
        proof {
            if best is Some {
                assert(is_peak_at(best->0, measurements@, duration as int, best_at));
            }
        }
        best
    }
}

/// On samples of one constant value, every window averages to that value, so
/// the peak is that value whichever window wins.
pub proof fn lemma_constant_peak<T: Average>(p: Peak<T>, m: Seq<(T, i64)>, duration: int, c: int)
    requires
        duration >= 1,
        forall|k: int| 0 <= k < m.len() ==> (#[trigger] m[k]).0.value() == c,
        exists|i: int| is_peak_at(p, m, duration, i),
    ensures
        p.value.value() == c,
        forall|j: int| 0 <= j <= m.len() - duration ==> #[trigger] window_mean(m, j, duration) == c,
{
    assert forall|j: int| 0 <= j <= m.len() - duration implies #[trigger] window_mean(m, j, duration) == c by {
        let w = sample_values(m).subrange(j, j + duration);
        assert forall|k: int| 0 <= k < w.len() implies #[trigger] w[k] == c by {
            assert(w[k] == m[j + k].0.value());
        }
        lemma_mean_of_constant(w, c);
    }
    let i = choose|i: int| is_peak_at(p, m, duration, i);
    assert(window_mean(m, i, duration) == c);
}

} // verus!
