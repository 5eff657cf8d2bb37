use activity_analyser::daily_stats::{DailyStats, SortedDailyTSS, CONVERGENCE_THRESHOLD};
use activity_analyser::measurements::Day;
use activity_analyser::metrics::{DailyTSS, ATL, CTL, TSB, TSS};

fn entry(day: i64, tss: i64) -> DailyTSS {
    DailyTSS(Day(738_800 + day), TSS(tss))
}

fn scattered() -> Vec<DailyTSS> {
    vec![
        entry(9, 80),
        entry(2, 100),
        entry(5, 40),
        entry(2, 30),
        entry(12, 0),
        entry(5, 60),
    ]
}

#[test]
fn normalized_series_is_contiguous_and_summed() {
    let sorted = SortedDailyTSS::from_unsorted(&scattered(), None);
    let days = sorted.days();
    assert_eq!(days.len(), 11);
    for pair in days.windows(2) {
        assert_eq!(pair[0].0 .0 + 1, pair[1].0 .0);
    }
    assert_eq!(days[0], entry(2, 130));
    assert_eq!(days[1], entry(3, 0));
    assert_eq!(days[3], entry(5, 100));
    assert_eq!(days[7], entry(9, 80));
    assert_eq!(days[10], entry(12, 0));
}

#[test]
fn normalized_series_resumes_after_checkpoint() {
    let checkpoint = DailyStats {
        date: Day(738_800 + 3),
        tss: TSS(0),
        ctl: CTL(10_000_000),
        atl: ATL(5_000_000),
        tsb: TSB(5_000_000),
    };
    let sorted = SortedDailyTSS::from_unsorted(&scattered(), Some(&checkpoint));
    let days = sorted.days();
    assert_eq!(days.len(), 9);
    assert_eq!(days[0], entry(4, 0));
    assert_eq!(days[1], entry(5, 100));
    assert_eq!(days[8], entry(12, 0));
}

#[test]
fn normalized_series_empty_cases() {
    assert!(SortedDailyTSS::from_unsorted(&[], None).days().is_empty());
    let late = DailyStats {
        date: Day(738_800 + 20),
        tss: TSS(0),
        ctl: CTL(0),
        atl: ATL(0),
        tsb: TSB(0),
    };
    assert!(SortedDailyTSS::from_unsorted(&scattered(), Some(&late))
        .days()
        .is_empty());
}

#[test]
fn single_day_from_zero_state() {
    let sorted = SortedDailyTSS::from_unsorted(&[entry(0, 100)], None);
    let stats = DailyStats::calc_rolling(sorted, None);
    let first = &stats[0];
    assert_eq!(first.date, Day(738_800));
    assert_eq!(first.tss, TSS(100));
    let ctl = first.ctl.0 as f64 / 1e6;
    let atl = first.atl.0 as f64 / 1e6;
    let tsb = first.tsb.0 as f64 / 1e6;
    assert!((ctl - 100.0 * (1.0 - (-1.0f64 / 42.0).exp())).abs() < 1e-5);
    assert!((atl - 100.0 * (1.0 - (-1.0f64 / 7.0).exp())).abs() < 1e-5);
    assert!((ctl - 2.353).abs() < 0.001);
    assert!((atl - 13.28).abs() < 0.05);
    assert!((tsb - -10.93).abs() < 0.05);
    assert_eq!(first.tsb.0, first.ctl.0 - first.atl.0);
}

#[test]
fn rolling_keeps_every_day_and_settles() {
    let sorted = SortedDailyTSS::from_unsorted(&scattered(), None);
    let n = sorted.days().len();
    let stats = DailyStats::calc_rolling(sorted.clone(), None);
    assert!(stats.len() > n);
    for (i, day) in sorted.days().iter().enumerate() {
        assert_eq!(stats[i].date, day.0);
        assert_eq!(stats[i].tss, day.1);
    }
    for pair in stats.windows(2) {
        assert_eq!(pair[0].date.0 + 1, pair[1].date.0);
    }
    let last = stats.last().unwrap();
    assert!(last.ctl.0.abs() < CONVERGENCE_THRESHOLD);
    assert!(last.atl.0.abs() < CONVERGENCE_THRESHOLD);
    assert!(last.tsb.0.abs() < CONVERGENCE_THRESHOLD);
    let before_last = &stats[stats.len() - 2];
    assert!(
        before_last.ctl.0.abs() >= CONVERGENCE_THRESHOLD
            || before_last.atl.0.abs() >= CONVERGENCE_THRESHOLD
            || before_last.tsb.0.abs() >= CONVERGENCE_THRESHOLD
    );
}

#[test]
fn rolling_follows_the_recurrence() {
    let sorted = SortedDailyTSS::from_unsorted(&[entry(0, 100), entry(1, 50)], None);
    let stats = DailyStats::calc_rolling(sorted, None);
    let second = DailyStats::calc_next(&stats[0], &entry(1, 50));
    assert_eq!(stats[1], second);
    let third = DailyStats::calc_next(&stats[1], &entry(2, 0));
    assert_eq!(stats[2], third);
}

#[test]
fn rolling_resumes_from_checkpoint() {
    let checkpoint = DailyStats {
        date: Day(738_800),
        tss: TSS(90),
        ctl: CTL(40_000_000),
        atl: ATL(60_000_000),
        tsb: TSB(-20_000_000),
    };
    let sorted = SortedDailyTSS::from_unsorted(&[entry(2, 70)], Some(&checkpoint));
    let stats = DailyStats::calc_rolling(sorted, Some(&checkpoint));
    assert_eq!(stats[0], DailyStats::calc_next(&checkpoint, &entry(1, 0)));
    assert_eq!(stats[1], DailyStats::calc_next(&stats[0], &entry(2, 70)));
    assert!(stats.len() >= 2);
}

#[test]
fn rolling_of_nothing_is_empty() {
    let sorted = SortedDailyTSS::from_unsorted(&[], None);
    assert!(DailyStats::calc_rolling(sorted, None).is_empty());
}

#[test]
fn load_step_values() {
    let zero = CTL(0);
    assert_eq!(CTL::calculate(&zero, &entry(0, 100)), CTL(2_352_831));
    assert_eq!(ATL::calculate(&ATL(0), &entry(0, 100)), ATL(13_312_210));
    assert_eq!(TSB::calculate(&CTL(2_352_831), &ATL(13_312_210)), TSB(-10_959_379));
    assert_eq!(CTL::calculate(&CTL(1_000_000), &entry(0, 0)), CTL(976_471));
}
