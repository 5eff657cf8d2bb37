use activity_analyser::activity_analysis::{
    best_by_duration, Activity, ActivityAnalysis, PeakPerformances,
};
use activity_analyser::measurements::{Altitude, AltitudeDiff, HeartRate, Power, Speed, Work};
use activity_analyser::metrics::{IF, TSS, VI};

fn stamped<T: Copy>(values: &[T]) -> Vec<(T, i64)> {
    values
        .iter()
        .enumerate()
        .map(|(i, v)| (*v, 1_700_000_000 + i as i64))
        .collect()
}

fn hour_at(power: i64, hr: i64) -> Activity {
    Activity {
        workout_name: Some("steady".to_string()),
        start_time: Some(1_700_000_000),
        duration: Some(3600),
        power: stamped(&vec![Power(power); 3600]),
        heart_rate: stamped(&vec![HeartRate(hr); 3600]),
        speed: stamped(&vec![Speed(8_000); 3600]),
        altitude: vec![Altitude(100_000), Altitude(100_500), Altitude(100_200)],
    }
}

#[test]
fn steady_hour_analysis() {
    let activity = hour_at(260, 170);
    let durations = vec![5, 60, 300, 1200];
    let analysis =
        ActivityAnalysis::from_activity(&Some(Power(260)), &Some(HeartRate(170)), &activity, &durations);
    assert_eq!(analysis.total_work, Work(936_000));
    assert_eq!(analysis.normalized_power, Some(Power(260)));
    assert_eq!(analysis.average_power, Some(Power(260)));
    assert_eq!(analysis.maximum_power, Some(Power(260)));
    assert_eq!(analysis.intensity_factor, Some(IF(10000)));
    assert_eq!(analysis.variability_index, Some(VI(10000)));
    assert_eq!(analysis.tss, Some(TSS(100)));
    assert_eq!(analysis.hr_tss, Some(TSS(105)));
    assert_eq!(analysis.average_heart_rate, Some(HeartRate(170)));
    assert_eq!(analysis.maximum_speed, Some(Speed(8_000)));
    assert_eq!(analysis.elevation_gain, Some(AltitudeDiff(500)));
    assert_eq!(analysis.elevation_loss, Some(AltitudeDiff(300)));
    assert_eq!(analysis.peak_performances.power.len(), 4);
    assert_eq!(analysis.peak_performances.power[&60].value, Power(260));
    assert_eq!(analysis.peak_performances.heart_rate[&1200].value, HeartRate(170));
}

#[test]
fn missing_thresholds_leave_scores_undefined() {
    let activity = hour_at(200, 150);
    let analysis = ActivityAnalysis::from_activity(&None, &None, &activity, &vec![]);
    assert_eq!(analysis.tss, None);
    assert_eq!(analysis.intensity_factor, None);
    assert_eq!(analysis.hr_tss, None);
    assert_eq!(analysis.variability_index, Some(VI(10000)));
    assert!(analysis.peak_performances.power.is_empty());
}

#[test]
fn empty_activity_analysis() {
    let activity = Activity {
        workout_name: None,
        start_time: None,
        duration: None,
        power: vec![],
        heart_rate: vec![],
        speed: vec![],
        altitude: vec![],
    };
    let analysis =
        ActivityAnalysis::from_activity(&Some(Power(250)), &Some(HeartRate(170)), &activity, &vec![5]);
    assert_eq!(analysis.total_work, Work(0));
    assert_eq!(analysis.normalized_power, None);
    assert_eq!(analysis.average_power, None);
    assert_eq!(analysis.maximum_power, None);
    assert_eq!(analysis.tss, None);
    assert_eq!(analysis.hr_tss, Some(TSS(0)));
    assert_eq!(analysis.elevation_gain, None);
    assert!(analysis.peak_performances.speed.is_empty());
}

#[test]
fn peaks_only_for_covered_durations() {
    let power = stamped(&[Power(100), Power(400), Power(300)]);
    let hr = stamped(&[HeartRate(120)]);
    let speed = stamped(&[Speed(1_000), Speed(3_000)]);
    let peaks = PeakPerformances::from_data(&power, &hr, &speed, &vec![1, 2, 3, 2]);
    assert_eq!(peaks.power.len(), 3);
    assert_eq!(peaks.power[&2].value, Power(350));
    assert_eq!(peaks.heart_rate.len(), 1);
    assert_eq!(peaks.speed.len(), 2);
    assert_eq!(peaks.speed[&2].value, Speed(2_000));
}

#[test]
fn best_values_across_activities() {
    let entries = vec![(5, 300), (60, 250), (5, 420), (60, 240), (300, 200), (5, 410)];
    let best = best_by_duration(&entries);
    assert_eq!(best.len(), 3);
    assert_eq!(best[&5], 420);
    assert_eq!(best[&60], 250);
    assert_eq!(best[&300], 200);
    let mut reversed = entries.clone();
    reversed.reverse();
    assert_eq!(best_by_duration(&reversed), best);
    assert!(best_by_duration(&vec![]).is_empty());
}
