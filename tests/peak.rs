use activity_analyser::measurements::{HeartRate, Power, Speed};
use activity_analyser::peak::Peak;

fn stamped<T: Copy>(values: &[T], start: i64) -> Vec<(T, i64)> {
    values
        .iter()
        .enumerate()
        .map(|(i, v)| (*v, start + i as i64))
        .collect()
}

#[test]
fn peak_of_constant_series_is_the_constant() {
    let data = stamped(&vec![Power(250); 100], 1_000);
    let peak = Peak::from_measurement_records(&data, 20).unwrap();
    assert_eq!(peak.value, Power(250));
    assert_eq!(peak.duration, 20);
    assert_eq!(peak.timestamps.1 - peak.timestamps.0, 19);
}

#[test]
fn peak_finds_best_window() {
    let data = stamped(
        &[Power(100), Power(300), Power(500), Power(200), Power(100)],
        10,
    );
    let peak = Peak::from_measurement_records(&data, 2).unwrap();
    assert_eq!(peak.value, Power(400));
    assert_eq!(peak.timestamps, (11, 12));
    let whole = Peak::from_measurement_records(&data, 5).unwrap();
    assert_eq!(whole.value, Power(240));
    assert_eq!(whole.timestamps, (10, 14));
}

#[test]
fn peak_ties_go_to_latest_window() {
    let data = stamped(&[HeartRate(150), HeartRate(140), HeartRate(150)], 0);
    let peak = Peak::from_measurement_records(&data, 1).unwrap();
    assert_eq!(peak.value, HeartRate(150));
    assert_eq!(peak.timestamps, (2, 2));
}

#[test]
fn peak_needs_enough_samples() {
    let data = stamped(&[Speed(5000), Speed(6000)], 0);
    assert!(Peak::from_measurement_records(&data, 3).is_none());
    assert!(Peak::<Speed>::from_measurement_records(&vec![], 1).is_none());
}
