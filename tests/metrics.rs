use activity_analyser::measurements::{Altitude, AltitudeDiff, Average, HeartRate, Power, Work};
use activity_analyser::metrics::{
    calc_altitude_changes, calc_normalized_power, calc_total_work, rolling_averages, IF, TSS, VI,
};
use chrono::Duration;

#[test]
fn small_data() {
    let power_data: Vec<Power> = vec![Power(200), Power(200), Power(200), Power(200)];

    assert_eq!(calc_normalized_power(&power_data), Some(Power(200)));
}

#[test]
fn constant_effort_np() {
    let power_data: Vec<Power> = (0..3600).map(|_| Power(200)).collect();

    assert_eq!(calc_normalized_power(&power_data), Some(Power(200)));
}

#[test]
fn one_hour_effort_tss() {
    let tss = TSS::calculate(&Power(260), Duration::hours(1).num_seconds(), &Power(260));
    assert_eq!(tss, TSS(100))
}

#[test]
fn ninety_minute_effort_tss() {
    let tss = TSS::calculate(&Power(260), Duration::minutes(90).num_seconds(), &Power(260));
    assert_eq!(tss, TSS(150))
}

#[test]
fn four_hour_effort_tss() {
    let tss = TSS::calculate(&Power(260), Duration::hours(4).num_seconds(), &Power(130));
    assert_eq!(tss, TSS(100))
}

#[test]
fn constant_effort_total_work() {
    let Work(work) = calc_total_work(&vec![Power(260); 100]);
    let kilojoules = work as f64 / 1000.0;
    assert!((kilojoules - 26.0).abs() <= 0.001);
}

#[test]
fn one_hour_at_threshold_for_several_thresholds() {
    for ftp in [1, 150, 260, 400, 55108] {
        assert_eq!(TSS::calculate(&Power(ftp), 3600, &Power(ftp)), TSS(100));
        assert_eq!(TSS::calculate(&Power(ftp), 5400, &Power(ftp)), TSS(150));
    }
}

#[test]
fn tss_truncates_toward_zero() {
    // 1800 s at 200 W for FTP 250: 1800 * 200 * 200 * 100 / (250 * 250 * 3600) = 32
    assert_eq!(TSS::calculate(&Power(250), 1800, &Power(200)), TSS(32));
    // 100 s at 100 W for FTP 300: 0.3086 truncates to 0
    assert_eq!(TSS::calculate(&Power(300), 100, &Power(100)), TSS(0));
}

#[test]
fn np_of_empty_stream_is_undefined() {
    assert_eq!(calc_normalized_power(&vec![]), None);
}

#[test]
fn np_of_short_stream_is_mean() {
    let power_data = vec![Power(100), Power(200), Power(301)];
    assert_eq!(calc_normalized_power(&power_data), Some(Power(200)));
    assert_eq!(Power::average(&power_data), Some(Power(200)));
}

#[test]
fn np_weights_variability() {
    // 30 s at 100 W then 30 s at 300 W: the plain mean is 200 W.
    let mut power_data = vec![Power(100); 30];
    power_data.extend(vec![Power(300); 30]);
    let np = calc_normalized_power(&power_data).unwrap();
    let windows = rolling_averages(&power_data, 30);
    let fourth: Vec<i64> = windows.iter().map(|Power(p)| p.pow(4)).collect();
    let mean = fourth.iter().sum::<i64>() / fourth.len() as i64;
    assert!(np.0.pow(4) <= mean && mean < (np.0 + 1).pow(4));
    assert!(np.0 > 200);
    assert_eq!(np, Power(222));
}

#[test]
fn rolling_averages_of_windows() {
    let data = vec![Power(1), Power(2), Power(3), Power(4), Power(6)];
    assert_eq!(
        rolling_averages(&data, 2),
        vec![Power(1), Power(2), Power(3), Power(5)]
    );
    assert_eq!(rolling_averages(&data, 5), vec![Power(3)]);
    assert_eq!(rolling_averages(&data, 6), vec![]);
}

#[test]
fn average_rounds_toward_zero() {
    assert_eq!(i64::average(&[-3i64, -4]), Some(-3));
    assert_eq!(i64::average(&[3i64, 4]), Some(3));
    assert_eq!(HeartRate::average(&[]), None);
}

#[test]
fn hr_tss_at_threshold() {
    let hr = vec![HeartRate(170); 3600];
    assert_eq!(TSS::calculate_hr_tss(&HeartRate(170), &hr), TSS(105));
}

#[test]
fn hr_tss_zones() {
    let fthr = HeartRate(100);
    let hour = |bpm: i64| vec![HeartRate(bpm); 3600];
    assert_eq!(TSS::calculate_hr_tss(&fthr, &hour(72)), TSS(20));
    assert_eq!(TSS::calculate_hr_tss(&fthr, &hour(73)), TSS(30));
    assert_eq!(TSS::calculate_hr_tss(&fthr, &hour(80)), TSS(40));
    assert_eq!(TSS::calculate_hr_tss(&fthr, &hour(84)), TSS(50));
    assert_eq!(TSS::calculate_hr_tss(&fthr, &hour(88)), TSS(60));
    assert_eq!(TSS::calculate_hr_tss(&fthr, &hour(92)), TSS(75));
    assert_eq!(TSS::calculate_hr_tss(&fthr, &hour(99)), TSS(100));
    assert_eq!(TSS::calculate_hr_tss(&fthr, &hour(102)), TSS(105));
    assert_eq!(TSS::calculate_hr_tss(&fthr, &hour(105)), TSS(110));
    assert_eq!(TSS::calculate_hr_tss(&fthr, &hour(106)), TSS(120));
    assert_eq!(TSS::calculate_hr_tss(&fthr, &vec![]), TSS(0));
}

#[test]
fn intensity_factor_and_variability_index() {
    assert_eq!(IF::calculate(&Power(260), &Power(214)), IF(8230));
    assert_eq!(IF::calculate(&Power(260), &Power(260)), IF(10000));
    assert_eq!(VI::calculate(&Power(214), &Power(199)), VI(10753));
}

#[test]
fn rising_altitude_has_gain_and_no_loss() {
    let trace = vec![Altitude(100), Altitude(200), Altitude(200), Altitude(350)];
    assert_eq!(
        calc_altitude_changes(&trace),
        (Some(AltitudeDiff(250)), None)
    );
}

#[test]
fn mixed_altitude_changes() {
    let trace = vec![Altitude(100), Altitude(50), Altitude(80), Altitude(80), Altitude(20)];
    assert_eq!(
        calc_altitude_changes(&trace),
        (Some(AltitudeDiff(30)), Some(AltitudeDiff(110)))
    );
}

#[test]
fn flat_altitude_has_neither() {
    assert_eq!(calc_altitude_changes(&vec![Altitude(5), Altitude(5)]), (None, None));
    assert_eq!(calc_altitude_changes(&vec![Altitude(5)]), (None, None));
    assert_eq!(calc_altitude_changes(&vec![]), (None, None));
}
