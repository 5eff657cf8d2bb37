use activity_analyser::athlete::{MeasurementRecord, MeasurementRecords};
use activity_analyser::measurements::{Day, HeartRate, Power, Weight};
use chrono::{Datelike, NaiveDate};

fn day(y: i32, m: u32, d: u32) -> Day {
    Day(NaiveDate::from_ymd_opt(y, m, d).unwrap().num_days_from_ce() as i64)
}

#[test]
fn find_ftp() {
    let measurements = MeasurementRecords::new(vec![
        (day(2022, 7, 8), MeasurementRecord::FTP(Power(200))),
        (day(2022, 8, 8), MeasurementRecord::FTP(Power(210))),
        (day(2022, 9, 8), MeasurementRecord::FTP(Power(220))),
    ]);
    assert_eq!(
        measurements.get_actual_ftp(&day(2022, 9, 1)),
        Some(Power(210))
    );
}

#[test]
fn timeline_before_first_and_after_last() {
    let measurements = MeasurementRecords::new(vec![
        (day(2022, 9, 8), MeasurementRecord::FTP(Power(220))),
        (day(2022, 7, 8), MeasurementRecord::FTP(Power(200))),
        (day(2022, 8, 1), MeasurementRecord::FTHr(HeartRate(178))),
        (day(2022, 8, 8), MeasurementRecord::FTP(Power(210))),
        (day(2022, 8, 9), MeasurementRecord::Weight(Weight(70_000))),
    ]);
    assert_eq!(measurements.get_actual_ftp(&day(2022, 7, 7)), None);
    assert_eq!(
        measurements.get_actual_ftp(&day(2022, 7, 8)),
        Some(Power(200))
    );
    assert_eq!(
        measurements.get_actual_ftp(&day(2022, 9, 8)),
        Some(Power(220))
    );
    assert_eq!(
        measurements.get_actual_ftp(&day(2030, 1, 1)),
        Some(Power(220))
    );
    assert_eq!(measurements.get_actual_fthr(&day(2022, 7, 31)), None);
    assert_eq!(
        measurements.get_actual_fthr(&day(2022, 8, 1)),
        Some(HeartRate(178))
    );
    assert_eq!(
        measurements.get_actual_fthr(&day(2025, 1, 1)),
        Some(HeartRate(178))
    );
}

#[test]
fn record_getters() {
    assert_eq!(MeasurementRecord::FTP(Power(250)).get_ftp(), Some(Power(250)));
    assert_eq!(MeasurementRecord::FTP(Power(250)).get_fthr(), None);
    assert_eq!(
        MeasurementRecord::FTHr(HeartRate(170)).get_fthr(),
        Some(HeartRate(170))
    );
    assert_eq!(MeasurementRecord::Weight(Weight(70_000)).get_ftp(), None);
}
