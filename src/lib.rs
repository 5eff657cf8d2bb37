//! Training-load analytics for endurance-sport activities: normalized power,
//! stress scores, peak efforts, elevation changes and a day-by-day
//! fitness/fatigue model.
pub mod measurements;
pub mod metrics;
pub mod daily_stats;
pub mod athlete;
pub mod peak;
pub mod activity_analysis;
