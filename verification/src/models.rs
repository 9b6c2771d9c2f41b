//! The records of the vault and the values derived from them.

use vstd::prelude::*;
use crate::calendar::Date;

verus! {

/// `uuid::Uuid`, the identifier of a cycle. The library hands such a value on
/// and never looks inside it.
#[verifier::external_type_specification]
#[verifier::external_body]
pub struct ExUuid(uuid::Uuid);

/// `uuid::Uuid::new_v4` draws a random identifier; nothing is promised of it.
pub assume_specification[ uuid::Uuid::new_v4 ]() -> (id: uuid::Uuid);

/// How strong the flow was on a day.
#[derive(Debug, Clone, Copy, PartialEq, Eq, Structural)]
pub enum FlowLevel {
    NoFlow,
    Light,
    Medium,
    Heavy,
}

/// The kinds of symptom that can be recorded.
#[derive(Debug, Clone, Copy, PartialEq, Eq, Structural)]
pub enum SymptomType {
    Cramps,
    Headache,
    MoodLow,
    MoodHigh,
    Fatigue,
    Bloating,
    BreastTenderness,
    Acne,
}

/// One cycle: the run of flow days from `start_date` to `end_date`. A cycle
/// without an end date is still in progress.
#[derive(Debug, Clone, Copy)]
pub struct Cycle {
    pub id: uuid::Uuid,
    pub start_date: Date,
    pub end_date: Option<Date>,
}

/// What was observed on one day.
#[derive(Debug, Clone)]
pub struct DayLog {
    pub date: Date,
    pub flow_level: FlowLevel,
    pub notes: String,
}

/// One symptom on one day, with a severity from 1 to 3.
#[derive(Debug, Clone, Copy, PartialEq, Eq, Structural)]
pub struct Symptom {
    pub date: Date,
    pub symptom_type: SymptomType,
    pub severity: u8,
}

/// A mean, kept exact as the sum of its samples and their number.
#[derive(Debug, Clone, Copy, PartialEq, Eq, Structural)]
pub struct Mean {
    pub total: i128,
    pub count: usize,
}

/// The spread of the cycle lengths that a forecast rests on, kept exact:
/// how many lengths there are, their sum, and the sum of their squares.
///
/// With `n` for the count, `s` for the total and `q` for the squares, the
/// mean of the lengths is `s / n` and their sample variance is
/// `(n * q - s * s) / (n * (n - 1))`.
#[derive(Debug, Clone, Copy, PartialEq, Eq, Structural)]
pub struct Spread {
    pub count: usize,
    pub total: i128,
    pub squares: i128,
}

/// How far a forecast is to be trusted: a number from 0.1 to 0.95, kept
/// exact.
#[derive(Debug, Clone, Copy, PartialEq, Eq, Structural)]
pub enum Confidence {
    /// 0.5: there are fewer than two cycle lengths to judge by.
    Flat,
    /// 0.1: the sample standard deviation of the cycle lengths is at least
    /// nine tenths of their mean.
    Lowest,
    /// 0.95: the sample standard deviation of the cycle lengths is at most
    /// a twentieth of their mean.
    Highest,
    /// One minus the quotient of the sample standard deviation of the cycle
    /// lengths and their mean, which lies between the lowest and the
    /// highest value.
    Measured(Spread),
}

/// The forecast of the next cycle.
#[derive(Debug, Clone, Copy, PartialEq, Eq, Structural)]
pub struct Prediction {
    pub predicted_start: Date,
    pub predicted_end: Date,
    pub confidence: Confidence,
}

/// The fertile days before the forecast cycle.
#[derive(Debug, Clone, Copy, PartialEq, Eq, Structural)]
pub struct FertilityWindow {
    pub fertile_start: Date,
    pub fertile_end: Date,
    pub ovulation_day: Date,
    pub peak_start: Date,
    pub peak_end: Date,
}

/// Figures over all completed cycles.
#[derive(Debug, Clone, Copy, PartialEq, Eq, Structural)]
pub struct CycleStats {
    pub total_cycles: usize,
    pub avg_cycle_length: Option<Mean>,
    pub avg_period_length: Option<Mean>,
    pub shortest_cycle: Option<i64>,
    pub longest_cycle: Option<i64>,
    pub last_period_start: Option<Date>,
    pub last_period_end: Option<Date>,
}

/// The settings kept in the vault.
#[derive(Debug, Clone, Copy, PartialEq, Eq, Structural)]
pub struct AppSettings {
    pub auto_lock_minutes: u32,
    pub wipe_after_attempts: Option<u32>,
    pub show_fertility: bool,
}

impl Default for AppSettings {
    /// Lock after five minutes, never wipe, do not show the fertility window.
    fn default() -> (settings: Self)
        ensures
            settings == (AppSettings {
                auto_lock_minutes: 5,
                wipe_after_attempts: None,
                show_fertility: false,
            }),
    {
        AppSettings { auto_lock_minutes: 5, wipe_after_attempts: None, show_fertility: false }
    }
}

/// Everything the vault holds. It is encrypted and decrypted as a whole.
#[derive(Debug, Clone)]
pub struct AppData {
    pub cycles: Vec<Cycle>,
    pub day_logs: Vec<DayLog>,
    pub symptoms: Vec<Symptom>,
    pub settings: AppSettings,
}

impl Default for AppData {
    /// The empty vault with the default settings.
    fn default() -> (data: Self)
        ensures
            data.cycles@.len() == 0,
            data.day_logs@.len() == 0,
            data.symptoms@.len() == 0,
            data.settings == (AppSettings {
                auto_lock_minutes: 5,
                wipe_after_attempts: None,
                show_fertility: false,
            }),
    {
        AppData {
            cycles: Vec::new(),
            day_logs: Vec::new(),
            symptoms: Vec::new(),
            settings: AppSettings::default(),
        }
    }
}

/// What one month's view shows.
#[derive(Debug, Clone)]
pub struct MonthData {
    pub year: i32,
    pub month: u32,
    pub day_logs: Vec<DayLog>,
    pub symptoms: Vec<Symptom>,
    pub predictions: Vec<Prediction>,
    pub fertility: Option<FertilityWindow>,
    pub current_cycle: Option<Cycle>,
    pub stats: CycleStats,
}

} // verus!
