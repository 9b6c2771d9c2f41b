use cykel::calendar::Date;
use cykel::models::{Confidence, Cycle, Mean, Spread};
use cykel::prediction::{calc_internals, completed_cycles, cycle_stats, fertility_window, predict};
use uuid::Uuid;

fn day(text: &str) -> Date {
    Date::parse(text).unwrap()
}

fn make_cycle(start: &str, end: &str) -> Cycle {
    Cycle { id: Uuid::new_v4(), start_date: day(start), end_date: Some(day(end)) }
}

fn open_cycle(start: &str) -> Cycle {
    Cycle { id: Uuid::new_v4(), start_date: day(start), end_date: None }
}

fn as_float(mean: Mean) -> f32 {
    mean.total as f32 / mean.count as f32
}

fn value_of(confidence: Confidence) -> f64 {
    match confidence {
        Confidence::Flat | Confidence::Lowest | Confidence::Highest => {
            confidence.fixed().unwrap() as f64 / 1000.0
        }
        Confidence::Measured(spread) => {
            let n = spread.count as f64;
            let mean = spread.total as f64 / n;
            let variance =
                (n * spread.squares as f64 - (spread.total as f64).powi(2)) / (n * (n - 1.0));
            1.0 - variance.sqrt() / mean
        }
    }
}

#[test]
fn no_prediction_with_one_cycle() {
    let cycles = vec![make_cycle("2026-01-01", "2026-01-05")];
    assert!(predict(&cycles).is_none());
}

#[test]
fn predicts_with_two_cycles() {
    let cycles = vec![
        make_cycle("2026-01-01", "2026-01-05"),
        make_cycle("2026-01-29", "2026-02-02"),
    ];
    let pred = predict(&cycles).unwrap();
    assert_eq!(pred.predicted_start, Date::from_ymd(2026, 2, 26).unwrap());
}

#[test]
fn fertility_window_calculated() {
    let cycles = vec![
        make_cycle("2026-01-01", "2026-01-05"),
        make_cycle("2026-01-29", "2026-02-02"),
    ];
    let fw = fertility_window(&cycles).unwrap();
    // Predicted period: Feb 26. Ovulation: Feb 26 - 14 = Feb 12
    assert_eq!(fw.ovulation_day, Date::from_ymd(2026, 2, 12).unwrap());
    // Fertile window: Feb 7 - Feb 12
    assert_eq!(fw.fertile_start, Date::from_ymd(2026, 2, 7).unwrap());
}

#[test]
fn cycle_stats_computed() {
    let cycles = vec![
        make_cycle("2026-01-01", "2026-01-05"),
        make_cycle("2026-01-29", "2026-02-02"),
    ];
    let stats = cycle_stats(&cycles);
    assert_eq!(stats.total_cycles, 2);
    assert_eq!(stats.avg_cycle_length.map(as_float), Some(28.0));
    assert_eq!(stats.avg_period_length.map(as_float), Some(5.0));
}

#[test]
fn prediction_end_and_flat_confidence_with_two_cycles() {
    let cycles = vec![
        make_cycle("2026-01-01", "2026-01-05"),
        make_cycle("2026-01-29", "2026-02-02"),
    ];
    let pred = predict(&cycles).unwrap();
    // mean period 5 days: the forecast lasts from the 26th to the 2nd
    assert_eq!(pred.predicted_end, Date::from_ymd(2026, 3, 2).unwrap());
    assert_eq!(pred.confidence, Confidence::Flat);
}

#[test]
fn fertility_window_has_all_five_days() {
    let cycles = vec![
        make_cycle("2026-01-01", "2026-01-05"),
        make_cycle("2026-01-29", "2026-02-02"),
    ];
    let fw = fertility_window(&cycles).unwrap();
    assert_eq!(fw.fertile_end, Date::from_ymd(2026, 2, 12).unwrap());
    assert_eq!(fw.peak_start, Date::from_ymd(2026, 2, 10).unwrap());
    assert_eq!(fw.peak_end, Date::from_ymd(2026, 2, 12).unwrap());
}

#[test]
fn no_prediction_without_cycles() {
    let cycles: Vec<Cycle> = Vec::new();
    assert!(predict(&cycles).is_none());
    assert!(fertility_window(&cycles).is_none());
    assert!(calc_internals(&cycles).is_none());
}

#[test]
fn open_cycles_do_not_count_for_a_prediction() {
    let cycles = vec![make_cycle("2026-01-01", "2026-01-05"), open_cycle("2026-01-29")];
    assert!(predict(&cycles).is_none());
    assert!(fertility_window(&cycles).is_none());
}

#[test]
fn no_fertility_window_with_one_cycle() {
    let cycles = vec![make_cycle("2026-01-01", "2026-01-05")];
    assert!(fertility_window(&cycles).is_none());
}

#[test]
fn equal_cycle_lengths_give_highest_confidence() {
    let cycles = vec![
        make_cycle("2026-01-01", "2026-01-05"),
        make_cycle("2026-01-29", "2026-02-02"),
        make_cycle("2026-02-26", "2026-03-02"),
    ];
    let pred = predict(&cycles).unwrap();
    assert_eq!(pred.predicted_start, Date::from_ymd(2026, 3, 26).unwrap());
    assert_eq!(pred.confidence, Confidence::Highest);
}

#[test]
fn measured_confidence_holds_the_spread_of_the_lengths() {
    // lengths 30 and 26: mean 28, sample deviation sqrt(8), 1 - 2.828/28 = 0.89898...
    let cycles = vec![
        make_cycle("2026-01-01", "2026-01-05"),
        make_cycle("2026-01-27", "2026-01-31"),
        make_cycle("2026-02-26", "2026-03-02"),
    ];
    let pred = predict(&cycles).unwrap();
    assert_eq!(
        pred.confidence,
        Confidence::Measured(Spread { count: 2, total: 56, squares: 900 + 676 })
    );
    assert!((value_of(pred.confidence) - 0.89898).abs() < 1e-5);
    assert_eq!(pred.predicted_start, Date::from_ymd(2026, 3, 26).unwrap());
}

#[test]
fn confidence_in_the_middle_of_its_range() {
    // lengths 40 and 20: mean 30, sample deviation sqrt(200), 1 - 14.142/30 = 0.52860...
    let cycles = vec![
        make_cycle("2026-01-01", "2026-01-05"),
        make_cycle("2026-01-21", "2026-01-25"),
        make_cycle("2026-03-02", "2026-03-06"),
    ];
    let pred = predict(&cycles).unwrap();
    assert_eq!(pred.predicted_start, Date::from_ymd(2026, 4, 1).unwrap());
    assert_eq!(pred.predicted_end, Date::from_ymd(2026, 4, 5).unwrap());
    assert_eq!(
        pred.confidence,
        Confidence::Measured(Spread { count: 2, total: 60, squares: 1600 + 400 })
    );
    assert!((value_of(pred.confidence) - 0.52860).abs() < 1e-4);
}

#[test]
fn wide_spread_gives_lowest_confidence() {
    // lengths 100 and 3: the deviation exceeds the mean
    let cycles = vec![
        make_cycle("2026-01-01", "2026-01-02"),
        make_cycle("2026-01-04", "2026-01-05"),
        make_cycle("2026-04-14", "2026-04-15"),
    ];
    let pred = predict(&cycles).unwrap();
    assert_eq!(pred.confidence, Confidence::Lowest);
}

#[test]
fn confidence_just_below_the_highest_is_measured() {
    // lengths 28, 30, 30, 28: mean 29, sample deviation sqrt(4/3), 1 - 1.1547/29 = 0.96018
    let even = vec![
        make_cycle("2026-01-01", "2026-01-05"),
        make_cycle("2026-01-29", "2026-02-02"),
        make_cycle("2026-02-28", "2026-03-04"),
        make_cycle("2026-03-30", "2026-04-03"),
        make_cycle("2026-04-27", "2026-05-01"),
    ];
    assert_eq!(predict(&even).unwrap().confidence, Confidence::Highest);
    // lengths 26 and 28: mean 27, sample deviation sqrt(2), 1 - 1.4142/27 = 0.94762
    let uneven = vec![
        make_cycle("2026-01-01", "2026-01-05"),
        make_cycle("2026-01-29", "2026-02-02"),
        make_cycle("2026-02-24", "2026-02-28"),
    ];
    let confidence = predict(&uneven).unwrap().confidence;
    assert_eq!(confidence, Confidence::Measured(Spread { count: 2, total: 54, squares: 1460 }));
    assert!((value_of(confidence) - 0.94762).abs() < 1e-5);
}

#[test]
fn cycles_that_all_start_on_one_day_give_highest_confidence() {
    let cycles = vec![
        make_cycle("2026-01-01", "2026-01-02"),
        make_cycle("2026-01-01", "2026-01-03"),
        make_cycle("2026-01-01", "2026-01-04"),
    ];
    let pred = predict(&cycles).unwrap();
    assert_eq!(pred.confidence, Confidence::Highest);
    assert_eq!(pred.predicted_start, Date::from_ymd(2026, 1, 1).unwrap());
}

#[test]
fn mean_cycle_length_rounds_half_away_from_zero() {
    // lengths 29 and 28: mean 28.5, forecast 29 days after the last start
    let cycles = vec![
        make_cycle("2026-01-01", "2026-01-05"),
        make_cycle("2026-01-29", "2026-02-02"),
        make_cycle("2026-02-27", "2026-03-03"),
    ];
    let pred = predict(&cycles).unwrap();
    assert_eq!(pred.predicted_start, Date::from_ymd(2026, 3, 28).unwrap());
}

#[test]
fn mean_rounding_on_exact_values() {
    assert_eq!(Mean { total: 57, count: 2 }.round(), 29);
    assert_eq!(Mean { total: 56, count: 2 }.round(), 28);
    assert_eq!(Mean { total: 85, count: 3 }.round(), 28);
    assert_eq!(Mean { total: 86, count: 3 }.round(), 29);
    assert_eq!(Mean { total: -5, count: 2 }.round(), -3);
    assert_eq!(Mean { total: -4, count: 3 }.round(), -1);
    assert_eq!(Mean { total: 0, count: 4 }.round(), 0);
}

#[test]
fn one_day_periods_end_on_the_forecast_start() {
    let cycles = vec![
        make_cycle("2026-01-01", "2026-01-01"),
        make_cycle("2026-01-29", "2026-01-29"),
    ];
    let pred = predict(&cycles).unwrap();
    assert_eq!(pred.predicted_start, Date::from_ymd(2026, 2, 26).unwrap());
    assert_eq!(pred.predicted_end, Date::from_ymd(2026, 2, 26).unwrap());
}

#[test]
fn prediction_uses_the_six_most_recent_cycles() {
    // an early outlier 100 days before the rest, then six cycles 28 days apart
    let cycles = vec![
        make_cycle("2025-01-01", "2025-01-05"),
        make_cycle("2025-04-11", "2025-04-15"),
        make_cycle("2025-05-09", "2025-05-13"),
        make_cycle("2025-06-06", "2025-06-10"),
        make_cycle("2025-07-04", "2025-07-08"),
        make_cycle("2025-08-01", "2025-08-05"),
        make_cycle("2025-08-29", "2025-09-02"),
    ];
    let pred = predict(&cycles).unwrap();
    assert_eq!(pred.predicted_start, Date::from_ymd(2025, 9, 26).unwrap());
    assert_eq!(pred.confidence, Confidence::Highest);
    let internals = calc_internals(&cycles).unwrap();
    assert_eq!(internals.cycle_lengths, vec![28, 28, 28, 28, 28]);
    assert_eq!(internals.avg_cycle, Mean { total: 140, count: 5 });
    assert_eq!(internals.avg_period, Mean { total: 30, count: 6 });
    assert_eq!(internals.last_start, Date::from_ymd(2025, 8, 29).unwrap());
    // the statistics look at all seven
    let stats = cycle_stats(&cycles);
    assert_eq!(stats.total_cycles, 7);
    assert_eq!(stats.longest_cycle, Some(100));
    assert_eq!(stats.shortest_cycle, Some(28));
    assert_eq!(stats.avg_cycle_length, Some(Mean { total: 240, count: 6 }));
}

#[test]
fn prediction_does_not_depend_on_the_order_of_the_list() {
    let cycles = vec![
        make_cycle("2026-01-29", "2026-02-02"),
        make_cycle("2026-01-01", "2026-01-05"),
    ];
    let pred = predict(&cycles).unwrap();
    assert_eq!(pred.predicted_start, Date::from_ymd(2026, 2, 26).unwrap());
    let sorted = completed_cycles(&cycles);
    assert_eq!(sorted.len(), 2);
    assert_eq!(sorted[0].start_date, Date::from_ymd(2026, 1, 1).unwrap());
    assert_eq!(sorted[1].start_date, Date::from_ymd(2026, 1, 29).unwrap());
}

#[test]
fn completed_cycles_keep_the_order_of_equal_starts() {
    let first = make_cycle("2026-01-01", "2026-01-03");
    let second = make_cycle("2026-01-01", "2026-01-07");
    let cycles = vec![make_cycle("2026-02-01", "2026-02-02"), first, open_cycle("2026-03-01"), second];
    let sorted = completed_cycles(&cycles);
    assert_eq!(sorted.len(), 3);
    assert_eq!(sorted[0].id, first.id);
    assert_eq!(sorted[1].id, second.id);
    assert_eq!(sorted[2].start_date, Date::from_ymd(2026, 2, 1).unwrap());
}

#[test]
fn stats_of_no_completed_cycle_are_empty() {
    let cycles = vec![open_cycle("2026-01-29")];
    let stats = cycle_stats(&cycles);
    assert_eq!(stats.total_cycles, 0);
    assert_eq!(stats.avg_cycle_length, None);
    assert_eq!(stats.avg_period_length, None);
    assert_eq!(stats.shortest_cycle, None);
    assert_eq!(stats.longest_cycle, None);
    assert_eq!(stats.last_period_start, None);
    assert_eq!(stats.last_period_end, None);
}

#[test]
fn stats_of_one_completed_cycle() {
    let cycles = vec![make_cycle("2026-01-01", "2026-01-05")];
    let stats = cycle_stats(&cycles);
    assert_eq!(stats.total_cycles, 1);
    assert_eq!(stats.avg_cycle_length, None);
    assert_eq!(stats.avg_period_length, Some(Mean { total: 5, count: 1 }));
    assert_eq!(stats.shortest_cycle, None);
    assert_eq!(stats.longest_cycle, None);
    assert_eq!(stats.last_period_start, Some(Date::from_ymd(2026, 1, 1).unwrap()));
    assert_eq!(stats.last_period_end, Some(Date::from_ymd(2026, 1, 5).unwrap()));
}

#[test]
fn stats_give_extremes_and_last_period() {
    let cycles = vec![
        make_cycle("2026-01-01", "2026-01-05"),
        make_cycle("2026-01-27", "2026-01-30"),
        make_cycle("2026-02-26", "2026-03-02"),
        open_cycle("2026-03-25"),
    ];
    let stats = cycle_stats(&cycles);
    assert_eq!(stats.total_cycles, 3);
    assert_eq!(stats.avg_cycle_length, Some(Mean { total: 56, count: 2 }));
    assert_eq!(stats.avg_period_length, Some(Mean { total: 14, count: 3 }));
    assert_eq!(stats.shortest_cycle, Some(26));
    assert_eq!(stats.longest_cycle, Some(30));
    assert_eq!(stats.last_period_start, Some(Date::from_ymd(2026, 2, 26).unwrap()));
    assert_eq!(stats.last_period_end, Some(Date::from_ymd(2026, 3, 2).unwrap()));
}

#[test]
fn no_prediction_where_the_forecast_has_no_day_number() {
    let cycles = vec![
        Cycle { id: Uuid::new_v4(), start_date: Date { days: 0 }, end_date: Some(Date { days: 3 }) },
        Cycle {
            id: Uuid::new_v4(),
            start_date: Date { days: i32::MAX - 10 },
            end_date: Some(Date { days: i32::MAX - 8 }),
        },
    ];
    assert!(predict(&cycles).is_none());
    assert!(fertility_window(&cycles).is_none());
}

#[test]
fn fixed_confidences_in_thousandths() {
    assert_eq!(Confidence::Flat.fixed(), Some(500));
    assert_eq!(Confidence::Lowest.fixed(), Some(100));
    assert_eq!(Confidence::Highest.fixed(), Some(950));
    assert_eq!(Confidence::Measured(Spread { count: 2, total: 60, squares: 2000 }).fixed(), None);
    assert!((value_of(Confidence::Highest) - 0.95).abs() < 1e-9);
}
