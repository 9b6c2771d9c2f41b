use cykel::calendar::Date;
use cykel::commands::{
    export_data, get_month, get_predictions, get_settings, get_stats, is_setup, lock, log_day,
    log_day_on, setup, toggle_fertility, unlock, unlock_on, update_settings, wipe_all_data,
    AppState, CommandError, Session,
};
use cykel::crypto::CryptoError;
use cykel::models::{AppData, AppSettings, DayLog, FlowLevel, Symptom, SymptomType};
use cykel::storage::{load, StorageError, VaultFile};

fn day(text: &str) -> Date {
    Date::parse(text).unwrap()
}

fn unlocked() -> AppState {
    let mut state = AppState::new();
    setup("pass".to_string(), &mut state);
    state
}

fn data_of(state: &AppState) -> &AppData {
    match &state.session {
        Session::Unlocked { data, .. } => data,
        Session::Locked => panic!("the session is locked"),
    }
}

fn log_period(state: &mut AppState, days: &[&str], today: &str) {
    for text in days {
        log_day_on(day(text), FlowLevel::Medium, String::new(), Vec::new(), day(today), state)
            .unwrap();
    }
}

fn two_periods(state: &mut AppState) {
    log_period(
        state,
        &[
            "2026-01-01", "2026-01-02", "2026-01-03", "2026-01-04", "2026-01-05", "2026-01-29",
            "2026-01-30", "2026-01-31", "2026-02-01", "2026-02-02",
        ],
        "2026-03-01",
    );
}

#[test]
fn a_new_session_is_locked() {
    let state = AppState::new();
    assert!(matches!(state.session, Session::Locked));
}

#[test]
fn setup_starts_on_an_empty_vault() {
    let state = unlocked();
    match &state.session {
        Session::Unlocked { passphrase, data } => {
            assert_eq!(passphrase, "pass");
            assert!(data.cycles.is_empty());
            assert!(data.day_logs.is_empty());
            assert!(data.symptoms.is_empty());
            assert_eq!(data.settings, AppSettings::default());
        },
        Session::Locked => panic!("the session is locked"),
    }
}

#[test]
fn default_settings() {
    let settings = AppSettings::default();
    assert_eq!(settings.auto_lock_minutes, 5);
    assert_eq!(settings.wipe_after_attempts, None);
    assert!(!settings.show_fertility);
}

#[test]
fn is_setup_says_whether_there_is_a_file() {
    assert!(!is_setup(&VaultFile { contents: None }));
    assert!(is_setup(&VaultFile { contents: Some(Vec::new()) }));
}

#[test]
fn every_operation_fails_after_lock() {
    let mut state = unlocked();
    two_periods(&mut state);
    lock(&mut state);
    assert!(matches!(state.session, Session::Locked));
    assert!(matches!(
        log_day("2026-01-01", FlowLevel::Light, String::new(), Vec::new(), &mut state),
        Err(CommandError::Locked)
    ));
    assert!(matches!(
        log_day_on(
            day("2026-01-01"),
            FlowLevel::Light,
            String::new(),
            Vec::new(),
            day("2026-03-01"),
            &mut state
        ),
        Err(CommandError::Locked)
    ));
    assert!(matches!(get_month(2026, 1, &state), Err(CommandError::Locked)));
    assert!(matches!(get_predictions(&state), Err(CommandError::Locked)));
    assert!(matches!(get_stats(&state), Err(CommandError::Locked)));
    assert!(matches!(get_settings(&state), Err(CommandError::Locked)));
    assert!(matches!(toggle_fertility(true, &mut state), Err(CommandError::Locked)));
    assert!(matches!(update_settings(10, &mut state), Err(CommandError::Locked)));
    assert!(matches!(export_data(&state), Err(CommandError::Locked)));
    let mut file = VaultFile { contents: None };
    assert!(matches!(state.save_data(b"{}", &mut file), Err(CommandError::Locked)));
    assert!(file.contents.is_none());
    assert!(matches!(state.session, Session::Locked));
}

#[test]
fn lock_of_a_locked_session_stays_locked() {
    let mut state = AppState::new();
    state.lock();
    assert!(matches!(state.session, Session::Locked));
}

#[test]
fn severities_are_clamped_not_refused() {
    let mut state = unlocked();
    let symptoms = vec![
        (SymptomType::Cramps, 0),
        (SymptomType::Headache, 1),
        (SymptomType::Fatigue, 2),
        (SymptomType::Bloating, 3),
        (SymptomType::Acne, 4),
        (SymptomType::MoodLow, 255),
    ];
    log_day_on(
        day("2026-01-01"),
        FlowLevel::Light,
        String::new(),
        symptoms,
        day("2026-03-01"),
        &mut state,
    )
    .unwrap();
    let date = day("2026-01-01");
    assert_eq!(
        data_of(&state).symptoms,
        vec![
            Symptom { date, symptom_type: SymptomType::Cramps, severity: 1 },
            Symptom { date, symptom_type: SymptomType::Headache, severity: 1 },
            Symptom { date, symptom_type: SymptomType::Fatigue, severity: 2 },
            Symptom { date, symptom_type: SymptomType::Bloating, severity: 3 },
            Symptom { date, symptom_type: SymptomType::Acne, severity: 3 },
            Symptom { date, symptom_type: SymptomType::MoodLow, severity: 3 },
        ]
    );
}

#[test]
fn a_kind_entered_twice_is_stored_once_with_its_last_severity() {
    let mut state = unlocked();
    let date = day("2026-01-01");
    log_day_on(
        date,
        FlowLevel::Light,
        String::new(),
        vec![
            (SymptomType::Cramps, 1),
            (SymptomType::Headache, 2),
            (SymptomType::Cramps, 3),
            (SymptomType::Acne, 0),
            (SymptomType::Headache, 9),
        ],
        day("2026-03-01"),
        &mut state,
    )
    .unwrap();
    assert_eq!(
        data_of(&state).symptoms,
        vec![
            Symptom { date, symptom_type: SymptomType::Cramps, severity: 3 },
            Symptom { date, symptom_type: SymptomType::Acne, severity: 1 },
            Symptom { date, symptom_type: SymptomType::Headache, severity: 3 },
        ]
    );
    log_day_on(
        date,
        FlowLevel::Light,
        String::new(),
        vec![(SymptomType::Cramps, 1), (SymptomType::Cramps, 3)],
        day("2026-03-01"),
        &mut state,
    )
    .unwrap();
    assert_eq!(
        data_of(&state).symptoms,
        vec![Symptom { date, symptom_type: SymptomType::Cramps, severity: 3 }]
    );
}

#[test]
fn logging_a_date_twice_keeps_the_latest() {
    let mut state = unlocked();
    let today = day("2026-03-01");
    log_day_on(day("2026-01-01"), FlowLevel::Light, "first".to_string(), Vec::new(), today, &mut state)
        .unwrap();
    log_day_on(day("2026-01-02"), FlowLevel::Light, "other".to_string(), Vec::new(), today, &mut state)
        .unwrap();
    log_day_on(day("2026-01-01"), FlowLevel::Heavy, "second".to_string(), Vec::new(), today, &mut state)
        .unwrap();
    let logs = &data_of(&state).day_logs;
    assert_eq!(logs.len(), 2);
    let found: Vec<&DayLog> = logs.iter().filter(|l| l.date == day("2026-01-01")).collect();
    assert_eq!(found.len(), 1);
    assert_eq!(found[0].flow_level, FlowLevel::Heavy);
    assert_eq!(found[0].notes, "second");
    assert_eq!(logs[0].date, day("2026-01-01"));
    assert_eq!(logs[1].notes, "other");
}

#[test]
fn logging_symptoms_replaces_the_set_of_that_date() {
    let mut state = unlocked();
    let today = day("2026-03-01");
    log_day_on(
        day("2026-01-01"),
        FlowLevel::Light,
        String::new(),
        vec![(SymptomType::Cramps, 2), (SymptomType::Headache, 1)],
        today,
        &mut state,
    )
    .unwrap();
    log_day_on(
        day("2026-01-02"),
        FlowLevel::Light,
        String::new(),
        vec![(SymptomType::Fatigue, 3)],
        today,
        &mut state,
    )
    .unwrap();
    log_day_on(
        day("2026-01-01"),
        FlowLevel::Light,
        String::new(),
        vec![(SymptomType::Acne, 1)],
        today,
        &mut state,
    )
    .unwrap();
    assert_eq!(
        data_of(&state).symptoms,
        vec![
            Symptom { date: day("2026-01-02"), symptom_type: SymptomType::Fatigue, severity: 3 },
            Symptom { date: day("2026-01-01"), symptom_type: SymptomType::Acne, severity: 1 },
        ]
    );
    log_day_on(day("2026-01-02"), FlowLevel::Light, String::new(), Vec::new(), today, &mut state)
        .unwrap();
    assert_eq!(
        data_of(&state).symptoms,
        vec![Symptom { date: day("2026-01-01"), symptom_type: SymptomType::Acne, severity: 1 }]
    );
}

#[test]
fn logging_rebuilds_the_cycles() {
    let mut state = unlocked();
    two_periods(&mut state);
    let cycles = &data_of(&state).cycles;
    assert_eq!(cycles.len(), 2);
    assert_eq!(cycles[0].start_date, day("2026-01-01"));
    assert_eq!(cycles[0].end_date, Some(day("2026-01-05")));
    assert_eq!(cycles[1].start_date, day("2026-01-29"));
    assert_eq!(cycles[1].end_date, Some(day("2026-02-02")));
    // taking the flow away from a day in the middle splits nothing, at the edge it shortens
    log_day_on(
        day("2026-01-01"),
        FlowLevel::NoFlow,
        String::new(),
        Vec::new(),
        day("2026-03-01"),
        &mut state,
    )
    .unwrap();
    assert_eq!(data_of(&state).cycles[0].start_date, day("2026-01-02"));
}

#[test]
fn log_day_reads_the_date_from_text() {
    let mut state = unlocked();
    log_day("2026-01-01", FlowLevel::Medium, "note".to_string(), vec![(SymptomType::Cramps, 9)], &mut state)
        .unwrap();
    let data = data_of(&state);
    assert_eq!(data.day_logs.len(), 1);
    assert_eq!(data.day_logs[0].date, Date::from_ymd(2026, 1, 1).unwrap());
    assert_eq!(data.day_logs[0].notes, "note");
    assert_eq!(data.symptoms[0].severity, 3);
    assert_eq!(data.cycles.len(), 1);
    assert_eq!(data.cycles[0].end_date, Some(day("2026-01-01")));
}

#[test]
fn log_day_refuses_what_is_no_date() {
    let mut state = unlocked();
    assert!(matches!(
        log_day("01.01.2026", FlowLevel::Medium, String::new(), Vec::new(), &mut state),
        Err(CommandError::InvalidDate(_))
    ));
    assert!(data_of(&state).day_logs.is_empty());
    // the date is looked at before the lock
    let mut locked = AppState::new();
    assert!(matches!(
        log_day("2026-02-30", FlowLevel::Medium, String::new(), Vec::new(), &mut locked),
        Err(CommandError::InvalidDate(_))
    ));
}

#[test]
fn a_refused_date_comes_with_its_reason() {
    let mut state = unlocked();
    let refused = log_day("01.01.2026", FlowLevel::Medium, String::new(), Vec::new(), &mut state);
    assert_eq!(refused.unwrap_err().message(), "input contains invalid characters");
    let refused = log_day("2026-02-30", FlowLevel::Medium, String::new(), Vec::new(), &mut state);
    assert_eq!(refused.unwrap_err().message(), "input is out of range");
    let refused = log_day("2026-02", FlowLevel::Medium, String::new(), Vec::new(), &mut state);
    assert_eq!(refused.unwrap_err().message(), "premature end of input");
    assert_eq!(get_month(2026, 13, &state).unwrap_err().message(), "invalid date");
}

#[test]
fn predictions_and_stats_of_the_session() {
    let mut state = unlocked();
    assert_eq!(get_predictions(&state).unwrap(), Vec::new());
    assert_eq!(get_stats(&state).unwrap().total_cycles, 0);
    two_periods(&mut state);
    let predictions = get_predictions(&state).unwrap();
    assert_eq!(predictions.len(), 1);
    assert_eq!(predictions[0].predicted_start, Date::from_ymd(2026, 2, 26).unwrap());
    let stats = get_stats(&state).unwrap();
    assert_eq!(stats.total_cycles, 2);
    assert_eq!(stats.longest_cycle, Some(28));
}

#[test]
fn month_view_holds_the_days_of_the_month() {
    let mut state = unlocked();
    two_periods(&mut state);
    log_day_on(
        day("2026-01-31"),
        FlowLevel::Heavy,
        "end of month".to_string(),
        vec![(SymptomType::Cramps, 2)],
        day("2026-03-01"),
        &mut state,
    )
    .unwrap();
    log_day_on(
        day("2026-02-01"),
        FlowLevel::Medium,
        String::new(),
        vec![(SymptomType::Fatigue, 1)],
        day("2026-03-01"),
        &mut state,
    )
    .unwrap();
    let january = get_month(2026, 1, &state).unwrap();
    assert_eq!(january.year, 2026);
    assert_eq!(january.month, 1);
    assert_eq!(january.day_logs.len(), 8);
    assert_eq!(january.day_logs[7].date, day("2026-01-31"));
    assert_eq!(january.day_logs[7].notes, "end of month");
    assert_eq!(
        january.symptoms,
        vec![Symptom { date: day("2026-01-31"), symptom_type: SymptomType::Cramps, severity: 2 }]
    );
    assert_eq!(january.predictions.len(), 1);
    assert_eq!(january.fertility, None);
    assert!(january.current_cycle.is_none());
    assert_eq!(january.stats.total_cycles, 2);
    let february = get_month(2026, 2, &state).unwrap();
    assert_eq!(february.day_logs.len(), 2);
    assert_eq!(february.symptoms.len(), 1);
    let december = get_month(2025, 12, &state).unwrap();
    assert!(december.day_logs.is_empty());
    let march = get_month(2026, 3, &state).unwrap();
    assert!(march.day_logs.is_empty());
}

#[test]
fn month_view_shows_december_up_to_its_last_day() {
    let mut state = unlocked();
    log_period(&mut state, &["2025-12-31", "2026-01-01"], "2026-03-01");
    let december = get_month(2025, 12, &state).unwrap();
    assert_eq!(december.day_logs.len(), 1);
    assert_eq!(december.day_logs[0].date, day("2025-12-31"));
}

#[test]
fn month_view_shows_the_fertility_window_only_on_request() {
    let mut state = unlocked();
    two_periods(&mut state);
    assert_eq!(get_month(2026, 2, &state).unwrap().fertility, None);
    toggle_fertility(true, &mut state).unwrap();
    let window = get_month(2026, 2, &state).unwrap().fertility.unwrap();
    assert_eq!(window.ovulation_day, Date::from_ymd(2026, 2, 12).unwrap());
    toggle_fertility(false, &mut state).unwrap();
    assert_eq!(get_month(2026, 2, &state).unwrap().fertility, None);
}

#[test]
fn no_fertility_window_without_a_forecast_whatever_the_setting() {
    let mut state = unlocked();
    toggle_fertility(true, &mut state).unwrap();
    log_period(&mut state, &["2026-01-01", "2026-01-02"], "2026-03-01");
    let view = get_month(2026, 1, &state).unwrap();
    assert_eq!(view.fertility, None);
    assert!(view.predictions.is_empty());
}

#[test]
fn month_view_shows_the_cycle_in_progress() {
    let mut state = unlocked();
    log_period(&mut state, &["2026-01-01", "2026-01-02"], "2026-01-03");
    let view = get_month(2026, 1, &state).unwrap();
    let current = view.current_cycle.unwrap();
    assert_eq!(current.start_date, day("2026-01-01"));
    assert_eq!(current.end_date, None);
}

#[test]
fn months_that_the_calendar_lacks_are_refused() {
    let state = unlocked();
    assert!(matches!(get_month(2026, 0, &state), Err(CommandError::InvalidDate(_))));
    assert!(matches!(get_month(2026, 13, &state), Err(CommandError::InvalidDate(_))));
    assert!(matches!(get_month(2026, u32::MAX, &state), Err(CommandError::InvalidDate(_))));
    assert!(matches!(get_month(i32::MAX, 12, &state), Err(CommandError::InvalidDate(_))));
    assert!(matches!(get_month(400_000, 1, &state), Err(CommandError::InvalidDate(_))));
}

#[test]
fn auto_lock_minutes_are_clamped() {
    let mut state = unlocked();
    update_settings(0, &mut state).unwrap();
    assert_eq!(get_settings(&state).unwrap().auto_lock_minutes, 1);
    update_settings(61, &mut state).unwrap();
    assert_eq!(get_settings(&state).unwrap().auto_lock_minutes, 60);
    update_settings(u32::MAX, &mut state).unwrap();
    assert_eq!(get_settings(&state).unwrap().auto_lock_minutes, 60);
    update_settings(1, &mut state).unwrap();
    assert_eq!(get_settings(&state).unwrap().auto_lock_minutes, 1);
    update_settings(60, &mut state).unwrap();
    assert_eq!(get_settings(&state).unwrap().auto_lock_minutes, 60);
    update_settings(15, &mut state).unwrap();
    assert_eq!(
        get_settings(&state).unwrap(),
        AppSettings { auto_lock_minutes: 15, wipe_after_attempts: None, show_fertility: false }
    );
}

#[test]
fn toggle_fertility_changes_only_its_setting() {
    let mut state = unlocked();
    two_periods(&mut state);
    toggle_fertility(true, &mut state).unwrap();
    assert_eq!(
        get_settings(&state).unwrap(),
        AppSettings { auto_lock_minutes: 5, wipe_after_attempts: None, show_fertility: true }
    );
    assert_eq!(data_of(&state).day_logs.len(), 10);
    assert_eq!(data_of(&state).cycles.len(), 2);
}

#[test]
fn export_hands_out_the_vault() {
    let mut state = unlocked();
    two_periods(&mut state);
    let exported = export_data(&state).unwrap();
    assert_eq!(exported.day_logs.len(), 10);
    assert_eq!(exported.cycles.len(), 2);
}

#[test]
fn failed_unlock_leaves_the_session_as_it_was() {
    let mut state = AppState::new();
    let failed = Err(StorageError::Crypto(CryptoError::Decryption));
    assert!(!unlock("pass".to_string(), failed, &mut state));
    assert!(matches!(state.session, Session::Locked));
    let mut open = unlocked();
    two_periods(&mut open);
    assert!(!unlock_on(
        "other".to_string(),
        Err(StorageError::Io("gone".to_string())),
        day("2026-03-01"),
        &mut open
    ));
    match &open.session {
        Session::Unlocked { passphrase, data } => {
            assert_eq!(passphrase, "pass");
            assert_eq!(data.day_logs.len(), 10);
        },
        Session::Locked => panic!("the session is locked"),
    }
}

#[test]
fn unlock_rebuilds_the_cycles_of_the_loaded_vault() {
    let mut stored = AppData::default();
    stored.day_logs = vec![
        DayLog { date: day("2026-01-01"), flow_level: FlowLevel::Medium, notes: String::new() },
        DayLog { date: day("2026-01-02"), flow_level: FlowLevel::Medium, notes: String::new() },
    ];
    let mut state = AppState::new();
    assert!(unlock_on("pass".to_string(), Ok(stored.clone()), day("2026-01-03"), &mut state));
    match &state.session {
        Session::Unlocked { passphrase, data } => {
            assert_eq!(passphrase, "pass");
            assert_eq!(data.day_logs.len(), 2);
            assert_eq!(data.cycles.len(), 1);
            assert_eq!(data.cycles[0].start_date, day("2026-01-01"));
            assert_eq!(data.cycles[0].end_date, None);
        },
        Session::Locked => panic!("the session is locked"),
    }
    let mut later = AppState::new();
    assert!(unlock("pass".to_string(), Ok(stored), &mut later));
    assert_eq!(data_of(&later).cycles[0].end_date, Some(day("2026-01-02")));
}

#[test]
fn save_data_seals_under_the_passphrase_of_the_session() {
    let state = unlocked();
    let mut file = VaultFile { contents: None };
    state.save_data(b"{\"day_logs\":[]}", &mut file).unwrap();
    assert_eq!(load("pass", &file).unwrap(), b"{\"day_logs\":[]}");
}

#[test]
fn wipe_all_data_locks_and_removes_the_file() {
    let mut state = unlocked();
    let mut file = VaultFile { contents: Some(vec![1, 2, 3]) };
    wipe_all_data(&mut state, &mut file);
    assert!(matches!(state.session, Session::Locked));
    assert!(file.contents.is_none());
    assert!(!is_setup(&file));
    assert!(matches!(get_stats(&state), Err(CommandError::Locked)));
}

#[test]
fn command_errors_in_words() {
    assert_eq!(CommandError::Locked.message(), "app is locked");
    assert_eq!(CommandError::InvalidDate("no such day".to_string()).message(), "no such day");
    assert_eq!(
        CommandError::Storage(StorageError::NoDataDir).message(),
        "data directory not found"
    );
}
