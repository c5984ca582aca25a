//! The report engine: windows, boundaries, and aggregation, plus the
//! timestamp text forms and the timer.

use acquacotta::report::get_report_data;
use acquacotta::time::{format_rfc3339, parse_date, parse_rfc3339, timestamp_from_unix};
use acquacotta::timer::{Settings, TimerData, TimerState};
use acquacotta::{Date, Pomodoro, PomodoroType, Timestamp};

fn ts(year: u32, month: u32, day: u32, h: u32, mi: u32, s: u32) -> Timestamp {
    Timestamp { date: Date { year, month, day }, secs: h * 3600 + mi * 60 + s }
}

fn record(id: &str, cat: PomodoroType, start: Timestamp, dur: u32) -> Pomodoro {
    Pomodoro {
        id: id.to_string(),
        name: id.to_string(),
        pomodoro_type: cat,
        start_time: start,
        end_time: start,
        duration_minutes: dur,
        notes: None,
    }
}

#[test]
fn rfc3339_formats_canonically() {
    let t = ts(2024, 3, 13, 9, 5, 7);
    assert_eq!(format_rfc3339(&t), "2024-03-13T09:05:07+00:00");
    assert_eq!(parse_rfc3339("2024-03-13T09:05:07+00:00"), Some(t));
}

#[test]
fn rfc3339_normalizes_offsets_to_utc() {
    // 12:30:05 at +02:00 is 10:30:05 in UTC.
    assert_eq!(
        parse_rfc3339("2024-03-13T12:30:05+02:00"),
        Some(ts(2024, 3, 13, 10, 30, 5))
    );
    // A negative offset near midnight rolls into the next day.
    assert_eq!(
        parse_rfc3339("2024-03-13T23:30:00-05:00"),
        Some(ts(2024, 3, 14, 4, 30, 0))
    );
    // A positive offset near midnight rolls into the previous day.
    assert_eq!(
        parse_rfc3339("2024-03-01T00:30:00+02:00"),
        Some(ts(2024, 2, 29, 22, 30, 0))
    );
    // 'Z' and a fractional second are accepted; the fraction is dropped.
    assert_eq!(parse_rfc3339("2024-03-13T09:00:00Z"), Some(ts(2024, 3, 13, 9, 0, 0)));
    assert_eq!(
        parse_rfc3339("2024-03-13T09:00:00.123456789Z"),
        Some(ts(2024, 3, 13, 9, 0, 0))
    );
}

#[test]
fn rfc3339_rejects_malformed_text() {
    assert_eq!(parse_rfc3339("2024-03-13"), None);
    assert_eq!(parse_rfc3339("2024-13-01T00:00:00Z"), None);
    assert_eq!(parse_rfc3339("2024-02-30T00:00:00Z"), None);
    assert_eq!(parse_rfc3339("2024-03-13T25:00:00Z"), None);
    assert_eq!(parse_rfc3339("2024-03-13T09:00:00"), None);
    assert_eq!(parse_rfc3339("2024-03-13T09:00:00.Z"), None);
}

#[test]
fn date_text_round_trips() {
    assert_eq!(parse_date("2024-03-13"), Some(Date { year: 2024, month: 3, day: 13 }));
    assert_eq!(parse_date("2024-02-29"), Some(Date { year: 2024, month: 2, day: 29 }));
    assert_eq!(parse_date("2023-02-29"), None);
    assert_eq!(parse_date("2024-3-13"), None);
    assert_eq!(parse_date("nonsense"), None);
}

#[test]
fn unix_epoch_maps_to_1970() {
    assert_eq!(timestamp_from_unix(0), Some(ts(1970, 1, 1, 0, 0, 0)));
    assert_eq!(timestamp_from_unix(86400 + 3661), Some(ts(1970, 1, 2, 1, 1, 1)));
}

#[test]
fn week_window_starts_on_sunday() {
    // Wednesday 2024-03-13: the week runs Sunday 2024-03-10 .. Saturday 2024-03-16.
    let records: Vec<Pomodoro> = vec![];
    let rep = get_report_data("week", "2024-03-13", &records).unwrap();
    assert_eq!(rep.daily_totals.len(), 7);
    assert_eq!(rep.daily_totals[0].date, "2024-03-10");
    assert_eq!(rep.daily_totals[6].date, "2024-03-16");
}

#[test]
fn month_window_handles_leap_february() {
    let records: Vec<Pomodoro> = vec![];
    let rep = get_report_data("month", "2024-02-15", &records).unwrap();
    assert_eq!(rep.daily_totals.len(), 29);
    assert_eq!(rep.daily_totals[0].date, "2024-02-01");
    assert_eq!(rep.daily_totals[28].date, "2024-02-29");
}

#[test]
fn month_window_rolls_over_december() {
    let records: Vec<Pomodoro> = vec![
        record("in", PomodoroType::Team, ts(2023, 12, 31, 23, 59, 59), 10),
        record("out", PomodoroType::Team, ts(2024, 1, 1, 0, 0, 0), 10),
    ];
    let rep = get_report_data("month", "2023-12-05", &records).unwrap();
    assert_eq!(rep.daily_totals.len(), 31);
    assert_eq!(rep.total_pomodoros, 1);
    assert_eq!(rep.total_minutes, 10);
}

#[test]
fn boundary_start_included_end_excluded() {
    // Day window for 2024-03-13 is [2024-03-13T00:00:00Z, 2024-03-14T00:00:00Z).
    let records = vec![
        record("at-start", PomodoroType::Team, ts(2024, 3, 13, 0, 0, 0), 5),
        record("at-end", PomodoroType::Team, ts(2024, 3, 14, 0, 0, 0), 7),
    ];
    let rep = get_report_data("day", "2024-03-13", &records).unwrap();
    assert_eq!(rep.total_pomodoros, 1);
    assert_eq!(rep.total_minutes, 5);
}

#[test]
fn by_type_always_lists_all_ten_categories() {
    let records = vec![
        record("t1", PomodoroType::Team, ts(2024, 3, 13, 9, 0, 0), 25),
        record("t2", PomodoroType::Team, ts(2024, 3, 13, 10, 0, 0), 30),
    ];
    let rep = get_report_data("day", "2024-03-13", &records).unwrap();
    assert_eq!(rep.by_type.len(), 10);
    let mut zeroes = 0;
    for entry in &rep.by_type {
        if entry.pomodoro_type == PomodoroType::Team {
            assert_eq!(entry.minutes, 55);
        } else {
            assert_eq!(entry.minutes, 0);
            zeroes += 1;
        }
    }
    assert_eq!(zeroes, 9);
}

#[test]
fn daily_totals_bucket_by_calendar_day() {
    let records = vec![
        record("a", PomodoroType::Team, ts(2024, 3, 10, 23, 0, 0), 25),
        record("b", PomodoroType::Team, ts(2024, 3, 11, 0, 30, 0), 30),
        record("c", PomodoroType::Team, ts(2024, 3, 11, 9, 0, 0), 15),
    ];
    let rep = get_report_data("week", "2024-03-13", &records).unwrap();
    assert_eq!(rep.total_pomodoros, 3);
    assert_eq!(rep.total_minutes, 70);
    assert_eq!(rep.daily_totals[0].date, "2024-03-10");
    assert_eq!(rep.daily_totals[0].minutes, 25);
    assert_eq!(rep.daily_totals[0].count, 1);
    assert_eq!(rep.daily_totals[1].date, "2024-03-11");
    assert_eq!(rep.daily_totals[1].minutes, 45);
    assert_eq!(rep.daily_totals[1].count, 2);
    assert_eq!(rep.daily_totals[2].minutes, 0);
    assert_eq!(rep.daily_totals[2].count, 0);
}

#[test]
fn report_rejects_bad_arguments() {
    let records: Vec<Pomodoro> = vec![];
    assert!(get_report_data("year", "2024-03-13", &records).is_err());
    assert!(get_report_data("day", "13/03/2024", &records).is_err());
    assert!(get_report_data("", "2024-03-13", &records).is_err());
}

#[test]
fn report_keeps_the_period_label() {
    let records: Vec<Pomodoro> = vec![];
    let rep = get_report_data("day", "2024-03-13", &records).unwrap();
    assert_eq!(rep.period, "day");
    assert_eq!(rep.daily_totals.len(), 1);
    assert_eq!(rep.daily_totals[0].date, "2024-03-13");
}

#[test]
fn timer_runs_through_its_states() {
    let settings = Settings::default();
    assert_eq!(settings.work_duration_minutes, 25);
    assert_eq!(settings.short_break_minutes, 5);
    let mut timer = TimerData::default();
    assert_eq!(timer.state, TimerState::Idle);
    assert_eq!(timer.remaining_seconds, 1500);
    timer.start(&settings);
    assert_eq!(timer.state, TimerState::Running);
    assert_eq!(timer.remaining_seconds, 1500);
    timer.pause();
    assert_eq!(timer.state, TimerState::Paused);
    timer.resume();
    assert_eq!(timer.state, TimerState::Running);
    timer.record_completion();
    assert_eq!(timer.to_status().completed_count, 1);
    timer.stop(&settings);
    assert_eq!(timer.state, TimerState::Idle);
    let custom = Settings { work_duration_minutes: 50, ..Settings::default() };
    timer.apply_settings(&custom);
    assert_eq!(timer.work_duration, 3000);
    let status = timer.to_status();
    assert_eq!(status.state, TimerState::Idle);
    assert!(!status.is_break);
}
