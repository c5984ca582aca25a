//! The record store and the row codec, exercised end to end.

use acquacotta::codec::{decode_file, decode_row, encode_file, encode_header, encode_row};
use acquacotta::store::{filter_by_date_range, CsvStorage};
use acquacotta::{Date, Pomodoro, PomodoroType, Timestamp};

fn ts(year: u32, month: u32, day: u32, h: u32, mi: u32, s: u32) -> Timestamp {
    Timestamp { date: Date { year, month, day }, secs: h * 3600 + mi * 60 + s }
}

fn record(id: &str, name: &str, cat: PomodoroType, start: Timestamp, dur: u32) -> Pomodoro {
    Pomodoro {
        id: id.to_string(),
        name: name.to_string(),
        pomodoro_type: cat,
        start_time: start,
        end_time: start,
        duration_minutes: dur,
        notes: None,
    }
}

fn same_record(a: &Pomodoro, b: &Pomodoro) -> bool {
    a.id == b.id && a.name == b.name && a.pomodoro_type == b.pomodoro_type
        && a.start_time == b.start_time && a.end_time == b.end_time
        && a.duration_minutes == b.duration_minutes && a.notes == b.notes
}

#[test]
fn row_round_trip_plain() {
    let p = record("a1", "deep work", PomodoroType::Product, ts(2024, 3, 13, 9, 0, 0), 25);
    let row = encode_row(&p);
    assert_eq!(
        row,
        "a1,deep work,Product,2024-03-13T09:00:00+00:00,2024-03-13T09:00:00+00:00,25,\n"
    );
    let back = decode_row(&row).unwrap();
    assert!(same_record(&p, &back));
}

#[test]
fn row_round_trip_quoted_fields() {
    let mut p = record(
        "b2",
        "plan, review \"Q3\"\nnotes",
        PomodoroType::CustomerPartnerCommunity,
        ts(2023, 12, 31, 23, 59, 59),
        1,
    );
    p.notes = Some("line one\nline, two \"quoted\"".to_string());
    let row = encode_row(&p);
    let back = decode_row(&row).unwrap();
    assert!(same_record(&p, &back));
}

#[test]
fn row_round_trip_empty_notes_reads_as_absent() {
    let p = record("c3", "", PomodoroType::PTO, ts(2024, 1, 1, 0, 0, 0), 0);
    let row = encode_row(&p);
    let back = decode_row(&row).unwrap();
    assert_eq!(back.notes, None);
    assert!(same_record(&p, &back));
}

#[test]
fn decode_rejects_unknown_category() {
    let row = "id1,work,NotACategory,2024-03-13T09:00:00+00:00,2024-03-13T09:30:00+00:00,30,\n";
    assert!(decode_row(row).is_err());
}

#[test]
fn decode_rejects_bad_timestamp_and_duration() {
    assert!(decode_row("id1,w,Team,not-a-time,2024-03-13T09:30:00+00:00,30,\n").is_err());
    assert!(decode_row("id1,w,Team,2024-03-13T09:00:00+00:00,2024-03-13T09:30:00+00:00,3x,\n")
        .is_err());
    // A duration beyond 32 bits is a decode error, not a wrap-around.
    assert!(decode_row("id1,w,Team,2024-03-13T09:00:00+00:00,2024-03-13T09:30:00+00:00,4294967296,\n")
        .is_err());
}

#[test]
fn decode_rejects_wrong_field_count() {
    assert!(decode_row("id1,w,Team,2024-03-13T09:00:00+00:00,2024-03-13T09:30:00+00:00\n").is_err());
}

#[test]
fn file_round_trip_through_text() {
    let a = record("a", "one", PomodoroType::Team, ts(2024, 3, 10, 8, 0, 0), 25);
    let b = record("b", "two", PomodoroType::Content, ts(2024, 3, 11, 8, 0, 0), 50);
    let store = CsvStorage::from_records(vec![a, b]);
    let text = store.to_text();
    assert!(text.starts_with("id,name,type,start_time,end_time,duration_minutes,notes\n"));
    let reloaded = CsvStorage::load(&text).unwrap();
    let records = reloaded.read_all();
    assert_eq!(records.len(), 2);
}

#[test]
fn decode_file_fails_on_one_bad_row() {
    let mut text = encode_header();
    text.push_str("a,one,Team,2024-03-10T08:00:00+00:00,2024-03-10T08:25:00+00:00,25,\n");
    text.push_str("b,two,Mystery,2024-03-11T08:00:00+00:00,2024-03-11T08:25:00+00:00,25,\n");
    assert!(decode_file(&text).is_err());
}

#[test]
fn decode_file_accepts_crlf_line_endings() {
    let text = "id,name,type,start_time,end_time,duration_minutes,notes\r\na,one,Team,2024-03-10T08:00:00+00:00,2024-03-10T08:25:00+00:00,25,\r\n";
    let records = decode_file(text).unwrap();
    assert_eq!(records.len(), 1);
    assert_eq!(records[0].name, "one");
    assert_eq!(records[0].duration_minutes, 25);
}

#[test]
fn decode_file_empty_after_header_is_empty() {
    let text = "id,name,type,start_time,end_time,duration_minutes,notes\n";
    let records = decode_file(text).unwrap();
    assert_eq!(records.len(), 0);
}

#[test]
fn append_adds_exactly_one() {
    let mut store = CsvStorage::new();
    store.append(record("a", "one", PomodoroType::Team, ts(2024, 3, 10, 8, 0, 0), 25));
    let before = store.read_all().len();
    let p = record("b", "two", PomodoroType::Product, ts(2024, 3, 12, 8, 0, 0), 25);
    store.append(p.clone());
    let after = store.read_all();
    assert_eq!(after.len(), before + 1);
    assert!(after.iter().any(|q| same_record(q, &p)));
}

#[test]
fn update_replaces_only_the_matching_record() {
    let a = record("a", "one", PomodoroType::Team, ts(2024, 3, 10, 8, 0, 0), 25);
    let b = record("b", "two", PomodoroType::Product, ts(2024, 3, 11, 8, 0, 0), 25);
    let mut store = CsvStorage::from_records(vec![a.clone(), b.clone()]);
    let mut b2 = b.clone();
    b2.name = "renamed".to_string();
    b2.duration_minutes = 40;
    store.update(b2.clone());
    let all = store.read_all();
    assert_eq!(all.len(), 2);
    assert!(all.iter().any(|q| same_record(q, &a)));
    assert!(all.iter().any(|q| same_record(q, &b2)));
    assert!(!all.iter().any(|q| same_record(q, &b)));
}

#[test]
fn update_missing_id_is_a_no_op() {
    let a = record("a", "one", PomodoroType::Team, ts(2024, 3, 10, 8, 0, 0), 25);
    let mut store = CsvStorage::from_records(vec![a.clone()]);
    let ghostly = record("zzz", "nobody", PomodoroType::Travel, ts(2024, 3, 10, 9, 0, 0), 5);
    store.update(ghostly);
    let all = store.read_all();
    assert_eq!(all.len(), 1);
    assert!(same_record(&all[0], &a));
}

#[test]
fn delete_missing_id_changes_nothing() {
    let a = record("a", "one", PomodoroType::Team, ts(2024, 3, 10, 8, 0, 0), 25);
    let mut store = CsvStorage::from_records(vec![a.clone()]);
    store.delete("nope");
    let all = store.read_all();
    assert_eq!(all.len(), 1);
    assert!(same_record(&all[0], &a));
}

#[test]
fn delete_existing_id_removes_exactly_it() {
    let a = record("a", "one", PomodoroType::Team, ts(2024, 3, 10, 8, 0, 0), 25);
    let b = record("b", "two", PomodoroType::Product, ts(2024, 3, 11, 8, 0, 0), 25);
    let mut store = CsvStorage::from_records(vec![a.clone(), b.clone()]);
    store.delete("a");
    let all = store.read_all();
    assert_eq!(all.len(), 1);
    assert!(same_record(&all[0], &b));
}

#[test]
fn three_records_come_back_sorted_descending() {
    let a = record("a", "oldest", PomodoroType::Team, ts(2024, 3, 10, 8, 0, 0), 25);
    let b = record("b", "newest", PomodoroType::Team, ts(2024, 3, 14, 8, 0, 0), 25);
    let c = record("c", "middle", PomodoroType::Team, ts(2024, 3, 12, 8, 0, 0), 25);
    let store = CsvStorage::from_records(vec![a, b, c]);
    let all = store.read_all();
    assert_eq!(all[0].name, "newest");
    assert_eq!(all[1].name, "middle");
    assert_eq!(all[2].name, "oldest");
}

#[test]
fn category_labels_round_trip() {
    let cats = PomodoroType::all();
    assert_eq!(cats.len(), 10);
    for c in cats {
        let label = c.to_label();
        assert_eq!(PomodoroType::from_label(&label), Some(c));
    }
    assert_eq!(PomodoroType::from_label("Team"), Some(PomodoroType::Team));
    assert_eq!(
        PomodoroType::from_label("Customer/Partner/Community"),
        Some(PomodoroType::CustomerPartnerCommunity)
    );
    assert_eq!(PomodoroType::from_label("team"), None);
}

#[test]
fn new_record_derives_start_from_duration() {
    let end = ts(2024, 3, 13, 12, 0, 0);
    let p = Pomodoro::new("focus".to_string(), PomodoroType::Product, 25, end);
    assert_eq!(p.id.len(), 36);
    assert_eq!(p.start_time, ts(2024, 3, 13, 11, 35, 0));
    assert_eq!(p.end_time, end);
    assert_eq!(p.duration_minutes, 25);
    // A second record draws a different random id.
    let q = Pomodoro::new("focus".to_string(), PomodoroType::Product, 25, end);
    assert_ne!(p.id, q.id);
}

#[test]
fn with_notes_treats_empty_as_absent() {
    let end = ts(2024, 3, 13, 12, 0, 0);
    let p = Pomodoro::new("n".to_string(), PomodoroType::Team, 5, end)
        .with_notes(Some("".to_string()));
    assert_eq!(p.notes, None);
    let q = Pomodoro::manual(
        "m".to_string(),
        PomodoroType::Team,
        ts(2024, 3, 13, 11, 0, 0),
        end,
        60,
        Some("kept".to_string()),
    );
    assert_eq!(q.notes, Some("kept".to_string()));
}

#[test]
fn range_filter_is_inclusive_on_both_bounds() {
    let a = record("a", "early", PomodoroType::Team, ts(2024, 3, 10, 8, 0, 0), 25);
    let b = record("b", "mid", PomodoroType::Team, ts(2024, 3, 12, 8, 0, 0), 25);
    let c = record("c", "late", PomodoroType::Team, ts(2024, 3, 14, 8, 0, 0), 25);
    let all = vec![a, b, c];
    let shown = filter_by_date_range(
        &all,
        Some("2024-03-12T08:00:00+00:00"),
        Some("2024-03-14T08:00:00+00:00"),
    )
    .unwrap();
    assert_eq!(shown.len(), 2);
    assert_eq!(shown[0].id, "b");
    assert_eq!(shown[1].id, "c");
}

#[test]
fn range_filter_rejects_unparsable_bounds() {
    let a = record("a", "one", PomodoroType::Team, ts(2024, 3, 10, 8, 0, 0), 25);
    let all = vec![a];
    assert!(filter_by_date_range(&all, Some("not a time"), None).is_err());
    assert!(filter_by_date_range(&all, None, Some("also not a time")).is_err());
    let open_ended = filter_by_date_range(&all, None, None).unwrap();
    assert_eq!(open_ended.len(), 1);
}

#[test]
fn update_with_duplicate_ids_replaces_the_most_recent() {
    // Two records share an id; the one the read-time view lists first
    // (the later start) is the one an update replaces.
    let early = record("dup", "early", PomodoroType::Team, ts(2024, 3, 10, 8, 0, 0), 25);
    let late = record("dup", "late", PomodoroType::Team, ts(2024, 3, 14, 8, 0, 0), 25);
    let mut store = CsvStorage::from_records(vec![early.clone(), late.clone()]);
    let mut replacement = late.clone();
    replacement.name = "replaced".to_string();
    store.update(replacement.clone());
    let all = store.read_all();
    assert_eq!(all.len(), 2);
    assert!(all.iter().any(|q| same_record(q, &early)));
    assert!(all.iter().any(|q| same_record(q, &replacement)));
    assert!(!all.iter().any(|q| same_record(q, &late)));
}
