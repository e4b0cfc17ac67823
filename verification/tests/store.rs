use wad::date::Date;
use wad::ident::RecordId;
use wad::record::{AbsenceRecord, AbsenceType, Hours};
use wad::store::{FilePlan, JsonDataStore};

fn store() -> JsonDataStore {
    JsonDataStore::new("/tmp/wad-data".to_string())
}

fn record(year: u32, month: u32, day: u32, milli: i64, t: AbsenceType, note: &str) -> AbsenceRecord {
    AbsenceRecord {
        id: RecordId::mint(),
        date: Date { year, month, day },
        hours: Hours { milli },
        absence_type: t,
        note: Some(note.to_string()),
    }
}

fn create_test_record(date_str: &str, absence_type: AbsenceType, milli: i64) -> AbsenceRecord {
    let parts: Vec<u32> = date_str.split('-').map(|p| p.parse().unwrap()).collect();
    record(parts[0], parts[1], parts[2], milli, absence_type, "Test record")
}

#[test]
fn test_add_and_get_single_absence() {
    let store = store();
    let record = create_test_record("2024-01-15", AbsenceType::Vacation, 8_000);
    let date = record.date;
    let id = record.id;

    // Add record to a date with no prior writes
    let (_path, content) = store.add_absence(None, record.clone()).unwrap();

    // Retrieve and verify
    let retrieved = store.get_absence(Some(&content)).unwrap();
    assert_eq!(retrieved.len(), 1);
    assert_eq!(retrieved[0].id, id);
    assert_eq!(retrieved[0].date, date);
    assert_eq!(retrieved[0].hours, Hours { milli: 8_000 });
}

#[test]
fn test_add_multiple_absences_same_day() {
    let store = store();
    let record1 = record(2024, 1, 15, 4_000, AbsenceType::Sick, "Morning sick");
    let record2 = record(2024, 1, 15, 4_000, AbsenceType::Vacation, "Afternoon PTO");

    // Add both records
    let (_p1, c1) = store.add_absence(None, record1.clone()).unwrap();
    let (_p2, c2) = store.add_absence(Some(&c1), record2.clone()).unwrap();

    // Retrieve and verify both are present and sorted by identifier
    let retrieved = store.get_absence(Some(&c2)).unwrap();
    assert_eq!(retrieved.len(), 2);
    assert!(retrieved[0].id.bits <= retrieved[1].id.bits);
}

#[test]
fn test_remove_absence() {
    let store = store();
    let record = create_test_record("2024-01-15", AbsenceType::Vacation, 8_000);
    let date = record.date;
    let id = record.id;

    let (_path, content) = store.add_absence(None, record).unwrap();

    // Verify it exists
    let retrieved = store.get_absence(Some(&content)).unwrap();
    assert_eq!(retrieved.len(), 1);

    // Remove it: the collection becomes empty, so the file goes away
    let (plan, removed) = store.remove_absence(date, Some(&content), id).unwrap();
    assert!(removed);
    assert!(matches!(plan, FilePlan::Delete));

    // With no file left, the collection reads as empty
    let retrieved = store.get_absence(None).unwrap();
    assert_eq!(retrieved.len(), 0);
}

#[test]
fn test_remove_one_of_multiple_absences() {
    let store = store();
    let record1 = record(2024, 1, 15, 4_000, AbsenceType::Sick, "Morning");
    let record2 = record(2024, 1, 15, 4_000, AbsenceType::Vacation, "Afternoon");
    let date = record1.date;

    let (_p1, c1) = store.add_absence(None, record1.clone()).unwrap();
    let (_p2, c2) = store.add_absence(Some(&c1), record2.clone()).unwrap();

    // Remove the first one
    let (plan, removed) = store.remove_absence(date, Some(&c2), record1.id).unwrap();
    assert!(removed);
    let c3 = match plan {
        FilePlan::Write(text) => text,
        FilePlan::Delete => panic!("one record should remain"),
    };

    // Verify only the second remains
    let retrieved = store.get_absence(Some(&c3)).unwrap();
    assert_eq!(retrieved.len(), 1);
    assert_eq!(retrieved[0].id, record2.id);
}

#[test]
fn test_get_absence_nonexistent_date() {
    let store = store();
    let retrieved = store.get_absence(None).unwrap();
    assert_eq!(retrieved.len(), 0);
}

#[test]
fn test_remove_nonexistent_absence() {
    let store = store();
    let date = Date { year: 2024, month: 1, day: 15 };
    let fake_id = RecordId::mint();

    let (_plan, removed) = store.remove_absence(date, None, fake_id).unwrap();
    assert!(!removed);
}

#[test]
fn test_year_directory_structure() {
    let store = store();
    let record_2024 = create_test_record("2024-01-15", AbsenceType::Vacation, 8_000);
    let record_2025 = create_test_record("2025-01-15", AbsenceType::Sick, 4_000);

    // Files for different years land in different year directories
    let (path_2024, _c) = store.add_absence(None, record_2024).unwrap();
    let (path_2025, _c) = store.add_absence(None, record_2025).unwrap();

    assert_eq!(path_2024, "/tmp/wad-data/absences/2024/2024-01-15.json");
    assert_eq!(path_2025, "/tmp/wad-data/absences/2025/2025-01-15.json");
    assert_eq!(store.year_dir(2024), "/tmp/wad-data/absences/2024");
    assert_eq!(store.absences_dir(), "/tmp/wad-data/absences");
}

#[test]
fn test_file_removed_when_no_records_left() {
    let store = store();
    let record = create_test_record("2024-01-15", AbsenceType::Vacation, 8_000);
    let date = record.date;
    let id = record.id;

    let (path, content) = store.add_absence(None, record).unwrap();
    assert_eq!(path, "/tmp/wad-data/absences/2024/2024-01-15.json");

    // Removing the last record asks for the file to be deleted
    let (plan, removed) = store.remove_absence(date, Some(&content), id).unwrap();
    assert!(removed);
    assert!(matches!(plan, FilePlan::Delete));
}

#[test]
fn test_update_replaces_matching_record() {
    let store = store();
    let record = create_test_record("2024-03-01", AbsenceType::Sick, 8_000);
    let date = record.date;

    let (_path, content) = store.add_absence(None, record.clone()).unwrap();

    let mut edited = record.clone();
    edited.hours = Hours { milli: 4_000 };
    edited.note = Some("Half day".to_string());
    let updated = store.update_absence(date, Some(&content), edited.clone()).unwrap();

    let retrieved = store.get_absence(Some(&updated)).unwrap();
    assert_eq!(retrieved.len(), 1);
    assert_eq!(retrieved[0].hours, Hours { milli: 4_000 });
    assert!(retrieved[0].equals(&edited));
}

#[test]
fn test_update_with_unknown_id_changes_nothing() {
    let store = store();
    let record = create_test_record("2024-03-01", AbsenceType::Sick, 8_000);
    let date = record.date;

    let (_path, content) = store.add_absence(None, record.clone()).unwrap();

    let mut stranger = create_test_record("2024-03-01", AbsenceType::Holiday, 2_000);
    stranger.date = date;
    let updated = store.update_absence(date, Some(&content), stranger).unwrap();

    let retrieved = store.get_absence(Some(&updated)).unwrap();
    assert_eq!(retrieved.len(), 1);
    assert!(retrieved[0].equals(&record));
}

#[test]
fn test_get_rejects_malformed_content() {
    let store = store();
    let result = store.get_absence(Some("this is not a record collection"));
    assert!(result.is_err());
}

#[test]
fn test_adds_on_one_date_come_back_sorted() {
    // Ordering holds regardless of insertion order
    let store = store();
    let mut ids = Vec::new();
    let mut content: Option<String> = None;
    for milli in [1_000_i64, 2_000, 3_000] {
        let r = record(2024, 6, 1, milli, AbsenceType::Vacation, "n");
        ids.push(r.id.bits);
        let (_p, c) = store.add_absence(content.as_deref(), r).unwrap();
        content = Some(c);
    }
    let retrieved = store.get_absence(content.as_deref()).unwrap();
    assert_eq!(retrieved.len(), 3);
    for w in retrieved.windows(2) {
        assert!(w[0].id.bits <= w[1].id.bits);
    }
}
