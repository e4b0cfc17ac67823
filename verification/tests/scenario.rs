use wad::date::Date;
use wad::record::{AbsenceRecord, AbsenceType, Hours};
use wad::store::{FilePlan, JsonDataStore};

/// The full concrete scenario: add an absence on 2024-01-15 of type Vacation
/// with 8 hours and the note "Annual leave"; the store files it under
/// `absences/2024/2024-01-15.json` as exactly one element with those fields;
/// removing it by its identifier succeeds and deletes the file; removing it
/// again reports that nothing was removed.
#[test]
fn add_remove_remove_scenario() {
    let store = JsonDataStore::new("/data".to_string());
    let date = Date { year: 2024, month: 1, day: 15 };
    let record = AbsenceRecord::create(
        date,
        Hours::whole(8),
        AbsenceType::Vacation,
        Some("Annual leave".to_string()),
    );
    let id = record.id;

    // add: the file path is sharded by year and named after the date
    let (path, content) = store.add_absence(None, record).unwrap();
    assert_eq!(path, "/data/absences/2024/2024-01-15.json");

    // the file holds exactly one element with those fields
    let records = store.get_absence(Some(&content)).unwrap();
    assert_eq!(records.len(), 1);
    assert_eq!(records[0].id, id);
    assert_eq!(records[0].date, date);
    assert_eq!(records[0].hours, Hours { milli: 8_000 });
    assert!(matches!(records[0].absence_type, AbsenceType::Vacation));
    assert_eq!(records[0].note.as_deref(), Some("Annual leave"));

    // removing it by its identifier returns true and deletes the file
    let (plan, removed) = store.remove_absence(date, Some(&content), id).unwrap();
    assert!(removed);
    assert!(matches!(plan, FilePlan::Delete));

    // removing it again, with the file gone, returns false
    let (_plan, removed_again) = store.remove_absence(date, None, id).unwrap();
    assert!(!removed_again);

    // and reading the date afterwards is empty, without error
    assert_eq!(store.get_absence(None).unwrap().len(), 0);
}
