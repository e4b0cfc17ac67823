use wad::date::Date;
use wad::editor::{EditOutcome, EditorSession};
use wad::ident::RecordId;
use wad::record::{AbsenceRecord, AbsenceType, Hours};
use wad::store::JsonDataStore;

fn sample() -> AbsenceRecord {
    AbsenceRecord {
        id: RecordId { bits: 99 },
        date: Date { year: 2024, month: 1, day: 15 },
        hours: Hours { milli: 8_000 },
        absence_type: AbsenceType::Vacation,
        note: Some("Annual leave".to_string()),
    }
}

#[test]
fn unedited_text_concludes_unchanged() {
    // No-op edit idempotence: the rendered text, returned untouched, parses
    // to a structurally equal record and the session reports Unchanged.
    let store = JsonDataStore::new("/tmp/wad-data".to_string());
    let original = sample();
    let (_path, stored) = store.add_absence(None, original.clone()).unwrap();

    let session = EditorSession::new(original);
    let text = session.render();
    match session.conclude(&text) {
        EditOutcome::Unchanged => {}
        _ => panic!("an untouched scratch file must conclude Unchanged"),
    }
    // the persisted content was never rewritten
    let after = store.get_absence(Some(&stored)).unwrap();
    assert_eq!(after.len(), 1);
    assert!(after[0].equals(&sample()));
}

#[test]
fn changed_identifier_is_rejected() {
    let session = EditorSession::new(sample());
    let mut edited = sample();
    edited.id = RecordId { bits: 100 };
    let text = wad::codec::encode_record(&edited);
    match session.conclude(&text) {
        EditOutcome::Rejected(reason) => assert_eq!(reason, "ULID cannot be changed"),
        _ => panic!("an edited identifier must be rejected"),
    }
}

#[test]
fn negative_hours_are_rejected() {
    let session = EditorSession::new(sample());
    let text = "{\"id\":\"00000000000000000000000033\",\"date\":\"2024-01-15\",\"hours\":-1.0,\"absence_type\":\"Vacation\",\"note\":\"Annual leave\"}";
    // bits 99 encode as a text ending in 33 (99 = 3 * 32 + 3)
    match session.conclude(text) {
        EditOutcome::Rejected(reason) => assert_eq!(reason, "Hours cannot be negative"),
        _ => panic!("negative hours must be rejected"),
    }
}

#[test]
fn unparsable_text_is_malformed() {
    let session = EditorSession::new(sample());
    match session.conclude("{ not json") {
        EditOutcome::Malformed => {}
        _ => panic!("unparsable text must fail the session"),
    }
}

#[test]
fn a_valid_change_is_validated() {
    let session = EditorSession::new(sample());
    let mut edited = sample();
    edited.hours = Hours { milli: 4_000 };
    edited.note = None;
    let text = wad::codec::encode_record(&edited);
    match session.conclude(&text) {
        EditOutcome::Validated(result) => assert!(result.equals(&edited)),
        _ => panic!("a rule-abiding edit must validate"),
    }
}
