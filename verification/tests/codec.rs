use wad::codec::{decode_record, decode_records, encode_record, encode_records};
use wad::date::Date;
use wad::ident::RecordId;
use wad::record::{AbsenceRecord, AbsenceType, Hours};

fn sample(bits: u128, milli: i64, t: AbsenceType, note: Option<&str>) -> AbsenceRecord {
    AbsenceRecord {
        id: RecordId { bits },
        date: Date { year: 2024, month: 1, day: 15 },
        hours: Hours { milli },
        absence_type: t,
        note: note.map(|n| n.to_string()),
    }
}

#[test]
fn encoded_collection_decodes_back() {
    let records = vec![
        sample(1, 8_000, AbsenceType::Vacation, Some("Annual leave")),
        sample(2, 4_000, AbsenceType::Sick, None),
        sample(3, 7_500, AbsenceType::Other("Bereavement".to_string()), Some("family")),
    ];
    let text = encode_records(&records);
    let back = decode_records(&text).unwrap();
    assert_eq!(back.len(), 3);
    for (a, b) in records.iter().zip(back.iter()) {
        assert!(a.equals(b));
    }
}

#[test]
fn empty_collection_is_an_empty_array() {
    let records: Vec<AbsenceRecord> = Vec::new();
    let text = encode_records(&records);
    assert_eq!(text, "[]");
    assert_eq!(decode_records(&text).unwrap().len(), 0);
}

#[test]
fn encoded_text_is_wellformed_json() {
    // An outside JSON parser accepts the encoded form and sees the fields.
    let records = vec![sample(
        0x0111_2222_3333_4444_5555_6666_7777_8888,
        8_000,
        AbsenceType::Vacation,
        Some("Annual leave"),
    )];
    let text = encode_records(&records);
    let value: serde_json::Value = serde_json::from_str(&text).unwrap();
    let arr = value.as_array().unwrap();
    assert_eq!(arr.len(), 1);
    let obj = arr[0].as_object().unwrap();
    assert_eq!(obj["date"].as_str().unwrap(), "2024-01-15");
    assert_eq!(obj["hours"].as_f64().unwrap(), 8.0);
    assert_eq!(obj["absence_type"].as_str().unwrap(), "Vacation");
    assert_eq!(obj["note"].as_str().unwrap(), "Annual leave");
    assert_eq!(
        obj["id"].as_str().unwrap(),
        ulid::Ulid(0x0111_2222_3333_4444_5555_6666_7777_8888).to_string()
    );
}

#[test]
fn note_escapes_round_trip() {
    let records = vec![sample(
        7,
        250,
        AbsenceType::Other("tab\there".to_string()),
        Some("a \"quoted\" note with \\ and\nnewline"),
    )];
    let text = encode_records(&records);
    let back = decode_records(&text).unwrap();
    assert!(back[0].equals(&records[0]));
    // the outside parser agrees about the escaped content
    let value: serde_json::Value = serde_json::from_str(&text).unwrap();
    assert_eq!(
        value[0]["note"].as_str().unwrap(),
        "a \"quoted\" note with \\ and\nnewline"
    );
}

#[test]
fn fractional_hours_render_as_decimals() {
    let records = vec![
        sample(1, 8_000, AbsenceType::Vacation, None),
        sample(2, 7_500, AbsenceType::Vacation, None),
        sample(3, 250, AbsenceType::Vacation, None),
    ];
    let text = encode_records(&records);
    assert!(text.contains("\"hours\": 8.0,"));
    assert!(text.contains("\"hours\": 7.5,"));
    assert!(text.contains("\"hours\": 0.25,"));
}

#[test]
fn single_record_round_trips() {
    let record = sample(42, 4_000, AbsenceType::Holiday, Some("May Day"));
    let text = encode_record(&record);
    let back = decode_record(&text).unwrap();
    assert!(back.equals(&record));
}

#[test]
fn decode_accepts_flexible_whitespace_and_integer_hours() {
    let text = "  [ {\n\"id\":\"01ARZ3NDEKTSV4RRFFQ69G5FAV\",\n\"date\": \"2024-02-29\", \"hours\": 8,\n\"absence_type\": {\"Other\": \"x\"}, \"note\": null } ]  ";
    let records = decode_records(text).unwrap();
    assert_eq!(records.len(), 1);
    assert_eq!(records[0].hours, Hours { milli: 8_000 });
    assert_eq!(records[0].date, Date { year: 2024, month: 2, day: 29 });
    assert!(records[0].note.is_none());
}

#[test]
fn decode_rejects_malformed_text() {
    assert!(decode_records("").is_err());
    assert!(decode_records("{}").is_err());
    assert!(decode_records("[{}]").is_err());
    assert!(decode_records("[").is_err());
    // an invalid calendar day is refused
    let bad_date = "[{\"id\":\"01ARZ3NDEKTSV4RRFFQ69G5FAV\",\"date\":\"2023-02-29\",\"hours\":8.0,\"absence_type\":\"Sick\",\"note\":null}]";
    assert!(decode_records(bad_date).is_err());
    // negative hours still parse; only validation rejects them later
    let negative = "[{\"id\":\"01ARZ3NDEKTSV4RRFFQ69G5FAV\",\"date\":\"2024-01-15\",\"hours\":-2.5,\"absence_type\":\"Sick\",\"note\":null}]";
    let records = decode_records(negative).unwrap();
    assert_eq!(records[0].hours, Hours { milli: -2_500 });
    // trailing text after the array is refused
    assert!(decode_records("[] trailing").is_err());
    // too many fractional digits are refused
    let precise = "[{\"id\":\"01ARZ3NDEKTSV4RRFFQ69G5FAV\",\"date\":\"2024-01-15\",\"hours\":8.0001,\"absence_type\":\"Sick\",\"note\":null}]";
    assert!(decode_records(precise).is_err());
}

#[test]
fn identifier_text_matches_the_ulid_crate() {
    let bits: u128 = 0x0163_4d4b_5559_6d4e_8f2c_1a2b_3c4d_5e6f;
    let mine = RecordId { bits };
    let theirs = ulid::Ulid(bits);
    assert_eq!(mine.encode(), theirs.to_string());
    let parsed = RecordId::parse(&theirs.to_string()).unwrap();
    assert_eq!(parsed.bits, bits);
    // a fresh identifier round-trips as well
    let fresh = ulid::Ulid::generate();
    assert_eq!(RecordId::parse(&fresh.to_string()).unwrap().bits, fresh.0);
}

#[test]
fn identifier_text_sorts_like_the_bits() {
    let a = RecordId { bits: 5 };
    let b = RecordId { bits: 1 << 90 };
    let c = RecordId { bits: u128::MAX };
    assert!(a.encode() < b.encode());
    assert!(b.encode() < c.encode());
    assert!(RecordId::parse("not an identifier").is_none());
}

#[test]
fn date_validity_follows_the_calendar() {
    assert!(Date { year: 2024, month: 2, day: 29 }.valid());
    assert!(!Date { year: 2023, month: 2, day: 29 }.valid());
    assert!(Date { year: 2000, month: 2, day: 29 }.valid());
    assert!(!Date { year: 1900, month: 2, day: 29 }.valid());
    assert!(!Date { year: 2024, month: 4, day: 31 }.valid());
    assert!(!Date { year: 2024, month: 0, day: 1 }.valid());
    assert!(Date::new(2024, 12, 31).is_some());
    assert!(Date::new(2024, 13, 1).is_none());
}

#[test]
fn record_display_line_shows_every_field() {
    let record = sample(
        0x0111_2222_3333_4444_5555_6666_7777_8888,
        7_500,
        AbsenceType::Other("Jury".to_string()),
        None,
    );
    let line = record.display_text();
    let id_text = RecordId { bits: 0x0111_2222_3333_4444_5555_6666_7777_8888 }.encode();
    assert_eq!(line, format!("{} | 7.5 hours | Other: Jury | (no note)", id_text));
}

#[test]
fn control_characters_escape_and_round_trip() {
    let records = vec![sample(
        9,
        1_000,
        AbsenceType::Other("split\u{0}label".to_string()),
        Some("bell\u{7} and escape\u{1b}"),
    )];
    let text = encode_records(&records);
    let back = decode_records(&text).unwrap();
    assert!(back[0].equals(&records[0]));
    // the text holds four-digit escapes, never raw control characters
    assert!(text.contains("\\u0000"));
    assert!(text.contains("\\u0007"));
    assert!(text.contains("\\u001b"));
    // an outside JSON parser reads the escapes back identically
    let value: serde_json::Value = serde_json::from_str(&text).unwrap();
    assert_eq!(value[0]["note"].as_str().unwrap(), "bell\u{7} and escape\u{1b}");
    assert_eq!(value[0]["absence_type"]["Other"].as_str().unwrap(), "split\u{0}label");
}

#[test]
fn u_escapes_are_read_back() {
    let text = "[{\"id\":\"01ARZ3NDEKTSV4RRFFQ69G5FAV\",\"date\":\"2024-01-15\",\"hours\":1.0,\"absence_type\":\"Sick\",\"note\":\"\\u0041\\u000a\"}]";
    let records = decode_records(text).unwrap();
    assert_eq!(records[0].note.as_deref(), Some("A\n"));
    // a raw control character inside a string is still refused
    let raw = "[{\"id\":\"01ARZ3NDEKTSV4RRFFQ69G5FAV\",\"date\":\"2024-01-15\",\"hours\":1.0,\"absence_type\":\"Sick\",\"note\":\"a\u{1}b\"}]";
    assert!(decode_records(raw).is_err());
}

#[test]
fn lowercase_identifier_text_is_accepted() {
    let bits: u128 = 0x0163_4d4b_5559_6d4e_8f2c_1a2b_3c4d_5e6f;
    let upper = RecordId { bits }.encode();
    let lower = upper.to_lowercase();
    assert_ne!(upper, lower);
    assert_eq!(RecordId::parse(&lower).unwrap().bits, bits);
}
