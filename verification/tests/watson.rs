use wad::date::Date;
use wad::record::{AbsenceRecord, AbsenceType, Hours};
use wad::record::total_hours_milli;
use wad::ident::RecordId;
use wad::watson::{LogQuery, WatsonError, WatsonVersion};

#[test]
fn version_banner_parses() {
    let v = WatsonVersion::parse("Watson, version 2.1.0").unwrap();
    assert_eq!(v, WatsonVersion { major: 2, minor: 1, patch: 0 });
    let v = WatsonVersion::parse("Watson, version 10.20.30").unwrap();
    assert_eq!(v, WatsonVersion { major: 10, minor: 20, patch: 30 });
}

#[test]
fn version_components_parse_like_unsigned_integers() {
    // leading zeros and a leading plus sign are accepted, as the standard
    // unsigned parse does
    let v = WatsonVersion::parse("Watson, version 0000000000000000.1.0").unwrap();
    assert_eq!(v, WatsonVersion { major: 0, minor: 1, patch: 0 });
    let v = WatsonVersion::parse("Watson, version +2.01.0030").unwrap();
    assert_eq!(v, WatsonVersion { major: 2, minor: 1, patch: 30 });
    let v = WatsonVersion::parse("Watson, version 4294967295.0.0").unwrap();
    assert_eq!(v.major, u32::MAX);
    // a value beyond 32 bits fails, however many leading zeros pad it
    assert!(WatsonVersion::parse("Watson, version 4294967296.0.0").is_err());
    assert!(
        WatsonVersion::parse("Watson, version 00000000000000000000099999999999.0.0").is_err()
    );
}

#[test]
fn malformed_version_banners_fail() {
    for bad in [
        "watson 2.1.0",
        "Watson, version 2.1",
        "Watson, version 2.1.0.4",
        "Watson, version a.b.c",
        "Watson, version 2.1.0 extra",
        "Watson, version 99999999999.1.2",
    ] {
        match WatsonVersion::parse(bad) {
            Err(WatsonError::VersionParseError(_)) => {}
            other => panic!("{:?} must be a version parse error, got {:?}", bad, other),
        }
    }
}

#[test]
fn log_query_builds_its_arguments() {
    let from = Date { year: 2023, month: 7, day: 17 };
    let to = Date { year: 2023, month: 7, day: 23 };
    let args = LogQuery::new(from, to).to_args();
    assert_eq!(args, vec!["log", "--from", "2023-07-17", "--to", "2023-07-23", "--json"]);

    let args = LogQuery::new(from, to).with_current().to_args();
    assert_eq!(
        args,
        vec!["log", "--from", "2023-07-17", "--to", "2023-07-23", "--json", "--current"]
    );
}

#[test]
fn absence_totals_sum_exactly() {
    let record = |milli: i64| AbsenceRecord {
        id: RecordId { bits: 1 },
        date: Date { year: 2024, month: 1, day: 15 },
        hours: Hours { milli },
        absence_type: AbsenceType::Vacation,
        note: None,
    };
    let records = vec![record(8_000), record(4_000), record(-500)];
    assert_eq!(total_hours_milli(&records), 11_500);
    assert_eq!(total_hours_milli(&Vec::new()), 0);
}

#[test]
fn whole_hours_scale_to_thousandths() {
    assert_eq!(Hours::whole(8).milli, 8_000);
    assert_eq!(Hours::whole(0).milli, 0);
    assert!(Hours::whole(2).is_negative() == false);
    assert!(Hours { milli: -1 }.is_negative());
}
