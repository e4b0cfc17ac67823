use wad::date::Date;
use wad::ident::RecordId;
use wad::record::{AbsenceRecord, AbsenceType, Hours};
use wad::selection::{select_absence_record, SelectionMenu, SelectionOption, SelectionOutcome};

fn sample(bits: u128) -> AbsenceRecord {
    AbsenceRecord {
        id: RecordId { bits },
        date: Date { year: 2024, month: 1, day: 15 },
        hours: Hours { milli: 8_000 },
        absence_type: AbsenceType::Vacation,
        note: None,
    }
}

#[test]
fn no_records_is_not_found() {
    match select_absence_record(Vec::new(), None) {
        SelectionOutcome::NotFound => {}
        _ => panic!("an empty date resolves to NotFound"),
    }
}

#[test]
fn a_lone_record_is_auto_selected() {
    match select_absence_record(vec![sample(7)], None) {
        SelectionOutcome::Chosen(c) => assert_eq!(c.id.bits, 7),
        _ => panic!("a lone record needs no prompt"),
    }
}

#[test]
fn three_records_without_id_need_a_prompt() {
    // Disambiguation: three records on one date and no explicit identifier
    let records = vec![sample(1), sample(2), sample(3)];
    match select_absence_record(records, None) {
        SelectionOutcome::NeedsPrompt(cands) => assert_eq!(cands.len(), 3),
        _ => panic!("several records require an interactive choice"),
    }
}

#[test]
fn an_explicit_id_selects_without_a_prompt() {
    let records = vec![sample(1), sample(2), sample(3)];
    match select_absence_record(records, Some(RecordId { bits: 2 })) {
        SelectionOutcome::Chosen(c) => assert_eq!(c.id.bits, 2),
        _ => panic!("an explicit identifier picks its record directly"),
    }
}

#[test]
fn an_unknown_id_is_not_found() {
    let records = vec![sample(1), sample(2)];
    match select_absence_record(records, Some(RecordId { bits: 9 })) {
        SelectionOutcome::NotFound => {}
        _ => panic!("an identifier absent from the date is NotFound"),
    }
}

#[test]
fn menu_keeps_options_in_order() {
    let items = vec![
        ("first".to_string(), 10u32),
        ("second".to_string(), 20u32),
        ("third".to_string(), 30u32),
    ];
    let menu = SelectionMenu::from_display_items("Pick one:".to_string(), items);
    assert_eq!(menu.prompt_text(), "Pick one:");
    assert_eq!(menu.options().len(), 3);
    assert_eq!(menu.options()[1].display_text(), "second");
    assert_eq!(menu.take_choice(2), 30);
}

#[test]
fn option_holds_display_and_value() {
    let opt = SelectionOption::new("shown".to_string(), 5i64);
    assert_eq!(opt.display_text(), "shown");
    assert_eq!(opt.value(), 5);
}
