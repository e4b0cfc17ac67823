//! The absence record entity: its shape, its mathematical view, and the rule
//! that accepts or rejects an edited version of it.

use vstd::prelude::*;

use crate::date::Date;
use crate::ident::RecordId;

verus! {

/// A quantity of hours, held in thousandths of an hour so that decimal
/// renderings such as `7.5` or `0.25` round-trip exactly.
#[derive(Clone, Copy, PartialEq, Eq, Structural, Debug)]
pub struct Hours {
    pub milli: i64,
}

impl Hours {
    /// `h` whole hours.
    pub fn whole(h: i64) -> (r: Hours)
        requires
            -9_223_372_036_854_775 <= h <= 9_223_372_036_854_775,
        ensures
            r.milli == h * 1000,
    {
        Hours { milli: h * 1000 }
    }

    /// Whether the quantity is negative.
    pub fn is_negative(&self) -> (r: bool)
        ensures
            r == (self.milli < 0),
    {
        self.milli < 0
    }
}

/// The category of an absence: a closed set of variants plus one open variant
/// carrying a free-text label.
#[derive(Clone, Debug)]
pub enum AbsenceType {
    Vacation,
    Sick,
    OvertimeReduction,
    Holiday,
    Other(String),
}

/// The mathematical value of an [`AbsenceType`].
#[verifier::ext_equal]
pub enum AbsenceKindView {
    Vacation,
    Sick,
    OvertimeReduction,
    Holiday,
    Other(Seq<char>),
}

impl View for AbsenceType {
    type V = AbsenceKindView;

    open spec fn view(&self) -> AbsenceKindView {
        match self {
            AbsenceType::Vacation => AbsenceKindView::Vacation,
            AbsenceType::Sick => AbsenceKindView::Sick,
            AbsenceType::OvertimeReduction => AbsenceKindView::OvertimeReduction,
            AbsenceType::Holiday => AbsenceKindView::Holiday,
            AbsenceType::Other(label) => AbsenceKindView::Other(label@),
        }
    }
}

impl AbsenceType {
    /// Structural equality.
    pub fn equals(&self, other: &AbsenceType) -> (r: bool)
        ensures
            r == (self@ == other@),
    {
        match (self, other) {
            (AbsenceType::Vacation, AbsenceType::Vacation) => true,
            (AbsenceType::Sick, AbsenceType::Sick) => true,
            (AbsenceType::OvertimeReduction, AbsenceType::OvertimeReduction) => true,
            (AbsenceType::Holiday, AbsenceType::Holiday) => true,
            (AbsenceType::Other(a), AbsenceType::Other(b)) => *a == *b,
            _ => false,
        }
    }
}

/// A logged absence: an immutable identifier, the calendar day it is filed
/// under, a quantity of hours, a category, and an optional note.
#[derive(Debug)]
pub struct AbsenceRecord {
    pub id: RecordId,
    pub date: Date,
    pub hours: Hours,
    pub absence_type: AbsenceType,
    pub note: Option<String>,
}

/// The mathematical value of an [`AbsenceRecord`].
#[verifier::ext_equal]
pub struct AbsenceRecordView {
    pub id: RecordId,
    pub date: Date,
    pub hours: int,
    pub absence_type: AbsenceKindView,
    pub note: Option<Seq<char>>,
}

impl View for AbsenceRecord {
    type V = AbsenceRecordView;

    open spec fn view(&self) -> AbsenceRecordView {
        AbsenceRecordView {
            id: self.id,
            date: self.date,
            hours: self.hours.milli as int,
            absence_type: self.absence_type@,
            note: self.note.deep_view(),
        }
    }
}

impl DeepView for AbsenceRecord {
    type V = AbsenceRecordView;

    open spec fn deep_view(&self) -> AbsenceRecordView {
        self@
    }
}

impl Clone for AbsenceRecord {
    /// Cloning preserves the value.
    fn clone(&self) -> (r: Self)
        ensures
            r@ == self@,
    {
        AbsenceRecord {
            id: self.id,
            date: self.date,
            hours: self.hours,
            absence_type: self.absence_type.clone_exact(),
            note: match &self.note {
                Some(s) => Some(s.clone()),
                None => None,
            },
        }
    }
}

impl AbsenceType {
    /// A copy with the same value.
    pub fn clone_exact(&self) -> (r: AbsenceType)
        ensures
            r@ == self@,
    {
        match self {
            AbsenceType::Vacation => AbsenceType::Vacation,
            AbsenceType::Sick => AbsenceType::Sick,
            AbsenceType::OvertimeReduction => AbsenceType::OvertimeReduction,
            AbsenceType::Holiday => AbsenceType::Holiday,
            AbsenceType::Other(label) => AbsenceType::Other(label.clone()),
        }
    }
}

impl AbsenceRecord {
    /// Build a record with a freshly minted identifier; every other field is
    /// exactly what was given.
    pub fn create(
        date: Date,
        hours: Hours,
        absence_type: AbsenceType,
        note: Option<String>,
    ) -> (r: AbsenceRecord)
        ensures
            r.date == date,
            r.hours == hours,
            r@.absence_type == absence_type@,
            r@.note == note.deep_view(),
    {
        AbsenceRecord { id: RecordId::mint(), date, hours, absence_type, note }
    }

    /// Field-for-field structural equality.
    pub fn equals(&self, other: &AbsenceRecord) -> (r: bool)
        ensures
            r == (self@ == other@),
    {
        let fields_equal = self.id == other.id && self.date == other.date && self.hours.milli
            == other.hours.milli && self.absence_type.equals(&other.absence_type) && match (
            &self.note,
            &other.note,
        ) {
            (Some(a), Some(b)) => *a == *b,
            (None, None) => true,
            _ => false,
        };
        proof {
            if fields_equal {
                assert(self@ =~= other@);
            }
        }
        fields_equal
    }
}

impl crate::editor::EditableDocument for AbsenceRecord {
    open spec fn spec_can_render(&self) -> bool {
        crate::codec::codec_record_wf(self@)
    }

    open spec fn spec_render(&self) -> Seq<char> {
        crate::codec::spec_print_record(self@)
    }

    open spec fn spec_parse(text: Seq<char>) -> Option<AbsenceRecordView> {
        crate::codec::spec_decode_record(text)
    }

    /// The rule for an edited absence record: the identifier is immutable,
    /// and hours must remain non-negative.
    open spec fn spec_valid_edit(edited: AbsenceRecordView, original: AbsenceRecordView) -> bool {
        edited.id == original.id && edited.hours >= 0
    }

    /// The reason given for a rejected edit; a changed identifier is named
    /// before negative hours.
    open spec fn spec_reject_reason(edited: AbsenceRecordView, original: AbsenceRecordView) -> Seq<
        char,
    > {
        if edited.id != original.id {
            "ULID cannot be changed"@
        } else {
            "Hours cannot be negative"@
        }
    }

    fn render(&self) -> (s: String) {
        crate::codec::encode_record(self)
    }

    fn parse_text(text: &str) -> (r: Option<Self>) {
        crate::codec::decode_record(text)
    }

    fn equals(&self, other: &Self) -> (r: bool) {
        AbsenceRecord::equals(self, other)
    }

    fn validate(&self, original: &Self) -> (r: Result<(), String>) {
        if self.id != original.id {
            Err(String::from_str("ULID cannot be changed"))
        } else if self.hours.milli < 0 {
            Err(String::from_str("Hours cannot be negative"))
        } else {
            Ok(())
        }
    }

    proof fn render_parses_back(&self) {
        crate::codec::lemma_record_codec_round_trip(self@);
    }
}

/// The label shown for a category: the variant's name, or `Other: ` with the
/// free-text label.
pub open spec fn spec_kind_label(t: AbsenceKindView) -> Seq<char> {
    match t {
        AbsenceKindView::Vacation => "Vacation"@,
        AbsenceKindView::Sick => "Sick"@,
        AbsenceKindView::OvertimeReduction => "Overtime Reduction"@,
        AbsenceKindView::Holiday => "Holiday"@,
        AbsenceKindView::Other(l) => "Other: "@ + l,
    }
}

/// The one-line human-readable rendering of a record: identifier, hours,
/// category and note, separated by bars.
pub open spec fn spec_display_record(rv: AbsenceRecordView) -> Seq<char> {
    crate::ident::spec_encode_id(rv.id.bits) + " | "@ + crate::codec::spec_print_hours(rv.hours)
        + " hours | "@ + spec_kind_label(rv.absence_type) + " | "@ + (match rv.note {
        Some(t) => t,
        None => "(no note)"@,
    })
}

impl AbsenceRecord {
    /// Render the record for a human: `<id> | <hours> hours | <category> |
    /// <note>`, with `(no note)` standing in for a missing note.
    pub fn display_text(&self) -> (r: String)
        requires
            -1_000_000_000_000_000_000 < self.hours.milli < 1_000_000_000_000_000_000,
        ensures
            r@ == spec_display_record(self@),
    {
        let mut out: Vec<char> = Vec::new();
        let mut idc = self.id.encode_chars();
        out.append(&mut idc);
        crate::codec::emit_str(&mut out, " | ");
        crate::codec::emit_hours(&mut out, self.hours.milli);
        crate::codec::emit_str(&mut out, " hours | ");
        match &self.absence_type {
            AbsenceType::Vacation => crate::codec::emit_str(&mut out, "Vacation"),
            AbsenceType::Sick => crate::codec::emit_str(&mut out, "Sick"),
            AbsenceType::OvertimeReduction => crate::codec::emit_str(
                &mut out,
                "Overtime Reduction",
            ),
            AbsenceType::Holiday => crate::codec::emit_str(&mut out, "Holiday"),
            AbsenceType::Other(l) => {
                crate::codec::emit_str(&mut out, "Other: ");
                crate::codec::emit_str(&mut out, l.as_str());
            },
        }
        crate::codec::emit_str(&mut out, " | ");
        match &self.note {
            Some(t) => crate::codec::emit_str(&mut out, t.as_str()),
            None => crate::codec::emit_str(&mut out, "(no note)"),
        }
        proof {
            assert(out@ =~= spec_display_record(self@));
        }
        crate::text::chars_to_string(&out)
    }
}

/// The summed hours of a collection, in thousandths.
pub open spec fn spec_total_milli(rvs: Seq<AbsenceRecordView>) -> int
    decreases rvs.len(),
{
    if rvs.len() == 0 {
        0
    } else {
        spec_total_milli(rvs.drop_last()) + rvs.last().hours
    }
}

/// Sum the hours of a collection, in thousandths. The sum of any number of
/// 64-bit quantities fits 128 bits, so this is exact.
pub fn total_hours_milli(records: &Vec<AbsenceRecord>) -> (r: i128)
    ensures
        r == spec_total_milli(records.deep_view()),
{
    let ghost views = records.deep_view();
    let mut acc: i128 = 0;
    let mut k: usize = 0;
    proof {
        assert(views.subrange(0, 0) =~= Seq::<AbsenceRecordView>::empty());
    }
    while k < records.len()
        invariant
            k <= records@.len(),
            views == records.deep_view(),
            views.len() == records@.len(),
            acc == spec_total_milli(views.subrange(0, k as int)),
            -0x8000_0000_0000_0000_i128 * (k as i128) <= acc <= 0x8000_0000_0000_0000_i128 * (
            k as i128),
        decreases records@.len() - k,
    {
        let h = records[k].hours.milli;
        proof {
            assert(views[k as int] == records@[k as int]@);
            assert(views.subrange(0, k + 1).drop_last() =~= views.subrange(0, k as int));
            assert(views.subrange(0, k + 1).last() == views[k as int]);
            assert(0x8000_0000_0000_0000_i128 * ((k + 1) as i128) == 0x8000_0000_0000_0000_i128 * (
            k as i128) + 0x8000_0000_0000_0000_i128) by (nonlinear_arith);
            assert(-0x8000_0000_0000_0000_i128 * ((k + 1) as i128) == -0x8000_0000_0000_0000_i128
                * (k as i128) - 0x8000_0000_0000_0000_i128) by (nonlinear_arith);
            assert((k + 1) as i128 <= 0xffff_ffff_ffff_ffff_i128);
            assert(0x8000_0000_0000_0000_i128 * ((k + 1) as i128) <= 0x8000_0000_0000_0000_i128
                * 0xffff_ffff_ffff_ffff_i128) by (nonlinear_arith)
                requires
                    ((k + 1) as i128) <= 0xffff_ffff_ffff_ffff_i128,
            ;
        }
        acc = acc + (h as i128);
        k += 1;
    }
    proof {
        assert(views.subrange(0, views.len() as int) =~= views);
    }
    acc
}

} // verus!
