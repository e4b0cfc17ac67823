//! Disambiguation: resolving a date, plus an optional explicit identifier,
//! to exactly one record, and the menu values an interactive prompt is built
//! from.
//!
//! The decision is pure: it either picks the record, reports that nothing
//! matches, or asks for an interactive choice among the candidates. Showing
//! the prompt — and treating a cancelled prompt as a quiet exit — is the
//! caller's part.

use vstd::prelude::*;

use crate::ident::RecordId;
use crate::record::{AbsenceRecord, AbsenceRecordView};

verus! {

/// Pairs a display string with a value of any type, for single-choice menus.
pub struct SelectionOption<T> {
    display: String,
    value: T,
}

impl<T> SelectionOption<T> {
    /// The rendering shown for this option.
    pub closed spec fn spec_display(&self) -> Seq<char> {
        self.display@
    }

    /// The value this option stands for.
    pub closed spec fn spec_value(&self) -> T {
        self.value
    }

    /// An option showing `display` and standing for `value`.
    pub fn new(display: String, value: T) -> (r: Self)
        ensures
            r.spec_display() == display@,
            r.spec_value() == value,
    {
        SelectionOption { display, value }
    }

    /// Take the value out.
    pub fn value(self) -> (v: T)
        ensures
            v == self.spec_value(),
    {
        self.value
    }

    /// The rendering shown for this option.
    pub fn display_text(&self) -> (d: &str)
        ensures
            d@ == self.spec_display(),
    {
        self.display.as_str()
    }
}

/// A single-choice menu: a prompt and the options to choose among.
pub struct SelectionMenu<T> {
    prompt: String,
    options: Vec<SelectionOption<T>>,
}

impl<T> SelectionMenu<T> {
    /// The menu's prompt line.
    pub closed spec fn spec_prompt(&self) -> Seq<char> {
        self.prompt@
    }

    /// The menu's options.
    pub closed spec fn spec_options(&self) -> Seq<SelectionOption<T>> {
        self.options@
    }

    /// Build a menu from items that already carry their rendering.
    pub fn from_display_items(prompt: String, items: Vec<(String, T)>) -> (m: Self)
        ensures
            m.spec_prompt() == prompt@,
            m.spec_options().len() == items@.len(),
            forall|k: int|
                0 <= k < items@.len() ==> (#[trigger] m.spec_options()[k]).spec_display()
                    == items@[k].0@ && m.spec_options()[k].spec_value() == items@[k].1,
    {
        let mut options: Vec<SelectionOption<T>> = Vec::new();
        let mut items = items;
        let ghost all = items@;
        let mut k: usize = 0;
        proof {
            assert(all.len() <= usize::MAX) by {
                assert(items@.len() == items.len());
            }
        }
        while items.len() > 0
            invariant
                k + items@.len() == all.len(),
                all.len() <= usize::MAX,
                options@.len() == k,
                forall|j: int| k as int <= j < all.len() ==> items@[j - k] == all[j],
                forall|j: int|
                    0 <= j < k ==> (#[trigger] options@[j]).spec_display() == all[j].0@
                        && options@[j].spec_value() == all[j].1,
            decreases items@.len(),
        {
            let (display, value) = items.remove(0);
            options.push(SelectionOption { display, value });
            proof {
                assert(forall|j: int| 0 <= j < items@.len() ==> items@[j] == all[j + k + 1]);
            }
            k += 1;
        }
        SelectionMenu { prompt, options }
    }

    /// The prompt line, for showing the menu.
    pub fn prompt_text(&self) -> (p: &str)
        ensures
            p@ == self.spec_prompt(),
    {
        self.prompt.as_str()
    }

    /// The options, for showing the menu.
    pub fn options(&self) -> (o: &Vec<SelectionOption<T>>)
        ensures
            o@ == self.spec_options(),
    {
        &self.options
    }

    /// Take the chosen option's value, by index.
    pub fn take_choice(self, index: usize) -> (v: T)
        requires
            index < self.spec_options().len(),
        ensures
            v == self.spec_options()[index as int].spec_value(),
    {
        let mut options = self.options;
        let chosen = options.remove(index);
        chosen.value()
    }
}

/// How a date plus an optional identifier resolves against the date's
/// records.
pub enum SelectionOutcome {
    /// Exactly one record is the target.
    Chosen(AbsenceRecord),
    /// Several records match and no identifier was given: an interactive
    /// choice among these candidates is required.
    NeedsPrompt(Vec<AbsenceRecord>),
    /// No record matches.
    NotFound,
}

/// The first record carrying the identifier, if any.
pub open spec fn spec_find_id(rvs: Seq<AbsenceRecordView>, target: RecordId) -> Option<
    AbsenceRecordView,
>
    decreases rvs.len(),
{
    if rvs.len() == 0 {
        None
    } else if rvs[0].id == target {
        Some(rvs[0])
    } else {
        spec_find_id(rvs.drop_first(), target)
    }
}

/// Resolve a date's records to one record: no records is `NotFound`; an
/// explicit identifier selects its first match or fails; without one, a lone
/// record is auto-selected and several require an interactive choice.
#[verifier::loop_isolation(false)]
pub fn select_absence_record(records: Vec<AbsenceRecord>, id: Option<RecordId>) -> (r:
    SelectionOutcome)
    ensures
        records@.len() == 0 ==> r is NotFound,
        records@.len() > 0 ==> match id {
            Some(target) => match spec_find_id(records.deep_view(), target) {
                Some(rv) => r matches SelectionOutcome::Chosen(c) && c@ == rv,
                None => r is NotFound,
            },
            None => if records@.len() == 1 {
                r matches SelectionOutcome::Chosen(c) && c@ == records.deep_view()[0]
            } else {
                r matches SelectionOutcome::NeedsPrompt(cands) && cands.deep_view()
                    == records.deep_view()
            },
        },
{
    let ghost views = records.deep_view();
    if records.len() == 0 {
        return SelectionOutcome::NotFound;
    }
    match id {
        Some(target) => {
            let mut k: usize = 0;
            proof {
                assert(views.skip(0) =~= views);
            }
            while k < records.len()
                invariant
                    k <= records@.len(),
                    views == records.deep_view(),
                    views.len() == records@.len(),
                    spec_find_id(views, target) == spec_find_id(
                        views.skip(k as int),
                        target,
                    ),
                decreases records@.len() - k,
            {
                if records[k].id == target {
                    proof {
                        assert(records.deep_view()[k as int] == records@[k as int]@);
                        assert(views.skip(k as int)[0] == views[k as int]);
                        assert(views[k as int].id == target);
                        assert(spec_find_id(views.skip(k as int), target) == Some(
                            views[k as int],
                        ));
                    }
                    let mut taken = records;
                    let chosen = taken.remove(k);
                    proof {
                        assert(chosen@ == views[k as int]);
                        assert(match spec_find_id(views, target) {
                            Some(rv) => chosen@ == rv,
                            None => false,
                        });
                    }
                    return SelectionOutcome::Chosen(chosen);
                }
                proof {
                    assert(records.deep_view()[k as int] == records@[k as int]@);
                    assert(views[k as int].id != target);
                }
                proof {
                    assert(views.skip(k as int)[0] == views[k as int]);
                    assert(views.skip(k as int).drop_first() =~= views.skip(k + 1));
                }
                k += 1;
            }
            proof {
                assert(views.skip(records@.len() as int) =~= Seq::<AbsenceRecordView>::empty());
            }
            SelectionOutcome::NotFound
        },
        None => {
            if records.len() == 1 {
                proof {
                    assert(records.deep_view()[0] == records@[0]@);
                }
                let mut taken = records;
                let chosen = taken.remove(0);
                proof {
                    assert(chosen@ == views[0]);
                }
                SelectionOutcome::Chosen(chosen)
            } else {
                SelectionOutcome::NeedsPrompt(records)
            }
        },
    }
}

/// What a command offers, shown in the command selection menu.
pub struct CommandMetadata {
    pub name: String,
    pub description: String,
}

impl CommandMetadata {
    /// The menu rendering, `name - description`.
    pub fn display_text(&self) -> (r: String)
        ensures
            r@ == self.name@ + " - "@ + self.description@,
    {
        let mut r = self.name.clone();
        r.append(" - ");
        r.append(self.description.as_str());
        r
    }
}

} // verus!
