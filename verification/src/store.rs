//! The record store core: file paths, file contents, and the exact effect of
//! every operation.
//!
//! The store is sharded one directory per year and one file per date. This
//! module is pure: each operation takes the current content of a date's file
//! (`None` when no file exists) and computes the records read, the new
//! content to write, or the decision to delete the file. Reading and writing
//! the files themselves is the caller's part.

use vstd::multiset::Multiset;
use vstd::prelude::*;
use vstd::seq_lib::{group_seq_properties, group_to_multiset_ensures};

use crate::codec::{
    codec_record_wf, codec_records_wf, decode_records, encode_records, spec_decode,
    spec_print_date, spec_print_nat, ParseError,
};
use crate::date::Date;
use crate::ident::RecordId;
use crate::record::{AbsenceRecord, AbsenceRecordView};

verus! {

broadcast use group_seq_properties, group_to_multiset_ensures;

/// How a store operation fails.
#[derive(Debug)]
pub enum JsonDataStoreError {
    /// No data directory is available on this machine.
    NoDataDir,
    /// Reading or writing a file failed; carries the I/O layer's message.
    Io(String),
    /// A file exists but does not hold a well-formed record collection.
    Serialization(ParseError),
}

/// What should happen to a date's backing file after an operation.
pub enum FilePlan {
    /// Rewrite the file with this content.
    Write(String),
    /// Delete the file: its collection became empty.
    Delete,
}

/// The records a date's file holds: an absent file holds the empty
/// collection; a present file holds what it decodes to.
pub open spec fn spec_stored(content: Option<Seq<char>>) -> Option<Seq<AbsenceRecordView>> {
    match content {
        None => Some(Seq::empty()),
        Some(text) => spec_decode(text),
    }
}

/// Whether a collection is sorted by identifier, ascending.
pub open spec fn sorted_by_id(rvs: Seq<AbsenceRecordView>) -> bool {
    forall|j: int, k: int| 0 <= j < k < rvs.len() ==> rvs[j].id.bits <= rvs[k].id.bits
}

/// The collection with every record of the given identifier removed; order is
/// kept.
pub open spec fn spec_remove_id(rvs: Seq<AbsenceRecordView>, id: RecordId) -> Seq<
    AbsenceRecordView,
>
    decreases rvs.len(),
{
    if rvs.len() == 0 {
        Seq::empty()
    } else {
        spec_remove_id(rvs.drop_last(), id) + (if rvs.last().id == id {
            Seq::empty()
        } else {
            seq![rvs.last()]
        })
    }
}

/// The collection with every record of the replacement's identifier replaced
/// by the replacement; everything else is kept in place.
pub open spec fn spec_replace_id(rvs: Seq<AbsenceRecordView>, rv: AbsenceRecordView) -> Seq<
    AbsenceRecordView,
> {
    Seq::new(rvs.len(), |k: int| if rvs[k].id == rv.id { rv } else { rvs[k] })
}

/// The file-backed record store, addressed by a root data directory. All its
/// operations are pure: they say what to read and what to write.
pub struct JsonDataStore {
    data_dir: String,
}

impl JsonDataStore {
    /// The root directory this store was opened on.
    pub closed spec fn spec_data_dir(&self) -> Seq<char> {
        self.data_dir@
    }

    /// A store rooted at the given data directory.
    pub fn new(data_dir: String) -> (s: JsonDataStore)
        ensures
            s.spec_data_dir() == data_dir@,
    {
        JsonDataStore { data_dir }
    }

    /// The directory all absence files live under.
    pub open spec fn spec_absences_dir(&self) -> Seq<char> {
        self.spec_data_dir() + "/absences"@
    }

    /// The year shard a date's file lives in.
    pub open spec fn spec_year_dir(&self, year: u32) -> Seq<char> {
        self.spec_absences_dir() + "/"@ + spec_print_nat(year as nat)
    }

    /// The path of a date's file.
    pub open spec fn spec_file_path(&self, date: Date) -> Seq<char> {
        self.spec_year_dir(date.year) + "/"@ + spec_print_date(date) + ".json"@
    }

    /// The directory all absence files live under.
    pub fn absences_dir(&self) -> (r: String)
        ensures
            r@ == self.spec_absences_dir(),
    {
        let mut r = self.data_dir.clone();
        r.append("/absences");
        r
    }

    /// The year shard a date's file lives in.
    pub fn year_dir(&self, year: u32) -> (r: String)
        ensures
            r@ == self.spec_year_dir(year),
    {
        let mut r = self.absences_dir();
        r.append("/");
        let mut digits: Vec<char> = Vec::new();
        crate::codec::emit_nat(&mut digits, year as u64);
        let ystr = crate::text::chars_to_string(&digits);
        r.append(ystr.as_str());
        r
    }

    /// The path of a date's file, `<root>/absences/<year>/<YYYY-MM-DD>.json`.
    pub fn absence_file_path(&self, date: Date) -> (r: String)
        ensures
            r@ == self.spec_file_path(date),
    {
        let mut r = self.year_dir(date.year);
        r.append("/");
        let mut chars: Vec<char> = Vec::new();
        crate::codec::emit_date(&mut chars, date);
        let dstr = crate::text::chars_to_string(&chars);
        r.append(dstr.as_str());
        r.append(".json");
        proof {
            assert(r@ =~= self.spec_file_path(date));
        }
        r
    }
}

/// Sort records by identifier, ascending. The result is a sorted permutation
/// of the input.
fn sort_records(input: Vec<AbsenceRecord>) -> (out: Vec<AbsenceRecord>)
    ensures
        sorted_by_id(out.deep_view()),
        out.deep_view().to_multiset() == input.deep_view().to_multiset(),
        out.deep_view().len() == input.deep_view().len(),
{
    let mut rest = input;
    let ghost all = rest.deep_view();
    let mut out: Vec<AbsenceRecord> = Vec::new();
    proof {
        assert(out.deep_view() =~= Seq::<AbsenceRecordView>::empty());
        assert(out.deep_view().to_multiset().add(rest.deep_view().to_multiset())
            =~= all.to_multiset());
    }
    while rest.len() > 0
        invariant
            sorted_by_id(out.deep_view()),
            out.deep_view().to_multiset().add(rest.deep_view().to_multiset())
                == all.to_multiset(),
            out.deep_view().len() + rest.deep_view().len() == all.len(),
            forall|a: int, b: int|
                0 <= a < out.deep_view().len() && 0 <= b < rest.deep_view().len()
                    ==> #[trigger] out.deep_view()[a].id.bits
                    <= #[trigger] rest.deep_view()[b].id.bits,
        decreases rest.len(),
    {
        // find the position of a least remaining identifier
        let mut mi: usize = 0;
        let mut k: usize = 1;
        while k < rest.len()
            invariant
                mi < k <= rest@.len(),
                forall|j: int| 0 <= j < k ==> rest.deep_view()[mi as int].id.bits
                    <= #[trigger] rest.deep_view()[j].id.bits,
            decreases rest@.len() - k,
        {
            if rest[k].id.bits < rest[mi].id.bits {
                mi = k;
            }
            k += 1;
        }
        let ghost rest_before = rest.deep_view();
        let ghost out_before = out.deep_view();
        let r = rest.remove(mi);
        proof {
            assert(rest.deep_view() =~= rest_before.remove(mi as int));
            assert(rest_before.remove(mi as int).to_multiset() =~= rest_before.to_multiset()
                .remove(rest_before[mi as int]));
            assert(r@ == rest_before[mi as int]);
        }
        out.push(r);
        proof {
            assert(out.deep_view() =~= out_before.push(rest_before[mi as int]));
            assert(out_before.push(rest_before[mi as int]).to_multiset() =~= out_before
                .to_multiset().insert(rest_before[mi as int]));
            assert(out.deep_view().to_multiset().add(rest.deep_view().to_multiset())
                =~= all.to_multiset());
            // every element still waiting is at least the one just placed
            assert forall|b: int| 0 <= b < rest.deep_view().len() implies #[trigger] rest
                .deep_view()[b].id.bits >= rest_before[mi as int].id.bits by {
                if b < mi {
                    assert(rest.deep_view()[b] == rest_before[b]);
                } else {
                    assert(rest.deep_view()[b] == rest_before[b + 1]);
                }
            }
            assert(sorted_by_id(out.deep_view()));
        }
    }
    proof {
        assert(rest.deep_view() =~= Seq::<AbsenceRecordView>::empty());
        assert(rest.deep_view().to_multiset() =~= vstd::multiset::Multiset::<AbsenceRecordView>::empty());
        assert(out.deep_view().to_multiset().add(
            vstd::multiset::Multiset::<AbsenceRecordView>::empty(),
        ) =~= out.deep_view().to_multiset());
    }
    out
}

impl JsonDataStore {
    /// Read a date's collection, sorted by identifier. A missing file is the
    /// empty collection, never an error; a present file must decode.
    pub fn get_absence(&self, content: Option<&str>) -> (r: Result<
        Vec<AbsenceRecord>,
        JsonDataStoreError,
    >)
        ensures
            r is Ok <==> spec_stored(spec_content(content)) is Some,
            content is None ==> (r matches Ok(v) && v.deep_view() =~= Seq::<
                AbsenceRecordView,
            >::empty()),
            match r {
                Ok(v) => {
                    &&& sorted_by_id(v.deep_view())
                    &&& v.deep_view().to_multiset() == spec_stored(
                        spec_content(content),
                    ).unwrap().to_multiset()
                    &&& v.deep_view().len() == spec_stored(spec_content(content)).unwrap().len()
                },
                Err(e) => e is Serialization,
            },
    {
        match content {
            None => {
                let v: Vec<AbsenceRecord> = Vec::new();
                proof {
                    assert(v.deep_view() =~= Seq::<AbsenceRecordView>::empty());
                }
                Ok(v)
            },
            Some(text) => match decode_records(text) {
                Ok(recs) => Ok(sort_records(recs)),
                Err(e) => Err(JsonDataStoreError::Serialization(e)),
            },
        }
    }
}

/// The mathematical value of an optional borrowed content string.
pub open spec fn spec_content(content: Option<&str>) -> Option<Seq<char>> {
    match content {
        None => None,
        Some(text) => Some(text@),
    }
}

/// Every record of a collection with one removed, or one replaced, or one
/// pushed, is still printable.
proof fn lemma_remove_id_wf(rvs: Seq<AbsenceRecordView>, id: RecordId)
    requires
        codec_records_wf(rvs),
    ensures
        codec_records_wf(spec_remove_id(rvs, id)),
    decreases rvs.len(),
{
    if rvs.len() > 0 {
        assert(codec_records_wf(rvs.drop_last())) by {
            assert(forall|k: int| 0 <= k < rvs.len() - 1 ==> rvs.drop_last()[k] == rvs[k]);
        }
        lemma_remove_id_wf(rvs.drop_last(), id);
        let pre = spec_remove_id(rvs.drop_last(), id);
        let whole = spec_remove_id(rvs, id);
        assert forall|k: int| 0 <= k < whole.len() implies codec_record_wf(
            #[trigger] whole[k],
        ) by {
            if k < pre.len() {
                assert(whole[k] == pre[k]);
            } else {
                assert(whole[k] == rvs.last());
            }
        }
    }
}

/// A collection whose multiset is a singleton is that one-element sequence.
pub proof fn lemma_singleton_collection(rvs: Seq<AbsenceRecordView>, rv: AbsenceRecordView)
    requires
        rvs.to_multiset() == Multiset::<AbsenceRecordView>::empty().insert(rv),
    ensures
        rvs =~= seq![rv],
{
    assert(rvs.to_multiset().len() == 1);
    assert(rvs.len() == 1);
    assert(rvs.contains(rvs[0]));
    assert(rvs.to_multiset().count(rvs[0]) > 0);
    assert(rvs[0] == rv);
}

/// Adding to a date with no prior writes gives a one-record file: any
/// content `add_absence` can have produced from an empty collection decodes
/// to exactly the record that was added, so reading the date yields it
/// alone.
pub proof fn lemma_add_then_get(record: AbsenceRecordView, out: Seq<char>)
    requires
        spec_decode(out) is Some,
        spec_decode(out).unwrap().to_multiset() == spec_stored(
            None,
        ).unwrap().to_multiset().insert(record),
        sorted_by_id(spec_decode(out).unwrap()),
    ensures
        spec_decode(out).unwrap() =~= seq![record],
{
    assert(spec_stored(None).unwrap() =~= Seq::<AbsenceRecordView>::empty());
    assert(Seq::<AbsenceRecordView>::empty().to_multiset() =~= Multiset::<
        AbsenceRecordView,
    >::empty());
    lemma_singleton_collection(spec_decode(out).unwrap(), record);
}

impl JsonDataStore {
    /// Add a record: load the date's collection, append, re-sort by
    /// identifier, and compute the path and new content of the date's file.
    pub fn add_absence(&self, existing: Option<&str>, record: AbsenceRecord) -> (r: Result<
        (String, String),
        JsonDataStoreError,
    >)
        requires
            codec_record_wf(record@),
        ensures
            r is Ok <==> spec_stored(spec_content(existing)) is Some,
            match r {
                Ok((path, out)) => {
                    &&& path@ == self.spec_file_path(record.date)
                    &&& spec_decode(out@) is Some
                    &&& sorted_by_id(spec_decode(out@).unwrap())
                    &&& spec_decode(out@).unwrap().to_multiset() == spec_stored(
                        spec_content(existing),
                    ).unwrap().to_multiset().insert(record@)
                    &&& spec_decode(out@).unwrap().len() == spec_stored(
                        spec_content(existing),
                    ).unwrap().len() + 1
                },
                Err(e) => e is Serialization,
            },
    {
        let ghost recv = record@;
        let record_date = record.date;
        let mut records: Vec<AbsenceRecord> = match existing {
            None => Vec::new(),
            Some(text) => match decode_records(text) {
                Ok(v) => v,
                Err(e) => {
                    return Err(JsonDataStoreError::Serialization(e));
                },
            },
        };
        proof {
            if existing is None {
                assert(records.deep_view() =~= Seq::<AbsenceRecordView>::empty());
            }
            assert(records.deep_view() == spec_stored(spec_content(existing)).unwrap());
            if existing is Some {
                crate::codec::lemma_decode_wf(existing.unwrap()@);
            }
            assert(codec_records_wf(records.deep_view()));
        }
        let ghost loaded = records.deep_view();
        records.push(record);
        proof {
            assert(records.deep_view() =~= loaded.push(recv));
            assert(loaded.push(recv).to_multiset() =~= loaded.to_multiset().insert(recv));
        }
        let ghost pushed = records.deep_view();
        let sorted = sort_records(records);
        proof {
            assert forall|k: int| 0 <= k < sorted.deep_view().len() implies codec_record_wf(
                #[trigger] sorted.deep_view()[k],
            ) by {
                let x = sorted.deep_view()[k];
                assert(sorted.deep_view().contains(x));
                assert(sorted.deep_view().to_multiset().count(x) > 0);
                assert(pushed.to_multiset().count(x) > 0);
                assert(pushed.contains(x));
                let j = choose|j: int| 0 <= j < pushed.len() && pushed[j] == x;
                if j < loaded.len() {
                    assert(pushed[j] == loaded[j]);
                } else {
                    assert(pushed[j] == recv);
                }
            }
        }
        proof {
            assert forall|q: int| 0 <= q < sorted@.len() implies codec_record_wf(
                #[trigger] sorted@[q]@,
            ) by {
                assert(sorted.deep_view()[q] == sorted@[q]@);
                assert(codec_record_wf(sorted.deep_view()[q]));
            }
        }
        let out = encode_records(&sorted);
        proof {
            crate::codec::lemma_codec_round_trip(sorted.deep_view());
        }
        let path = self.absence_file_path(record_date);
        Ok((path, out))
    }

    /// Remove the records carrying an identifier from a date's collection.
    /// The date's file is deleted once its collection becomes empty; the
    /// returned flag says whether anything was removed, and a miss is not an
    /// error.
    pub fn remove_absence(&self, date: Date, content: Option<&str>, id: RecordId) -> (r: Result<
        (FilePlan, bool),
        JsonDataStoreError,
    >)
        ensures
            r is Ok <==> spec_stored(spec_content(content)) is Some,
            match r {
                Ok((plan, removed)) => {
                    let loaded = spec_stored(spec_content(content)).unwrap();
                    let kept = spec_remove_id(loaded, id);
                    &&& removed == (kept.len() != loaded.len())
                    &&& (kept.len() == 0 ==> plan is Delete)
                    &&& (kept.len() > 0 ==> (plan matches FilePlan::Write(out) && spec_decode(
                        out@,
                    ) == Some(kept)))
                },
                Err(e) => e is Serialization,
            },
    {
        let records: Vec<AbsenceRecord> = match content {
            None => Vec::new(),
            Some(text) => match decode_records(text) {
                Ok(v) => v,
                Err(e) => {
                    return Err(JsonDataStoreError::Serialization(e));
                },
            },
        };
        proof {
            if content is None {
                assert(records.deep_view() =~= Seq::<AbsenceRecordView>::empty());
            }
            assert(records.deep_view() == spec_stored(spec_content(content)).unwrap());
            if content is Some {
                crate::codec::lemma_decode_wf(content.unwrap()@);
            }
            assert(codec_records_wf(records.deep_view()));
        }
        let ghost loaded = records.deep_view();
        let mut kept: Vec<AbsenceRecord> = Vec::new();
        let mut k: usize = 0;
        proof {
            assert(loaded.subrange(0, 0) =~= Seq::<AbsenceRecordView>::empty());
            assert(kept.deep_view() =~= spec_remove_id(loaded.subrange(0, 0), id));
        }
        while k < records.len()
            invariant
                k <= records@.len(),
                loaded == records.deep_view(),
                loaded.len() == records@.len(),
                kept.deep_view() == spec_remove_id(loaded.subrange(0, k as int), id),
            decreases records@.len() - k,
        {
            let ghost prefix = loaded.subrange(0, k as int);
            let ghost kv = kept.deep_view();
            proof {
                assert(loaded.subrange(0, k + 1).drop_last() =~= prefix);
                assert(loaded.subrange(0, k + 1).last() == loaded[k as int]);
            }
            if records[k].id == id {
                proof {
                    assert(spec_remove_id(loaded.subrange(0, k + 1), id) =~= kv);
                }
            } else {
                let rec = records[k].clone();
                kept.push(rec);
                proof {
                    assert(kept.deep_view() =~= kv.push(loaded[k as int]));
                    assert(spec_remove_id(loaded.subrange(0, k + 1), id) =~= kv.push(
                        loaded[k as int],
                    ));
                }
            }
            k += 1;
        }
        proof {
            assert(loaded.subrange(0, loaded.len() as int) =~= loaded);
        }
        let removed = kept.len() != records.len();
        if kept.len() == 0 {
            Ok((FilePlan::Delete, removed))
        } else {
            proof {
                lemma_remove_id_wf(loaded, id);
            assert forall|q: int| 0 <= q < kept@.len() implies codec_record_wf(
                #[trigger] kept@[q]@,
            ) by {
                assert(kept.deep_view()[q] == kept@[q]@);
                assert(codec_record_wf(kept.deep_view()[q]));
            }
            }
            let out = encode_records(&kept);
            proof {
                crate::codec::lemma_codec_round_trip(kept.deep_view());
            }
            Ok((FilePlan::Write(out), removed))
        }
    }

    /// Replace, within a date's collection, the records whose identifier
    /// matches the replacement's, and compute the file's new content. An
    /// unmatched identifier leaves the collection unchanged.
    pub fn update_absence(&self, date: Date, content: Option<&str>, record: AbsenceRecord) -> (r:
        Result<String, JsonDataStoreError>)
        requires
            codec_record_wf(record@),
            record.date == date,
        ensures
            r is Ok <==> spec_stored(spec_content(content)) is Some,
            match r {
                Ok(out) => spec_decode(out@) == Some(
                    spec_replace_id(spec_stored(spec_content(content)).unwrap(), record@),
                ),
                Err(e) => e is Serialization,
            },
    {
        let ghost recv = record@;
        let records: Vec<AbsenceRecord> = match content {
            None => Vec::new(),
            Some(text) => match decode_records(text) {
                Ok(v) => v,
                Err(e) => {
                    return Err(JsonDataStoreError::Serialization(e));
                },
            },
        };
        proof {
            if content is None {
                assert(records.deep_view() =~= Seq::<AbsenceRecordView>::empty());
            }
            assert(records.deep_view() == spec_stored(spec_content(content)).unwrap());
            if content is Some {
                crate::codec::lemma_decode_wf(content.unwrap()@);
            }
            assert(codec_records_wf(records.deep_view()));
        }
        let ghost loaded = records.deep_view();
        let ghost target = spec_replace_id(loaded, recv);
        let mut updated: Vec<AbsenceRecord> = Vec::new();
        let mut k: usize = 0;
        proof {
            assert(updated.deep_view() =~= target.subrange(0, 0));
        }
        while k < records.len()
            invariant
                k <= records@.len(),
                codec_record_wf(recv),
                record@ == recv,
                loaded == records.deep_view(),
                target == spec_replace_id(loaded, recv),
                loaded.len() == records@.len(),
                updated.deep_view() == target.subrange(0, k as int),
            decreases records@.len() - k,
        {
            let ghost uv = updated.deep_view();
            if records[k].id == record.id {
                let rec = record.clone();
                updated.push(rec);
                proof {
                    assert(updated.deep_view() =~= uv.push(recv));
                    assert(target[k as int] == recv);
                    assert(uv.push(recv) =~= target.subrange(0, k + 1));
                }
            } else {
                let rec = records[k].clone();
                updated.push(rec);
                proof {
                    assert(updated.deep_view() =~= uv.push(loaded[k as int]));
                    assert(target[k as int] == loaded[k as int]);
                    assert(uv.push(loaded[k as int]) =~= target.subrange(0, k + 1));
                }
            }
            k += 1;
        }
        proof {
            assert(target.subrange(0, target.len() as int) =~= target);
            assert(updated.deep_view() == target);
            assert forall|q: int| 0 <= q < target.len() implies codec_record_wf(
                #[trigger] target[q],
            ) by {
                if loaded[q].id != recv.id {
                    assert(target[q] == loaded[q]);
                }
            }
        }
        proof {
            assert forall|q: int| 0 <= q < updated@.len() implies codec_record_wf(
                #[trigger] updated@[q]@,
            ) by {
                assert(updated.deep_view()[q] == updated@[q]@);
                assert(codec_record_wf(updated.deep_view()[q]));
            }
        }
        let out = encode_records(&updated);
        proof {
            crate::codec::lemma_codec_round_trip(updated.deep_view());
        }
        Ok(out)
    }
}

} // verus!
