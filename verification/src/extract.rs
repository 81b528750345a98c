//! The data carried by the extract/pack side-car: a header and one entry per
//! stored record with its names, plus the logic that merges side-car entries
//! and assembles an archive pair from named records.

use crate::dgc::{DgcArchive, DgcFile, DgcFileView, MAX_CHUNK_SIZE};
use crate::ngc::{spec_upsert, NgcArchive};
use crate::util::{hash_name, spec_hash_name, str_eq, ChumArchive};
use vstd::multiset::Multiset;
use vstd::prelude::*;
use vstd::string::*;

verus! {

/// One record's entry in the side-car: its names rather than its hashes.
pub struct JsonDataFile {
    pub id: String,
    pub type_id: String,
    pub subtype_id: String,
    pub file_name: String,
}

/// Mathematical model of a side-car entry.
pub struct JsonDataFileView {
    pub id: Seq<char>,
    pub type_id: Seq<char>,
    pub subtype_id: Seq<char>,
    pub file_name: Seq<char>,
}

impl View for JsonDataFile {
    type V = JsonDataFileView;

    open spec fn view(&self) -> JsonDataFileView {
        JsonDataFileView {
            id: self.id@,
            type_id: self.type_id@,
            subtype_id: self.subtype_id@,
            file_name: self.file_name@,
        }
    }
}

/// The side-car as a whole: the archive header and the entries.
pub struct JsonData {
    pub header: String,
    pub files: Vec<JsonDataFile>,
}

/// Mathematical model of a side-car.
pub struct JsonDataView {
    pub header: Seq<char>,
    pub files: Seq<JsonDataFileView>,
}

impl View for JsonData {
    type V = JsonDataView;

    open spec fn view(&self) -> JsonDataView {
        JsonDataView {
            header: self.header@,
            files: self.files@.map_values(|f: JsonDataFile| f@),
        }
    }
}

/// Whether some entry carries the identifier name `name`.
pub open spec fn spec_has_id(files: Seq<JsonDataFileView>, name: Seq<char>) -> bool {
    exists|i: int| 0 <= i < files.len() && (#[trigger] files[i]).id == name
}

/// The entries after merging `b` into `a`: entries of `b` whose identifier
/// name is not yet present, earlier merged entries included, are appended in
/// order.
pub open spec fn spec_merge(
    a: Seq<JsonDataFileView>,
    b: Seq<JsonDataFileView>,
) -> Seq<JsonDataFileView>
    decreases b.len(),
{
    if b.len() == 0 {
        a
    } else {
        let a2 = if spec_has_id(a, b[0].id) {
            a
        } else {
            a.push(b[0])
        };
        spec_merge(a2, b.drop_first())
    }
}

impl JsonData {
    /// Whether some entry carries the identifier name `name`.
    pub fn exists_id(&self, name: &str) -> (r: bool)
        ensures
            r == spec_has_id(self@.files, name@),
    {
        let mut i: usize = 0;
        while i < self.files.len()
            invariant
                0 <= i <= self.files.len(),
                forall|j: int| 0 <= j < i ==> (#[trigger] self@.files[j]).id != name@,
            decreases self.files.len() - i,
        {
            if str_eq(self.files[i].id.as_str(), name) {
                proof {
                    assert(self@.files[i as int].id == name@);
                }
                return true;
            }
            i = i + 1;
        }
        false
    }

    /// Merge another side-car's entries into this one: entries whose
    /// identifier name is not yet present are appended, in order.
    pub fn merge_from(&mut self, other: JsonData)
        ensures
            final(self)@.header == old(self)@.header,
            final(self)@.files == spec_merge(old(self)@.files, other@.files),
    {
        let mut rest = other.files;
        let ghost orig = rest@.map_values(|f: JsonDataFile| f@);
        while rest.len() > 0
            invariant
                self@.header == old(self)@.header,
                spec_merge(old(self)@.files, orig) == spec_merge(
                    self@.files,
                    rest@.map_values(|f: JsonDataFile| f@),
                ),
            decreases rest.len(),
        {
            let ghost pre_files = self@.files;
            let ghost pre_rest = rest@.map_values(|f: JsonDataFile| f@);
            let f = rest.remove(0);
            proof {
                assert(rest@.map_values(|g: JsonDataFile| g@) =~= pre_rest.drop_first());
                assert(f@ == pre_rest[0]);
            }
            if !self.exists_id(f.id.as_str()) {
                let ghost fv = f@;
                self.files.push(f);
                proof {
                    assert(self@.files =~= pre_files.push(fv));
                }
            }
        }
        proof {
            assert(rest@.map_values(|f: JsonDataFile| f@) =~= Seq::<JsonDataFileView>::empty());
        }
    }
}

/// A record together with the three names that identify it.
pub struct NamedFile {
    pub id: String,
    pub type_id: String,
    pub subtype_id: String,
    pub data: Vec<u8>,
}

/// Mathematical model of a named record.
pub struct NamedFileView {
    pub id: Seq<char>,
    pub type_id: Seq<char>,
    pub subtype_id: Seq<char>,
    pub data: Seq<u8>,
}

impl View for NamedFile {
    type V = NamedFileView;

    open spec fn view(&self) -> NamedFileView {
        NamedFileView {
            id: self.id@,
            type_id: self.type_id@,
            subtype_id: self.subtype_id@,
            data: self.data@,
        }
    }
}

/// A one-record sequence carries exactly that record.
proof fn lemma_singleton_multiset(f: DgcFileView)
    ensures
        seq![f].to_multiset() == Multiset::<DgcFileView>::empty().insert(f),
{
    broadcast use vstd::seq_lib::group_to_multiset_ensures;

    let e = Seq::<DgcFileView>::empty();
    assert forall|x: DgcFileView| e.to_multiset().count(x) == 0 by {
        assert(!e.contains(x));
    }
    assert(e.to_multiset() =~= Multiset::<DgcFileView>::empty());
    assert(seq![f] =~= e.push(f));
    assert(e.push(f).to_multiset() =~= e.to_multiset().insert(f));
}

/// The container record a named record becomes: its payload under the three
/// name hashes.
pub open spec fn spec_record_of(f: NamedFileView) -> DgcFileView {
    DgcFileView {
        data: f.data,
        type_id: spec_hash_name(f.type_id),
        id1: spec_hash_name(f.id),
        id2: spec_hash_name(f.subtype_id),
    }
}

/// The identifier table after storing every named record's names under their
/// hashes, in order: first the identifier, then the subtype, then the type.
pub open spec fn spec_names_after(
    ngc: Seq<(i32, Seq<char>)>,
    files: Seq<NamedFileView>,
) -> Seq<(i32, Seq<char>)>
    decreases files.len(),
{
    if files.len() == 0 {
        ngc
    } else {
        let f = files[0];
        spec_names_after(
            spec_upsert(
                spec_upsert(
                    spec_upsert(ngc, spec_hash_name(f.id), f.id),
                    spec_hash_name(f.subtype_id),
                    f.subtype_id,
                ),
                spec_hash_name(f.type_id),
                f.type_id,
            ),
            files.drop_first(),
        )
    }
}

/// Assemble a complete archive from named records: the container receives
/// every record under its name hashes, sized from the largest payload, and
/// the identifier table receives every name under its hash.
pub fn assemble_archive(header: &str, files: Vec<NamedFile>) -> (r: ChumArchive)
    requires
        header.spec_bytes().len() == 256,
        forall|i: int|
            0 <= i < files@.len() ==> (#[trigger] files@[i])@.data.len() + 20 <= MAX_CHUNK_SIZE,
    ensures
        r.dgc@.header == header.spec_bytes(),
        r.dgc@.inv(),
        r.dgc@.records().to_multiset() == files@.map_values(
            |f: NamedFile| spec_record_of(f@),
        ).to_multiset(),
        r.ngc@ == spec_names_after(
            Seq::<(i32, Seq<char>)>::empty(),
            files@.map_values(|f: NamedFile| f@),
        ),
{
    broadcast use vstd::seq_lib::group_to_multiset_ensures;

    let ghost orig = files@.map_values(|f: NamedFile| f@);
    let ghost origrec = files@.map_values(|f: NamedFile| spec_record_of(f@));
    let mut max_size: usize = 0;
    let mut i: usize = 0;
    while i < files.len()
        invariant
            0 <= i <= files@.len(),
            max_size + 20 <= MAX_CHUNK_SIZE,
            max_size == 0 || (exists|j: int|
                0 <= j < i && max_size == (#[trigger] files@[j])@.data.len()),
            forall|j: int|
                0 <= j < files@.len() ==> (#[trigger] files@[j])@.data.len() + 20
                    <= MAX_CHUNK_SIZE,
        decreases files@.len() - i,
    {
        if files[i].data.len() > max_size {
            max_size = files[i].data.len();
        }
        i = i + 1;
    }
    let mut dgc = DgcArchive::new(header, max_size);
    let mut ngc = NgcArchive::new();
    let mut rest = files;
    proof {
        assert(dgc@.records() =~= Seq::<DgcFileView>::empty());
        assert(dgc@.records().to_multiset() =~= Multiset::<DgcFileView>::empty());
        assert(Seq::<DgcFileView>::empty().to_multiset() =~= Multiset::<DgcFileView>::empty());
    }
    while rest.len() > 0
        invariant
            dgc@.inv(),
            dgc@.header == header.spec_bytes(),
            spec_names_after(Seq::<(i32, Seq<char>)>::empty(), orig) == spec_names_after(
                ngc@,
                rest@.map_values(|f: NamedFile| f@),
            ),
            dgc@.records().to_multiset().add(
                rest@.map_values(|f: NamedFile| spec_record_of(f@)).to_multiset(),
            ) == origrec.to_multiset(),
            forall|j: int|
                0 <= j < rest@.len() ==> (#[trigger] rest@[j])@.data.len() + 20 <= MAX_CHUNK_SIZE,
        decreases rest.len(),
    {
        let ghost pre_views = rest@.map_values(|f: NamedFile| f@);
        let ghost pre_recs = rest@.map_values(|f: NamedFile| spec_record_of(f@));
        let ghost pre_ngc = ngc@;
        let ghost pre_dgc_ms = dgc@.records().to_multiset();
        let f = rest.remove(0);
        proof {
            assert(rest@.map_values(|g: NamedFile| g@) =~= pre_views.drop_first());
            assert(rest@.map_values(|g: NamedFile| spec_record_of(g@)) =~= pre_recs.drop_first());
            assert(f@ == pre_views[0]);
            assert(pre_recs =~= seq![spec_record_of(f@)] + pre_recs.drop_first());
            vstd::seq_lib::lemma_multiset_commutative(
                seq![spec_record_of(f@)],
                pre_recs.drop_first(),
            );
            lemma_singleton_multiset(spec_record_of(f@));
        }
        let NamedFile { id, type_id, subtype_id, data } = f;
        let h_id = hash_name(id.as_str());
        let h_sub = hash_name(subtype_id.as_str());
        let h_type = hash_name(type_id.as_str());
        let record = DgcFile { data, type_id: h_type, id1: h_id, id2: h_sub };
        proof {
            assert(record@ == spec_record_of(f@));
        }
        dgc.add_file(record);
        ngc.insert(h_id, id);
        ngc.insert(h_sub, subtype_id);
        ngc.insert(h_type, type_id);
        proof {
            assert(dgc@.records().to_multiset().add(
                rest@.map_values(|g: NamedFile| spec_record_of(g@)).to_multiset(),
            ) =~= origrec.to_multiset());
            assert(spec_names_after(pre_ngc, pre_views) == spec_names_after(
                ngc@,
                pre_views.drop_first(),
            ));
        }
    }
    proof {
        assert(rest@.map_values(|f: NamedFile| f@) =~= Seq::<NamedFileView>::empty());
        assert(rest@.map_values(|f: NamedFile| spec_record_of(f@))
            =~= Seq::<DgcFileView>::empty());
        assert(Seq::<DgcFileView>::empty().to_multiset() =~= Multiset::<DgcFileView>::empty());
        assert(dgc@.records().to_multiset() =~= origrec.to_multiset());
    }
    ChumArchive { dgc, ngc }
}

} // verus!
