//! The editing model of an archive: records carry their names rather than
//! their hashes, under direct exclusive ownership, and can be looked up,
//! replaced and sorted by name.

use crate::dgc::{DgcArchive, DgcFile, DgcFileView, MAX_CHUNK_SIZE};
use crate::ngc::{spec_find_key, spec_upsert, NgcArchive};
use crate::util::{hash_name, lossy_utf8, spec_hash_name, str_eq, utf8_lossy};
use vstd::multiset::Multiset;
use vstd::prelude::*;
use vstd::slice::slice_to_vec;
use vstd::string::*;

verus! {

/// One record with its names in place of its identifiers.
pub struct ArchiveFile {
    pub data: Vec<u8>,
    pub name: String,
    pub typeid: String,
    pub subtypeid: String,
}

/// Mathematical model of a named record.
pub struct ArchiveFileView {
    pub data: Seq<u8>,
    pub name: Seq<char>,
    pub typeid: Seq<char>,
    pub subtypeid: Seq<char>,
}

impl View for ArchiveFile {
    type V = ArchiveFileView;

    open spec fn view(&self) -> ArchiveFileView {
        ArchiveFileView {
            data: self.data@,
            name: self.name@,
            typeid: self.typeid@,
            subtypeid: self.subtypeid@,
        }
    }
}

/// An archive as the editor sees it: named records and the header text.
pub struct Archive {
    pub files: Vec<ArchiveFile>,
    pub header: String,
}

impl View for Archive {
    type V = Seq<ArchiveFileView>;

    open spec fn view(&self) -> Seq<ArchiveFileView> {
        self.files@.map_values(|f: ArchiveFile| f@)
    }
}

/// Index of the first record carrying `name`.
pub open spec fn spec_find_name(files: Seq<ArchiveFileView>, name: Seq<char>) -> Option<int>
    decreases files.len(),
{
    if files.len() == 0 {
        None
    } else if files[0].name == name {
        Some(0int)
    } else {
        match spec_find_name(files.drop_first(), name) {
            Some(i) => Some(i + 1),
            None => None,
        }
    }
}

/// If no record before `i` carries `name`, the search resolves at `i` when
/// record `i` carries it, and finds nothing when `i` passes the end.
proof fn lemma_find_name_prefix(files: Seq<ArchiveFileView>, name: Seq<char>, i: int)
    requires
        0 <= i <= files.len(),
        forall|j: int| 0 <= j < i ==> (#[trigger] files[j]).name != name,
    ensures
        i < files.len() && files[i].name == name ==> spec_find_name(files, name) == Some(i),
        i == files.len() ==> spec_find_name(files, name) is None,
    decreases i,
{
    if i > 0 {
        let rest = files.drop_first();
        assert(forall|j: int| 0 <= j < i - 1 ==> (#[trigger] rest[j]).name != name) by {
            assert(forall|j: int| 0 <= j < i - 1 ==> rest[j] == files[j + 1]);
        }
        lemma_find_name_prefix(rest, name, i - 1);
        if i < files.len() {
            assert(rest[i - 1] == files[i]);
        }
    }
}

impl Archive {
    /// Return true if a record with the given name exists.
    pub fn exists_file(&self, name: &str) -> (r: bool)
        ensures
            r == (spec_find_name(self@, name@) is Some),
    {
        self.find(name).is_some()
    }

    /// Find the record with the given name.
    pub fn find(&self, name: &str) -> (r: Option<usize>)
        ensures
            match r {
                Some(i) => spec_find_name(self@, name@) == Some(i as int) && i < self@.len(),
                None => spec_find_name(self@, name@) is None,
            },
    {
        let ghost files = self@;
        let n = self.files.len();
        let mut i: usize = 0;
        while i < n
            invariant
                0 <= i <= n,
                n == self.files.len(),
                files == self@,
                forall|j: int| 0 <= j < i ==> (#[trigger] files[j]).name != name@,
            decreases n - i,
        {
            if str_eq(self.files[i].name.as_str(), name) {
                proof {
                    lemma_find_name_prefix(files, name@, i as int);
                }
                return Some(i);
            }
            i = i + 1;
        }
        proof {
            lemma_find_name_prefix(files, name@, n as int);
        }
        None
    }

    /// Add the record to this archive: a record already carrying the same
    /// name is replaced and returned; otherwise the record is appended.
    pub fn add(&mut self, file: ArchiveFile) -> (r: Option<ArchiveFile>)
        ensures
            match spec_find_name(old(self)@, file@.name) {
                Some(i) => final(self)@ == old(self)@.update(i, file@) && (r matches Some(prev)
                    && prev@ == old(self)@[i]),
                None => final(self)@ == old(self)@.push(file@) && r is None,
            },
    {
        let ghost files = old(self)@;
        let ghost fv = file@;
        match self.find(file.name.as_str()) {
            Some(i) => {
                let prev = self.files.remove(i);
                self.files.insert(i, file);
                proof {
                    assert(self@ =~= files.update(i as int, fv));
                }
                Some(prev)
            },
            None => {
                self.files.push(file);
                proof {
                    assert(self@ =~= files.push(fv));
                }
                None
            },
        }
    }
}

/// The name stored in the table under `id`, when any is.
pub open spec fn spec_lookup(ngc: Seq<(i32, Seq<char>)>, id: i32) -> Option<Seq<char>> {
    match spec_find_key(ngc, id) {
        Some(i) => Some(ngc[i].1),
        None => None,
    }
}

/// Whether the table names every identifier the records carry.
pub open spec fn spec_names_present(
    records: Seq<DgcFileView>,
    ngc: Seq<(i32, Seq<char>)>,
) -> bool {
    forall|k: int|
        0 <= k < records.len() ==> {
            &&& spec_lookup(ngc, (#[trigger] records[k]).id1) is Some
            &&& spec_lookup(ngc, records[k].id2) is Some
            &&& spec_lookup(ngc, records[k].type_id) is Some
        }
}

/// The editing view of one container record: its identifiers looked up in
/// the table; a record whose subtype name equals its own name shows an empty
/// subtype.
pub open spec fn spec_entry_of(f: DgcFileView, ngc: Seq<(i32, Seq<char>)>) -> ArchiveFileView {
    let name = spec_lookup(ngc, f.id1).unwrap();
    let sub = spec_lookup(ngc, f.id2).unwrap();
    ArchiveFileView {
        data: f.data,
        name: name,
        typeid: spec_lookup(ngc, f.type_id).unwrap(),
        subtypeid: if sub == name {
            Seq::<char>::empty()
        } else {
            sub
        },
    }
}

impl Archive {
    /// Create an editing archive from a container and its identifier table:
    /// every record appears with the names its identifiers map to, in chunk
    /// order, and the header blob becomes text. A container whose records
    /// carry an identifier the table does not name cannot be edited.
    pub fn from_archives(data: DgcArchive, names: NgcArchive) -> (r: Option<Archive>)
        ensures
            match r {
                Some(a) => spec_names_present(data@.records(), names@) && a.header@ == lossy_utf8(
                    data@.header,
                ) && a@ == data@.records().map_values(
                    |f: DgcFileView| spec_entry_of(f, names@),
                ),
                None => !spec_names_present(data@.records(), names@),
            },
    {
        let header = utf8_lossy(data.header.legal_notice.as_slice());
        let mut files: Vec<ArchiveFile> = Vec::new();
        let ghost entry_of = |f: DgcFileView| spec_entry_of(f, names@);
        let mut i: usize = 0;
        while i < data.data.len()
            invariant
                0 <= i <= data.data.len(),
                files@.map_values(|f: ArchiveFile| f@) == data@.chunks.take(i as int).flatten().map_values(
                    |f: DgcFileView| spec_entry_of(f, names@),
                ),
                spec_names_present(data@.chunks.take(i as int).flatten(), names@),
            decreases data.data.len() - i,
        {
            let chunk = &data.data[i];
            let ghost prefix = data@.chunks.take(i as int).flatten();
            let mut j: usize = 0;
            while j < chunk.data.len()
                invariant
                    0 <= j <= chunk.data.len(),
                    0 <= i < data.data.len(),
                    chunk == &data.data[i as int],
                    prefix == data@.chunks.take(i as int).flatten(),
                    files@.map_values(|f: ArchiveFile| f@) == (prefix + data@.chunks[i as int].take(
                        j as int,
                    )).map_values(|f: DgcFileView| spec_entry_of(f, names@)),
                    spec_names_present(prefix + data@.chunks[i as int].take(j as int), names@),
                decreases chunk.data.len() - j,
            {
                let f = &chunk.data[j];
                let ghost fv = f@;
                let ghost processed = prefix + data@.chunks[i as int].take(j as int);
                proof {
                    assert(fv == data@.chunks[i as int][j as int]);
                }
                let name = match names.get(f.id1) {
                    Some(s) => s.clone(),
                    None => {
                        proof {
                            lemma_missing_name(data@, names@, i as int, j as int);
                        }
                        return None;
                    },
                };
                let sub = match names.get(f.id2) {
                    Some(s) => s.clone(),
                    None => {
                        proof {
                            lemma_missing_name(data@, names@, i as int, j as int);
                        }
                        return None;
                    },
                };
                let typeid = match names.get(f.type_id) {
                    Some(s) => s.clone(),
                    None => {
                        proof {
                            lemma_missing_name(data@, names@, i as int, j as int);
                        }
                        return None;
                    },
                };
                let subtypeid = if str_eq(name.as_str(), sub.as_str()) {
                    String::new()
                } else {
                    sub
                };
                let entry = ArchiveFile {
                    data: slice_to_vec(f.data.as_slice()),
                    name,
                    typeid,
                    subtypeid,
                };
                proof {
                    assert(entry@ == spec_entry_of(fv, names@));
                }
                let ghost files_pre = files@.map_values(|g: ArchiveFile| g@);
                files.push(entry);
                proof {
                    assert(data@.chunks[i as int].take(j as int + 1) =~= data@.chunks[i as int].take(
                        j as int,
                    ).push(fv));
                    assert(processed.push(fv) =~= prefix + data@.chunks[i as int].take(
                        j as int + 1,
                    ));
                    assert(files@.map_values(|g: ArchiveFile| g@) =~= files_pre.push(entry@));
                    processed.lemma_push_map_commute(
                        |g: DgcFileView| spec_entry_of(g, names@),
                        fv,
                    );
                    assert(files@.map_values(|g: ArchiveFile| g@) =~= (prefix
                        + data@.chunks[i as int].take(j as int + 1)).map_values(
                        |g: DgcFileView| spec_entry_of(g, names@),
                    ));
                    assert forall|k: int|
                        0 <= k < processed.push(fv).len() implies {
                        &&& spec_lookup(names@, (#[trigger] processed.push(fv)[k]).id1) is Some
                        &&& spec_lookup(names@, processed.push(fv)[k].id2) is Some
                        &&& spec_lookup(names@, processed.push(fv)[k].type_id) is Some
                    } by {
                        if k < processed.len() {
                            assert(processed.push(fv)[k] == processed[k]);
                        } else {
                            assert(processed.push(fv)[k] == fv);
                        }
                    }
                }
                j = j + 1;
            }
            proof {
                assert(data@.chunks[i as int].take(chunk.data.len() as int) =~= data@.chunks[i as int]);
                assert(data@.chunks.take(i as int + 1) =~= data@.chunks.take(i as int).push(
                    data@.chunks[i as int],
                ));
                data@.chunks.take(i as int).lemma_flatten_push(data@.chunks[i as int]);
                assert(prefix + data@.chunks[i as int] =~= data@.chunks.take(i as int + 1).flatten());
            }
            i = i + 1;
        }
        proof {
            assert(data@.chunks.take(data.data.len() as int) =~= data@.chunks);
        }
        Some(Archive { files, header })
    }
}

/// The container record an edited record becomes: its payload under its name
/// hashes; a record with an empty subtype reuses its own name's hash.
pub open spec fn spec_editor_record(f: ArchiveFileView) -> DgcFileView {
    let id1 = spec_hash_name(f.name);
    DgcFileView {
        data: f.data,
        type_id: spec_hash_name(f.typeid),
        id1: id1,
        id2: if f.subtypeid.len() == 0 {
            id1
        } else {
            spec_hash_name(f.subtypeid)
        },
    }
}

/// The identifier table after storing every edited record's names under
/// their hashes: the record's name, then its subtype name (its own name when
/// the subtype is empty), then its type name.
pub open spec fn spec_editor_names(
    ngc: Seq<(i32, Seq<char>)>,
    files: Seq<ArchiveFileView>,
) -> Seq<(i32, Seq<char>)>
    decreases files.len(),
{
    if files.len() == 0 {
        ngc
    } else {
        let f = files[0];
        let id1 = spec_hash_name(f.name);
        let id2 = if f.subtypeid.len() == 0 {
            id1
        } else {
            spec_hash_name(f.subtypeid)
        };
        let sub_name = if f.subtypeid.len() == 0 {
            f.name
        } else {
            f.subtypeid
        };
        spec_editor_names(
            spec_upsert(
                spec_upsert(spec_upsert(ngc, id1, f.name), id2, sub_name),
                spec_hash_name(f.typeid),
                f.typeid,
            ),
            files.drop_first(),
        )
    }
}

impl Archive {
    /// Create a container and identifier table from this archive: every
    /// record goes in under its name hashes, and the table receives every
    /// name under its hash. The container starts from the smallest chunk
    /// size and grows as records demand.
    pub fn into_archives(&self) -> (r: (DgcArchive, NgcArchive))
        requires
            vstd::utf8::encode_utf8(self.header@).len() == 256,
            forall|i: int| 0 <= i < self@.len() ==> (#[trigger] self@[i]).data.len() + 20
                <= MAX_CHUNK_SIZE,
        ensures
            r.0@.header == vstd::utf8::encode_utf8(self.header@),
            r.0@.inv(),
            r.0@.records().to_multiset() == self@.map_values(
                |f: ArchiveFileView| spec_editor_record(f),
            ).to_multiset(),
            r.1@ == spec_editor_names(Seq::<(i32, Seq<char>)>::empty(), self@),
    {
        broadcast use vstd::seq_lib::group_to_multiset_ensures;

        let mut dgc = DgcArchive::new(self.header.as_str(), 0);
        let mut ngc = NgcArchive::new();
        let ghost recs = self@.map_values(|f: ArchiveFileView| spec_editor_record(f));
        proof {
            assert(dgc@.records() =~= Seq::<DgcFileView>::empty());
            assert forall|x: DgcFileView|
                Seq::<DgcFileView>::empty().to_multiset().count(x) == 0 by {
                assert(!Seq::<DgcFileView>::empty().contains(x));
            }
            assert(Seq::<DgcFileView>::empty().to_multiset() =~= Multiset::<DgcFileView>::empty());
            assert(recs.take(0) =~= Seq::<DgcFileView>::empty());
            assert(self@.skip(0) =~= self@);
        }
        let n = self.files.len();
        let mut i: usize = 0;
        while i < n
            invariant
                0 <= i <= n,
                n == self@.len(),
                recs == self@.map_values(|f: ArchiveFileView| spec_editor_record(f)),
                forall|k: int| 0 <= k < self@.len() ==> (#[trigger] self@[k]).data.len() + 20
                    <= MAX_CHUNK_SIZE,
                dgc@.inv(),
                dgc@.header == vstd::utf8::encode_utf8(self.header@),
                dgc@.records().to_multiset() == recs.take(i as int).to_multiset(),
                spec_editor_names(Seq::<(i32, Seq<char>)>::empty(), self@) == spec_editor_names(
                    ngc@,
                    self@.skip(i as int),
                ),
            decreases n - i,
        {
            let f = &self.files[i];
            let ghost fv = f@;
            proof {
                assert(fv == self@[i as int]);
                assert(self@.skip(i as int)[0] == fv);
                assert(self@.skip(i as int).drop_first() =~= self@.skip(i as int + 1));
            }
            let id1 = hash_name(f.name.as_str());
            let (id2, subtypeid): (i32, String) = if f.subtypeid.as_str().is_empty() {
                (id1, f.name.clone())
            } else {
                (hash_name(f.subtypeid.as_str()), f.subtypeid.clone())
            };
            let type_id = hash_name(f.typeid.as_str());
            let record = DgcFile {
                data: slice_to_vec(f.data.as_slice()),
                type_id,
                id1,
                id2,
            };
            proof {
                assert(record@ == spec_editor_record(fv));
            }
            let ghost dgc_ms = dgc@.records().to_multiset();
            dgc.add_file(record);
            ngc.insert(id1, f.name.clone());
            ngc.insert(id2, subtypeid);
            ngc.insert(type_id, f.typeid.clone());
            proof {
                assert(recs.take(i as int + 1) =~= recs.take(i as int).push(
                    spec_editor_record(fv),
                ));
                recs.take(i as int).to_multiset_ensures();
                assert(recs.take(i as int).push(spec_editor_record(fv)).to_multiset()
                    =~= recs.take(i as int).to_multiset().insert(spec_editor_record(fv)));
                assert(dgc@.records().to_multiset() =~= recs.take(i as int + 1).to_multiset());
            }
            i = i + 1;
        }
        proof {
            assert(recs.take(n as int) =~= recs);
            assert(self@.skip(n as int) =~= Seq::<ArchiveFileView>::empty());
        }
        (dgc, ngc)
    }
}

/// A record whose identifiers the table does not fully name leaves the whole
/// container unnamed.
proof fn lemma_missing_name(
    a: crate::dgc::DgcArchiveView,
    ngc: Seq<(i32, Seq<char>)>,
    i: int,
    j: int,
)
    requires
        0 <= i < a.chunks.len(),
        0 <= j < a.chunks[i].len(),
        !({
            &&& spec_lookup(ngc, a.chunks[i][j].id1) is Some
            &&& spec_lookup(ngc, a.chunks[i][j].id2) is Some
            &&& spec_lookup(ngc, a.chunks[i][j].type_id) is Some
        }),
    ensures
        !spec_names_present(a.records(), ngc),
{
    let pre = a.chunks.take(i);
    let post = a.chunks.skip(i + 1);
    assert(a.chunks =~= pre + seq![a.chunks[i]] + post);
    vstd::seq_lib::lemma_flatten_concat(pre + seq![a.chunks[i]], post);
    vstd::seq_lib::lemma_flatten_concat(pre, seq![a.chunks[i]]);
    seq![a.chunks[i]].lemma_flatten_singleton();
    assert(a.records() == pre.flatten() + a.chunks[i] + post.flatten());
    let k = pre.flatten().len() + j;
    assert(a.records()[k] == a.chunks[i][j]);
}

/// Lexicographic order on character sequences, by code point: the order
/// `str` comparison gives, since UTF-8 preserves code-point order.
pub open spec fn lex_le(a: Seq<char>, b: Seq<char>) -> bool
    decreases a.len(),
{
    if a.len() == 0 {
        true
    } else if b.len() == 0 {
        false
    } else if (a[0] as int) < (b[0] as int) {
        true
    } else if (a[0] as int) > (b[0] as int) {
        false
    } else {
        lex_le(a.drop_first(), b.drop_first())
    }
}

/// Two sequences each at most the other are equal.
pub proof fn lemma_lex_antisymmetric(a: Seq<char>, b: Seq<char>)
    requires
        lex_le(a, b),
        lex_le(b, a),
    ensures
        a == b,
    decreases a.len(),
{
    if a.len() == 0 {
        assert(b.len() == 0);
        assert(a =~= b);
    } else {
        assert(a[0] == b[0]);
        lemma_lex_antisymmetric(a.drop_first(), b.drop_first());
        assert(a =~= seq![a[0]] + a.drop_first());
        assert(b =~= seq![b[0]] + b.drop_first());
    }
}

/// One of any two sequences comes first.
pub proof fn lemma_lex_total(a: Seq<char>, b: Seq<char>)
    ensures
        lex_le(a, b) || lex_le(b, a),
    decreases a.len(),
{
    if a.len() > 0 && b.len() > 0 && (a[0] as int) == (b[0] as int) {
        lemma_lex_total(a.drop_first(), b.drop_first());
    }
}

/// The lexicographic order is transitive.
pub proof fn lemma_lex_transitive(a: Seq<char>, b: Seq<char>, c: Seq<char>)
    requires
        lex_le(a, b),
        lex_le(b, c),
    ensures
        lex_le(a, c),
    decreases a.len(),
{
    if a.len() > 0 && b.len() > 0 && c.len() > 0 {
        if (a[0] as int) == (b[0] as int) && (b[0] as int) == (c[0] as int) {
            lemma_lex_transitive(a.drop_first(), b.drop_first(), c.drop_first());
        }
    }
}

/// A shared prefix does not decide the lexicographic order.
proof fn lemma_lex_skip(a: Seq<char>, b: Seq<char>, i: int)
    requires
        0 <= i <= a.len(),
        i <= b.len(),
        forall|j: int| 0 <= j < i ==> a[j] == b[j],
    ensures
        lex_le(a, b) == lex_le(a.skip(i), b.skip(i)),
    decreases i,
{
    if i > 0 {
        assert(a.len() > 0 && b.len() > 0);
        assert((a[0] as int) == (b[0] as int));
        assert(forall|j: int| 0 <= j < i - 1 ==> a.drop_first()[j] == b.drop_first()[j]);
        lemma_lex_skip(a.drop_first(), b.drop_first(), i - 1);
        assert(a.drop_first().skip(i - 1) =~= a.skip(i));
        assert(b.drop_first().skip(i - 1) =~= b.skip(i));
    } else {
        assert(a.skip(0) =~= a);
        assert(b.skip(0) =~= b);
    }
}

/// Whether `a` comes at or before `b` in lexicographic order.
pub fn str_le(a: &str, b: &str) -> (r: bool)
    ensures
        r == lex_le(a@, b@),
{
    let alen = a.unicode_len();
    let blen = b.unicode_len();
    let mut i: usize = 0;
    loop
        invariant
            0 <= i <= alen,
            i <= blen,
            alen == a@.len(),
            blen == b@.len(),
            forall|j: int| 0 <= j < i ==> a@[j] == b@[j],
        decreases alen - i,
    {
        proof {
            lemma_lex_skip(a@, b@, i as int);
        }
        if i == alen {
            return true;
        }
        if i == blen {
            return false;
        }
        let ca = a.get_char(i);
        let cb = b.get_char(i);
        proof {
            assert((ca as u32) as int == ca as int);
            assert((cb as u32) as int == cb as int);
            assert(a@.skip(i as int)[0] == a@[i as int]);
            assert(b@.skip(i as int)[0] == b@[i as int]);
        }
        if (ca as u32) < (cb as u32) {
            return true;
        }
        if (ca as u32) > (cb as u32) {
            return false;
        }
        proof {
            assert((a@[i as int] as int) == (b@[i as int] as int));
            assert(a@[i as int] == b@[i as int]);
        }
        i = i + 1;
    }
}

/// The order the editor lists records in: by type name, then by subtype
/// name, then by record name.
pub open spec fn spec_file_le(x: ArchiveFileView, y: ArchiveFileView) -> bool {
    if x.typeid != y.typeid {
        lex_le(x.typeid, y.typeid)
    } else if x.subtypeid != y.subtypeid {
        lex_le(x.subtypeid, y.subtypeid)
    } else {
        lex_le(x.name, y.name)
    }
}

/// One of any two records comes first in the listing order.
pub proof fn lemma_file_le_total(x: ArchiveFileView, y: ArchiveFileView)
    ensures
        spec_file_le(x, y) || spec_file_le(y, x),
{
    lemma_lex_total(x.typeid, y.typeid);
    lemma_lex_total(x.subtypeid, y.subtypeid);
    lemma_lex_total(x.name, y.name);
}

/// The listing order is transitive.
pub proof fn lemma_file_le_transitive(x: ArchiveFileView, y: ArchiveFileView, z: ArchiveFileView)
    requires
        spec_file_le(x, y),
        spec_file_le(y, z),
    ensures
        spec_file_le(x, z),
{
    lemma_lex_total(x.typeid, y.typeid);
    lemma_lex_total(y.typeid, z.typeid);
    if x.typeid == y.typeid {
    } else if y.typeid == z.typeid {
    } else {
        // both steps move strictly in the type name
        lemma_lex_transitive(x.typeid, y.typeid, z.typeid);
        if x.typeid == z.typeid {
            // then the two type names bound each other and must be equal
            lemma_lex_antisymmetric(x.typeid, y.typeid);
        }
    }
    if x.typeid == y.typeid && y.typeid == z.typeid {
        lemma_lex_total(x.subtypeid, y.subtypeid);
        lemma_lex_total(y.subtypeid, z.subtypeid);
        if x.subtypeid == y.subtypeid {
        } else if y.subtypeid == z.subtypeid {
        } else {
            lemma_lex_transitive(x.subtypeid, y.subtypeid, z.subtypeid);
            if x.subtypeid == z.subtypeid {
                lemma_lex_antisymmetric(x.subtypeid, y.subtypeid);
            }
        }
        if x.subtypeid == y.subtypeid && y.subtypeid == z.subtypeid {
            lemma_lex_transitive(x.name, y.name, z.name);
        }
    }
}

/// Records in listing order, each at or before the next.
pub open spec fn spec_sorted(files: Seq<ArchiveFileView>) -> bool {
    forall|i: int|
        0 <= i < files.len() - 1 ==> spec_file_le(#[trigger] files[i], files[i + 1])
}

/// Listing order holds across any distance in a sorted sequence.
pub proof fn lemma_sorted_global(files: Seq<ArchiveFileView>, i: int, j: int)
    requires
        spec_sorted(files),
        0 <= i <= j < files.len(),
    ensures
        spec_file_le(files[i], files[j]),
    decreases j - i,
{
    if i < j {
        lemma_sorted_global(files, i + 1, j);
        if i + 1 < j {
            lemma_file_le_transitive(files[i], files[i + 1], files[j]);
        }
    } else {
        lemma_file_le_total(files[i], files[i]);
    }
}

/// Whether `x` comes at or before `y` in the listing order.
fn file_le(x: &ArchiveFile, y: &ArchiveFile) -> (r: bool)
    ensures
        r == spec_file_le(x@, y@),
{
    if !str_eq(x.typeid.as_str(), y.typeid.as_str()) {
        str_le(x.typeid.as_str(), y.typeid.as_str())
    } else if !str_eq(x.subtypeid.as_str(), y.subtypeid.as_str()) {
        str_le(x.subtypeid.as_str(), y.subtypeid.as_str())
    } else {
        str_le(x.name.as_str(), y.name.as_str())
    }
}

/// Index of the first record that must come after `f` in the listing order,
/// or the length when every record may come before it.
fn insert_position(files: &Vec<ArchiveFile>, f: &ArchiveFile) -> (p: usize)
    ensures
        0 <= p <= files@.len(),
        forall|j: int|
            0 <= j < p ==> spec_file_le((#[trigger] files@[j])@, f@),
        p < files@.len() ==> !spec_file_le(files@[p as int]@, f@),
{
    let n = files.len();
    let mut p: usize = 0;
    while p < n
        invariant
            0 <= p <= n,
            n == files@.len(),
            forall|j: int| 0 <= j < p ==> spec_file_le((#[trigger] files@[j])@, f@),
        decreases n - p,
    {
        if !file_le(&files[p], f) {
            return p;
        }
        p = p + 1;
    }
    p
}

impl Archive {
    /// Sort all of the records in this archive into the listing order: by
    /// type name, subtype name, then record name. No record is gained or
    /// lost.
    pub fn sort_files(&mut self)
        ensures
            final(self).header@ == old(self).header@,
            spec_sorted(final(self)@),
            forall|i: int, j: int|
                0 <= i <= j < final(self)@.len() ==> spec_file_le(
                    #[trigger] final(self)@[i],
                    #[trigger] final(self)@[j],
                ),
            final(self)@.to_multiset() == old(self)@.to_multiset(),
    {
        broadcast use vstd::seq_lib::group_to_multiset_ensures;

        let mut rest = std::vec::Vec::new();
        std::mem::swap(&mut rest, &mut self.files);
        proof {
            assert(self@ =~= Seq::<ArchiveFileView>::empty());
        }
        let ghost orig = rest@.map_values(|f: ArchiveFile| f@);
        while rest.len() > 0
            invariant
                self.header@ == old(self).header@,
                spec_sorted(self@),
                self@.to_multiset().add(rest@.map_values(|f: ArchiveFile| f@).to_multiset())
                    == orig.to_multiset(),
            decreases rest.len(),
        {
            let ghost pre_sorted = self@;
            let ghost pre_rest = rest@.map_values(|f: ArchiveFile| f@);
            let f = rest.remove(0);
            let ghost fv = f@;
            proof {
                assert(rest@.map_values(|g: ArchiveFile| g@) =~= pre_rest.drop_first());
                assert(fv == pre_rest[0]);
                pre_rest.to_multiset_ensures();
                assert(pre_rest.remove(0).to_multiset() =~= pre_rest.to_multiset().remove(
                    pre_rest[0],
                ));
                assert(pre_rest.drop_first() =~= pre_rest.remove(0));
            }
            // insert before the first record that must come after it
            let p = insert_position(&self.files, &f);
            proof {
                if (p as int) < pre_sorted.len() {
                    lemma_file_le_total(pre_sorted[p as int], fv);
                }
            }
            self.files.insert(p, f);
            proof {
                assert(self@ =~= pre_sorted.insert(p as int, fv));
                assert(self@.to_multiset() =~= pre_sorted.to_multiset().insert(fv)) by {
                    assert(self@ =~= pre_sorted.subrange(0, p as int) + (seq![fv]
                        + pre_sorted.subrange(p as int, pre_sorted.len() as int)));
                    vstd::seq_lib::lemma_multiset_commutative(
                        pre_sorted.subrange(0, p as int),
                        seq![fv] + pre_sorted.subrange(p as int, pre_sorted.len() as int),
                    );
                    vstd::seq_lib::lemma_multiset_commutative(
                        seq![fv],
                        pre_sorted.subrange(p as int, pre_sorted.len() as int),
                    );
                    vstd::seq_lib::lemma_multiset_commutative(
                        pre_sorted.subrange(0, p as int),
                        pre_sorted.subrange(p as int, pre_sorted.len() as int),
                    );
                    assert(pre_sorted =~= pre_sorted.subrange(0, p as int) + pre_sorted.subrange(
                        p as int,
                        pre_sorted.len() as int,
                    ));
                    seq![fv].to_multiset_ensures();
                    assert(seq![fv] =~= Seq::<ArchiveFileView>::empty().push(fv));
                    Seq::<ArchiveFileView>::empty().to_multiset_ensures();
                    assert forall|x: ArchiveFileView|
                        Seq::<ArchiveFileView>::empty().to_multiset().count(x) == 0 by {
                        assert(!Seq::<ArchiveFileView>::empty().contains(x));
                    }
                    assert(Seq::<ArchiveFileView>::empty().to_multiset()
                        =~= Multiset::<ArchiveFileView>::empty());
                }
                assert forall|j: int|
                    0 <= j < self@.len() - 1 implies spec_file_le(
                    #[trigger] self@[j],
                    self@[j + 1],
                ) by {
                    if j + 1 < p as int {
                        assert(self@[j] == pre_sorted[j] && self@[j + 1] == pre_sorted[j + 1]);
                    } else if j + 1 == p as int {
                        assert(self@[j] == pre_sorted[j] && self@[j + 1] == fv);
                    } else if j == p as int {
                        assert(self@[j] == fv && self@[j + 1] == pre_sorted[j]);
                    } else {
                        assert(self@[j] == pre_sorted[j - 1] && self@[j + 1] == pre_sorted[j]);
                    }
                }
            }
        }
        proof {
            assert(rest@.map_values(|f: ArchiveFile| f@) =~= Seq::<ArchiveFileView>::empty());
            assert forall|x: ArchiveFileView|
                Seq::<ArchiveFileView>::empty().to_multiset().count(x) == 0 by {
                assert(!Seq::<ArchiveFileView>::empty().contains(x));
            }
            assert(Seq::<ArchiveFileView>::empty().to_multiset()
                =~= Multiset::<ArchiveFileView>::empty());
            assert(self@.to_multiset() =~= orig.to_multiset());
            assert(orig == old(self)@);
            assert forall|i: int, j: int| 0 <= i <= j < self@.len() implies spec_file_le(
                #[trigger] self@[i],
                #[trigger] self@[j],
            ) by {
                lemma_sorted_global(self@, i, j);
            }
        }
    }
}

} // verus!
