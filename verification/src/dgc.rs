//! The container data model: records, chunks and archives, together with the
//! allocation algorithm that distributes records across fixed-size chunks.

use vstd::multiset::Multiset;
use vstd::prelude::*;
use vstd::string::*;

verus! {

/// Chunk sizes are always a multiple of this alignment.
pub const CHUNK_ALIGN: usize = 0x800;

/// The largest chunk size the format can carry: the greatest multiple of the
/// alignment that fits in the 32-bit size field of the container header.
pub const MAX_CHUNK_SIZE: usize = 0xFFFF_F800;

/// Header of an archive: an opaque 256-byte blob carried through unchanged.
pub struct DgcHeader {
    pub legal_notice: Vec<u8>,
}

/// One stored record: a data blob plus three opaque 32-bit identifiers.
pub struct DgcFile {
    pub data: Vec<u8>,
    pub type_id: i32,
    pub id1: i32,
    pub id2: i32,
}

/// Mathematical model of a record.
pub struct DgcFileView {
    pub data: Seq<u8>,
    pub type_id: i32,
    pub id1: i32,
    pub id2: i32,
}

impl View for DgcFile {
    type V = DgcFileView;

    open spec fn view(&self) -> DgcFileView {
        DgcFileView { data: self.data@, type_id: self.type_id, id1: self.id1, id2: self.id2 }
    }
}

/// Encoded size of a record: its payload plus the 16-byte record header
/// (one 32-bit size field and three 32-bit identifiers).
pub open spec fn spec_file_size(f: DgcFileView) -> int {
    f.data.len() as int + 16
}

/// A record small enough that it and its headers fit in a chunk of the
/// largest representable size.
pub open spec fn file_bounded(f: DgcFileView) -> bool {
    spec_file_size(f) + 4 <= MAX_CHUNK_SIZE
}

impl DgcFile {
    /// The total encoded size of this record, including its header fields.
    pub fn get_size(&self) -> (size: usize)
        requires
            self@.data.len() + 16 <= usize::MAX,
        ensures
            size == spec_file_size(self@),
    {
        self.data.len() + 16
    }
}

/// An ordered collection of records; one fixed-size segment of the container.
pub struct DgcChunk {
    pub data: Vec<DgcFile>,
}

impl View for DgcChunk {
    type V = Seq<DgcFileView>;

    open spec fn view(&self) -> Seq<DgcFileView> {
        self.data@.map_values(|f: DgcFile| f@)
    }
}

/// Encoded size of a chunk: a 4-byte record count followed by the records.
pub open spec fn spec_chunk_size(c: Seq<DgcFileView>) -> int
    decreases c.len(),
{
    if c.len() == 0 {
        4
    } else {
        spec_chunk_size(c.drop_last()) + spec_file_size(c.last())
    }
}

/// Appending a record grows a chunk's encoded size by the record's size.
pub proof fn lemma_chunk_size_push(c: Seq<DgcFileView>, f: DgcFileView)
    ensures
        spec_chunk_size(c.push(f)) == spec_chunk_size(c) + spec_file_size(f),
{
    assert(c.push(f).drop_last() =~= c);
}

/// A chunk's encoded size is at least its 4-byte record count.
pub proof fn lemma_chunk_size_at_least_4(c: Seq<DgcFileView>)
    ensures
        spec_chunk_size(c) >= 4,
        c.len() > 0 ==> spec_chunk_size(c) >= 4 + spec_file_size(c.last()),
    decreases c.len(),
{
    if c.len() > 0 {
        lemma_chunk_size_at_least_4(c.drop_last());
    }
}

/// Every record of a chunk contributes its encoded size to the chunk's.
pub proof fn lemma_chunk_size_member(c: Seq<DgcFileView>, i: int)
    requires
        0 <= i < c.len(),
    ensures
        spec_chunk_size(c) >= 4 + spec_file_size(c[i]),
    decreases c.len(),
{
    if i == c.len() - 1 {
        lemma_chunk_size_at_least_4(c);
    } else {
        lemma_chunk_size_member(c.drop_last(), i);
        lemma_chunk_size_at_least_4(c.drop_last());
    }
}

impl DgcChunk {
    /// Create an empty chunk.
    pub fn new() -> (c: DgcChunk)
        ensures
            c@ =~= Seq::<DgcFileView>::empty(),
    {
        DgcChunk { data: Vec::new() }
    }

    /// Append a record to this chunk.
    pub fn add_file(&mut self, file: DgcFile)
        ensures
            final(self)@ == old(self)@.push(file@),
    {
        self.data.push(file);
        assert(self@ =~= old(self)@.push(file@));
    }

    /// The total encoded size of this chunk: the 4-byte record count plus the
    /// encoded size of every record it holds.
    pub fn get_size(&self) -> (size: usize)
        requires
            spec_chunk_size(self@) <= usize::MAX,
        ensures
            size == spec_chunk_size(self@),
    {
        let mut acc: usize = 4;
        let mut i: usize = 0;
        while i < self.data.len()
            invariant
                0 <= i <= self.data.len(),
                acc == spec_chunk_size(self@.take(i as int)),
                spec_chunk_size(self@) <= usize::MAX,
            decreases self.data.len() - i,
        {
            proof {
                lemma_chunk_size_take_step(self@, i as int);
                lemma_chunk_size_take_le(self@, i as int + 1);
                assert(self@.take(self@.len() as int) =~= self@);
            }
            acc = acc + self.data[i].data.len() + 16;
            i = i + 1;
        }
        proof {
            assert(self@.take(self@.len() as int) =~= self@);
        }
        acc
    }

    /// The total payload bytes of this chunk, headers not counted.
    pub fn data_len(&self) -> (n: usize)
        requires
            spec_chunk_size(self@) <= usize::MAX,
        ensures
            n == spec_chunk_data_len(self@),
    {
        let mut acc: usize = 0;
        let mut i: usize = 0;
        while i < self.data.len()
            invariant
                0 <= i <= self.data.len(),
                acc == spec_chunk_data_len(self@.take(i as int)),
                spec_chunk_size(self@) <= usize::MAX,
            decreases self.data.len() - i,
        {
            proof {
                lemma_chunk_data_len_take_step(self@, i as int);
                lemma_chunk_data_len_le(self@, i as int + 1);
                lemma_chunk_size_take_le(self@, i as int + 1);
            }
            acc = acc + self.data[i].data.len();
            i = i + 1;
        }
        proof {
            assert(self@.take(self@.len() as int) =~= self@);
        }
        acc
    }

    /// The number of records stored in this chunk.
    pub fn get_num_files(&self) -> (n: usize)
        ensures
            n == self@.len(),
    {
        self.data.len()
    }
}

/// The payload bytes of a chunk: the records' data lengths summed, headers
/// not counted.
pub open spec fn spec_chunk_data_len(c: Seq<DgcFileView>) -> int
    decreases c.len(),
{
    if c.len() == 0 {
        0
    } else {
        spec_chunk_data_len(c.drop_last()) + c.last().data.len()
    }
}

/// The payload bytes of a prefix grow by one record's payload at a time.
pub proof fn lemma_chunk_data_len_take_step(c: Seq<DgcFileView>, i: int)
    requires
        0 <= i < c.len(),
    ensures
        spec_chunk_data_len(c.take(i + 1)) == spec_chunk_data_len(c.take(i)) + c[i].data.len(),
{
    assert(c.take(i + 1).drop_last() =~= c.take(i));
    assert(c.take(i + 1).last() == c[i]);
}

/// A chunk's payload bytes never exceed its encoded size.
pub proof fn lemma_chunk_data_len_le(c: Seq<DgcFileView>, i: int)
    requires
        0 <= i <= c.len(),
    ensures
        0 <= spec_chunk_data_len(c.take(i)) <= spec_chunk_size(c.take(i)) - 4,
    decreases i,
{
    if i == 0 {
        assert(c.take(0) =~= Seq::<DgcFileView>::empty());
        assert(spec_chunk_size(Seq::<DgcFileView>::empty()) == 4);
    } else {
        lemma_chunk_data_len_le(c, i - 1);
        lemma_chunk_data_len_take_step(c, i - 1);
        lemma_chunk_size_take_step(c, i - 1);
    }
}

/// The encoded size of a prefix grows by one record's size at a time.
pub proof fn lemma_chunk_size_take_step(c: Seq<DgcFileView>, i: int)
    requires
        0 <= i < c.len(),
    ensures
        spec_chunk_size(c.take(i + 1)) == spec_chunk_size(c.take(i)) + spec_file_size(c[i]),
{
    assert(c.take(i + 1).drop_last() =~= c.take(i));
    assert(c.take(i + 1).last() == c[i]);
}

/// The encoded size of a prefix never exceeds the size of the whole chunk.
pub proof fn lemma_chunk_size_take_le(c: Seq<DgcFileView>, i: int)
    requires
        0 <= i <= c.len(),
    ensures
        spec_chunk_size(c.take(i)) <= spec_chunk_size(c),
    decreases c.len() - i,
{
    if i < c.len() {
        lemma_chunk_size_take_step(c, i);
        lemma_chunk_size_take_le(c, i + 1);
    } else {
        assert(c.take(i) =~= c);
    }
}

/// The smallest valid chunk size for a record of encoded size `max_size`:
/// the least positive multiple of the alignment that is at least `max_size`.
pub open spec fn spec_calculate_chunk_size(max_size: int) -> int {
    if max_size <= 0 {
        CHUNK_ALIGN as int
    } else {
        ((max_size - 1) / (CHUNK_ALIGN as int) + 1) * (CHUNK_ALIGN as int)
    }
}

/// Calculate the size that a chunk must have in order to store a record of
/// the given encoded size.
pub fn calculate_chunk_size(max_size: usize) -> (size: usize)
    requires
        max_size <= MAX_CHUNK_SIZE,
    ensures
        size == spec_calculate_chunk_size(max_size as int),
        size % CHUNK_ALIGN == 0,
        CHUNK_ALIGN <= size <= MAX_CHUNK_SIZE,
        size >= max_size,
        max_size > 0 ==> size < max_size + CHUNK_ALIGN,
{
    proof {
        lemma_calculate_chunk_size_bounds(max_size as int);
    }
    if max_size == 0 {
        // avoids the underflow in the rounding expression below
        return CHUNK_ALIGN;
    }
    ((max_size - 1) / CHUNK_ALIGN + 1) * CHUNK_ALIGN
}

/// Bounds and alignment of the chunk-size rounding function.
pub proof fn lemma_calculate_chunk_size_bounds(max_size: int)
    ensures
        spec_calculate_chunk_size(max_size) % (CHUNK_ALIGN as int) == 0,
        spec_calculate_chunk_size(max_size) >= CHUNK_ALIGN,
        spec_calculate_chunk_size(max_size) >= max_size,
        max_size > 0 ==> spec_calculate_chunk_size(max_size) < max_size + CHUNK_ALIGN,
        max_size <= MAX_CHUNK_SIZE ==> spec_calculate_chunk_size(max_size) <= MAX_CHUNK_SIZE,
{
    if max_size > 0 {
        let a = CHUNK_ALIGN as int;
        let q = (max_size - 1) / a;
        vstd::arithmetic::div_mod::lemma_fundamental_div_mod(max_size - 1, a);
        vstd::arithmetic::div_mod::lemma_mod_bound(max_size - 1, a);
        assert((q + 1) * a == q * a + a) by (nonlinear_arith);
        vstd::arithmetic::div_mod::lemma_mod_multiples_basic(q + 1, a);
        if max_size > MAX_CHUNK_SIZE - CHUNK_ALIGN + 1 && max_size <= MAX_CHUNK_SIZE {
            assert(q == 0x1FFFFE) by {
                vstd::arithmetic::div_mod::lemma_div_is_ordered(max_size - 1, 0xFFFF_F7FF, a);
                vstd::arithmetic::div_mod::lemma_div_is_ordered(0xFFFF_F000, max_size - 1, a);
            }
        }
    }
}

/// An archive: a 256-byte header, a chunk size, and an ordered list of
/// chunks. All chunks occupy exactly `chunk_size` bytes on disk.
pub struct DgcArchive {
    pub header: DgcHeader,
    pub data: Vec<DgcChunk>,
    pub chunk_size: usize,
}

/// Mathematical model of an archive.
pub struct DgcArchiveView {
    pub header: Seq<u8>,
    pub chunk_size: int,
    pub chunks: Seq<Seq<DgcFileView>>,
}

impl View for DgcArchive {
    type V = DgcArchiveView;

    open spec fn view(&self) -> DgcArchiveView {
        DgcArchiveView {
            header: self.header.legal_notice@,
            chunk_size: self.chunk_size as int,
            chunks: self.data@.map_values(|c: DgcChunk| c@),
        }
    }
}

/// Every record of a sequence fits, with the 4-byte chunk prefix, in a chunk
/// of size `cs`.
pub open spec fn all_fit(s: Seq<DgcFileView>, cs: int) -> bool {
    forall|f: DgcFileView| s.contains(f) ==> spec_file_size(f) + 4 <= cs
}

impl DgcArchiveView {
    /// All records of the archive, in chunk order.
    pub open spec fn records(self) -> Seq<DgcFileView> {
        self.chunks.flatten()
    }

    /// Structural invariant: the header is exactly 256 bytes, the chunk size
    /// is an aligned value that fits the format's 32-bit size field, no
    /// record is larger than the chunk size, and no chunk's encoded size
    /// exceeds the chunk size by more than its own 4-byte prefix.
    pub open spec fn inv(self) -> bool {
        &&& self.header.len() == 256
        &&& CHUNK_ALIGN <= self.chunk_size <= MAX_CHUNK_SIZE
        &&& self.chunk_size % (CHUNK_ALIGN as int) == 0
        &&& forall|i: int|
            0 <= i < self.chunks.len() ==> #[trigger] spec_chunk_size(self.chunks[i])
                <= self.chunk_size + 4
        &&& forall|i: int|
            0 <= i < self.chunks.len() ==> spec_records_le(#[trigger] self.chunks[i],
            self.chunk_size)
    }

    /// The chunk ceiling: every chunk's encoded size, prefix included, is at
    /// most the chunk size, so every chunk can be padded to exactly that many
    /// bytes on disk.
    pub open spec fn chunks_fit(self) -> bool {
        forall|i: int|
            0 <= i < self.chunks.len() ==> #[trigger] spec_chunk_size(self.chunks[i])
                <= self.chunk_size
    }

    /// A well-formed archive: structurally sound and within the ceiling.
    pub open spec fn wf(self) -> bool {
        self.inv() && self.chunks_fit()
    }
}

/// Every record of the sequence has encoded size at most `bound`.
pub open spec fn spec_records_le(c: Seq<DgcFileView>, bound: int) -> bool {
    forall|j: int| 0 <= j < c.len() ==> spec_file_size(#[trigger] c[j]) <= bound
}

/// A record of the flattened sequence is a record of one of its parts.
pub proof fn lemma_flatten_contains<A>(chunks: Seq<Seq<A>>, x: A)
    ensures
        chunks.flatten().contains(x) <==> exists|i: int|
            0 <= i < chunks.len() && #[trigger] chunks[i].contains(x),
    decreases chunks.len(),
{
    if chunks.len() > 0 {
        lemma_flatten_contains(chunks.drop_first(), x);
        if chunks.flatten().contains(x) {
            if chunks[0].contains(x) {
            } else {
                assert(chunks.flatten() == chunks[0] + chunks.drop_first().flatten());
                let k = choose|k: int| 0 <= k < chunks.flatten().len() && chunks.flatten()[k] == x;
                if k < chunks[0].len() {
                    assert(chunks[0][k] == x);
                } else {
                    assert(chunks.drop_first().flatten()[k - chunks[0].len()] == x);
                    let i = choose|i: int|
                        0 <= i < chunks.drop_first().len() && #[trigger] chunks.drop_first()[i].contains(x);
                    assert(chunks[i + 1].contains(x));
                }
            }
        }
        if exists|i: int| 0 <= i < chunks.len() && #[trigger] chunks[i].contains(x) {
            let i = choose|i: int| 0 <= i < chunks.len() && #[trigger] chunks[i].contains(x);
            assert(chunks.flatten() == chunks[0] + chunks.drop_first().flatten());
            if i == 0 {
                let k = choose|k: int| 0 <= k < chunks[0].len() && chunks[0][k] == x;
                assert(chunks.flatten()[k] == x);
            } else {
                assert(chunks.drop_first()[i - 1].contains(x));
                let k = choose|k: int|
                    0 <= k < chunks.drop_first().flatten().len() && chunks.drop_first().flatten()[k]
                        == x;
                assert(chunks.flatten()[chunks[0].len() + k] == x);
            }
        }
    }
}

/// Two sequences with the same multiset of elements contain the same values.
pub proof fn lemma_multiset_same_contains<A>(a: Seq<A>, b: Seq<A>)
    requires
        a.to_multiset() == b.to_multiset(),
    ensures
        forall|x: A| a.contains(x) <==> b.contains(x),
{
    broadcast use vstd::seq_lib::group_to_multiset_ensures;

    a.to_multiset_ensures();
    b.to_multiset_ensures();
    assert forall|x: A| a.contains(x) implies b.contains(x) by {
        assert(a.to_multiset().count(x) > 0);
        assert(b.to_multiset().count(x) > 0);
    }
    assert forall|x: A| b.contains(x) implies a.contains(x) by {
        assert(b.to_multiset().count(x) > 0);
        assert(a.to_multiset().count(x) > 0);
    }
}

/// Index of the first chunk that can still take a record of encoded size
/// `sz` without its own encoded size exceeding `cs`.
pub open spec fn spec_find_fit(chunks: Seq<Seq<DgcFileView>>, sz: int, cs: int) -> Option<int>
    decreases chunks.len(),
{
    if chunks.len() == 0 {
        None
    } else if spec_chunk_size(chunks[0]) + sz <= cs {
        Some(0int)
    } else {
        match spec_find_fit(chunks.drop_first(), sz, cs) {
            Some(i) => Some(i + 1),
            None => None,
        }
    }
}

/// The chunk list after placing record `f` by first fit: `f` joins the first
/// chunk with room for it, or a new chunk holding only `f` is appended.
pub open spec fn spec_first_fit(
    chunks: Seq<Seq<DgcFileView>>,
    f: DgcFileView,
    cs: int,
) -> Seq<Seq<DgcFileView>> {
    match spec_find_fit(chunks, spec_file_size(f), cs) {
        Some(i) => chunks.update(i, chunks[i].push(f)),
        None => chunks.push(seq![f]),
    }
}

/// If no chunk before `i` has room, the first-fit search resolves at `i`
/// when chunk `i` has room, and finds nothing when `i` passes the end.
pub proof fn lemma_find_fit_prefix(chunks: Seq<Seq<DgcFileView>>, sz: int, cs: int, i: int)
    requires
        0 <= i <= chunks.len(),
        forall|j: int| 0 <= j < i ==> spec_chunk_size(#[trigger] chunks[j]) + sz > cs,
    ensures
        i < chunks.len() && spec_chunk_size(chunks[i]) + sz <= cs ==> spec_find_fit(chunks, sz, cs)
            == Some(i),
        i == chunks.len() ==> spec_find_fit(chunks, sz, cs) is None,
    decreases i,
{
    if i == 0 {
        if 0 < chunks.len() && spec_chunk_size(chunks[0]) + sz <= cs {
        } else if chunks.len() == 0 {
        }
    } else {
        assert(spec_chunk_size(chunks[0]) + sz > cs);
        let rest = chunks.drop_first();
        assert(forall|j: int| 0 <= j < i - 1 ==> spec_chunk_size(#[trigger] rest[j]) + sz > cs)
            by {
            assert(forall|j: int| 0 <= j < i - 1 ==> rest[j] == chunks[j + 1]);
        }
        lemma_find_fit_prefix(rest, sz, cs, i - 1);
        if i < chunks.len() {
            assert(rest[i - 1] == chunks[i]);
        }
    }
}

/// Placing a record by first fit adds exactly that record to the archive's
/// contents.
pub proof fn lemma_first_fit_multiset(chunks: Seq<Seq<DgcFileView>>, f: DgcFileView, cs: int)
    ensures
        spec_first_fit(chunks, f, cs).flatten().to_multiset() == chunks.flatten().to_multiset().insert(
            f,
        ),
{
    broadcast use vstd::seq_lib::group_to_multiset_ensures;

    match spec_find_fit(chunks, spec_file_size(f), cs) {
        Some(i) => {
            lemma_find_fit_in_range(chunks, spec_file_size(f), cs);
            let upd = chunks.update(i, chunks[i].push(f));
            let pre = chunks.take(i);
            let post = chunks.skip(i + 1);
            assert(chunks =~= pre + seq![chunks[i]] + post);
            assert(upd =~= pre + seq![chunks[i].push(f)] + post);
            vstd::seq_lib::lemma_flatten_concat(pre + seq![chunks[i]], post);
            vstd::seq_lib::lemma_flatten_concat(pre, seq![chunks[i]]);
            vstd::seq_lib::lemma_flatten_concat(pre + seq![chunks[i].push(f)], post);
            vstd::seq_lib::lemma_flatten_concat(pre, seq![chunks[i].push(f)]);
            seq![chunks[i]].lemma_flatten_singleton();
            seq![chunks[i].push(f)].lemma_flatten_singleton();
            assert(chunks.flatten() == pre.flatten() + chunks[i] + post.flatten());
            assert(upd.flatten() == pre.flatten() + chunks[i].push(f) + post.flatten());
            let a = pre.flatten();
            let b = post.flatten();
            let c = chunks[i];
            vstd::seq_lib::lemma_multiset_commutative(a + c, b);
            vstd::seq_lib::lemma_multiset_commutative(a, c);
            vstd::seq_lib::lemma_multiset_commutative(a + c.push(f), b);
            vstd::seq_lib::lemma_multiset_commutative(a, c.push(f));
            assert(c.push(f).to_multiset() == c.to_multiset().insert(f));
            assert(upd.flatten().to_multiset() =~= chunks.flatten().to_multiset().insert(f));
        },
        None => {
            chunks.lemma_flatten_push(seq![f]);
            vstd::seq_lib::lemma_multiset_commutative(chunks.flatten(), seq![f]);
            assert(seq![f].to_multiset() =~= Multiset::<DgcFileView>::empty().insert(f)) by {
                assert(seq![f].drop_last() =~= Seq::<DgcFileView>::empty());
                assert(seq![f] =~= Seq::<DgcFileView>::empty().push(f));
            }
            assert(chunks.push(seq![f]).flatten().to_multiset() =~= chunks.flatten().to_multiset().insert(
                f,
            ));
        },
    }
}

/// A successful first-fit search lands on a chunk with room for the record.
pub proof fn lemma_find_fit_in_range(chunks: Seq<Seq<DgcFileView>>, sz: int, cs: int)
    ensures
        spec_find_fit(chunks, sz, cs) matches Some(i) ==> 0 <= i < chunks.len()
            && spec_chunk_size(chunks[i]) + sz <= cs,
    decreases chunks.len(),
{
    if chunks.len() > 0 {
        lemma_find_fit_in_range(chunks.drop_first(), sz, cs);
    }
}

/// Records in weakly decreasing order of encoded size.
pub open spec fn sorted_desc(s: Seq<DgcFileView>) -> bool {
    forall|i: int, j: int|
        #![trigger s[i], s[j]]
        0 <= i <= j < s.len() ==> spec_file_size(s[i]) >= spec_file_size(s[j])
}

/// Prepending a record grows a chunk's encoded size by the record's size.
pub proof fn lemma_chunk_size_cons(f: DgcFileView, s: Seq<DgcFileView>)
    ensures
        spec_chunk_size(seq![f] + s) == spec_chunk_size(s) + spec_file_size(f),
    decreases s.len(),
{
    if s.len() == 0 {
        assert(seq![f] + s =~= seq![f]);
        assert(seq![f].drop_last() =~= Seq::<DgcFileView>::empty());
        assert(spec_chunk_size(Seq::<DgcFileView>::empty()) == 4);
    } else {
        assert((seq![f] + s).drop_last() =~= seq![f] + s.drop_last());
        assert((seq![f] + s).last() == s.last());
        lemma_chunk_size_cons(f, s.drop_last());
    }
}

/// One greedy pass over the pool for a chunk that already holds `used`
/// encoded bytes: scanning left to right, each record is taken if the chunk
/// still has room for it, and left in place otherwise. Returns the records
/// taken and the records left, both in pool order.
pub open spec fn spec_pack_scan(pool: Seq<DgcFileView>, cs: int, used: int) -> (
    Seq<DgcFileView>,
    Seq<DgcFileView>,
)
    decreases pool.len(),
{
    if pool.len() == 0 {
        (Seq::<DgcFileView>::empty(), Seq::<DgcFileView>::empty())
    } else if used + spec_file_size(pool[0]) <= cs {
        let r = spec_pack_scan(pool.drop_first(), cs, used + spec_file_size(pool[0]));
        (seq![pool[0]] + r.0, r.1)
    } else {
        let r = spec_pack_scan(pool.drop_first(), cs, used);
        (r.0, seq![pool[0]] + r.1)
    }
}

/// The greedy pass splits the pool: nothing is lost or invented, and the
/// records taken never grow the chunk beyond `cs`.
pub proof fn lemma_pack_scan_props(pool: Seq<DgcFileView>, cs: int, used: int)
    ensures
        spec_pack_scan(pool, cs, used).0.len() + spec_pack_scan(pool, cs, used).1.len()
            == pool.len(),
        spec_pack_scan(pool, cs, used).0.to_multiset().add(
            spec_pack_scan(pool, cs, used).1.to_multiset(),
        ) == pool.to_multiset(),
        spec_pack_scan(pool, cs, used).0.len() > 0 ==> used + spec_chunk_size(
            spec_pack_scan(pool, cs, used).0,
        ) - 4 <= cs,
    decreases pool.len(),
{
    broadcast use vstd::seq_lib::group_to_multiset_ensures;

    let r = spec_pack_scan(pool, cs, used);
    if pool.len() == 0 {
        assert(r.0.to_multiset().add(r.1.to_multiset()) =~= pool.to_multiset());
    } else {
        let rest = pool.drop_first();
        assert(pool =~= seq![pool[0]] + rest);
        vstd::seq_lib::lemma_multiset_commutative(seq![pool[0]], rest);
        if used + spec_file_size(pool[0]) <= cs {
            let rr = spec_pack_scan(rest, cs, used + spec_file_size(pool[0]));
            lemma_pack_scan_props(rest, cs, used + spec_file_size(pool[0]));
            vstd::seq_lib::lemma_multiset_commutative(seq![pool[0]], rr.0);
            assert(r.0.to_multiset().add(r.1.to_multiset()) =~= pool.to_multiset());
            lemma_chunk_size_cons(pool[0], rr.0);
            if rr.0.len() == 0 {
                assert(rr.0 =~= Seq::<DgcFileView>::empty());
                assert(spec_chunk_size(Seq::<DgcFileView>::empty()) == 4);
            }
        } else {
            let rr = spec_pack_scan(rest, cs, used);
            lemma_pack_scan_props(rest, cs, used);
            vstd::seq_lib::lemma_multiset_commutative(seq![pool[0]], rr.1);
            assert(r.0.to_multiset().add(r.1.to_multiset()) =~= pool.to_multiset());
        }
    }
}

/// The chunks produced by repeatedly opening a fresh chunk and running the
/// greedy pass until the pool is empty: first-fit-decreasing bin packing
/// once the pool is sorted by decreasing size.
pub open spec fn spec_pack(pool: Seq<DgcFileView>, cs: int) -> Seq<Seq<DgcFileView>>
    decreases pool.len(),
{
    if pool.len() == 0 {
        Seq::<Seq<DgcFileView>>::empty()
    } else {
        let r = spec_pack_scan(pool, cs, 4);
        if r.1.len() < pool.len() {
            seq![r.0] + spec_pack(r.1, cs)
        } else {
            // cannot arise when every record fits an empty chunk
            seq![seq![pool[0]]] + spec_pack(pool.drop_first(), cs)
        }
    }
}

/// Packing a pool whose every record fits an empty chunk keeps exactly the
/// pool's records and never fills a chunk beyond `cs`.
pub proof fn lemma_pack_props(pool: Seq<DgcFileView>, cs: int)
    requires
        all_fit(pool, cs),
        cs >= 4,
    ensures
        spec_pack(pool, cs).flatten().to_multiset() == pool.to_multiset(),
        forall|i: int|
            0 <= i < spec_pack(pool, cs).len() ==> #[trigger] spec_chunk_size(
                spec_pack(pool, cs)[i],
            ) <= cs,
        forall|i: int|
            0 <= i < spec_pack(pool, cs).len() ==> spec_records_le(
                #[trigger] spec_pack(pool, cs)[i],
                cs - 4,
            ),
    decreases pool.len(),
{
    broadcast use vstd::seq_lib::group_to_multiset_ensures;

    let p = spec_pack(pool, cs);
    if pool.len() == 0 {
        assert(p.flatten().to_multiset() =~= pool.to_multiset());
    } else {
        let r = spec_pack_scan(pool, cs, 4);
        lemma_pack_scan_props(pool, cs, 4);
        assert(pool.contains(pool[0]));
        assert(4 + spec_file_size(pool[0]) <= cs);
        assert(r.0.len() > 0);
        assert(r.1.len() < pool.len());
        assert(p == seq![r.0] + spec_pack(r.1, cs));
        // records of both halves of the pass come from the pool
        lemma_multiset_parts_contained(r.0, r.1, pool);
        assert(all_fit(r.1, cs));
        lemma_pack_props(r.1, cs);
        // contents
        vstd::seq_lib::lemma_flatten_concat(seq![r.0], spec_pack(r.1, cs));
        seq![r.0].lemma_flatten_singleton();
        vstd::seq_lib::lemma_multiset_commutative(r.0, spec_pack(r.1, cs).flatten());
        assert(p.flatten().to_multiset() =~= pool.to_multiset());
        // ceiling
        assert(spec_chunk_size(r.0) <= cs);
        assert forall|i: int| 0 <= i < p.len() implies #[trigger] spec_chunk_size(p[i]) <= cs by {
            if i > 0 {
                assert(p[i] == spec_pack(r.1, cs)[i - 1]);
            }
        }
        // record bound
        assert(spec_records_le(r.0, cs - 4)) by {
            assert forall|j: int| 0 <= j < r.0.len() implies spec_file_size(#[trigger] r.0[j])
                <= cs - 4 by {
                assert(r.0.contains(r.0[j]));
                assert(pool.contains(r.0[j]));
            }
        }
        assert forall|i: int| 0 <= i < p.len() implies spec_records_le(#[trigger] p[i], cs - 4) by {
            if i > 0 {
                assert(p[i] == spec_pack(r.1, cs)[i - 1]);
            }
        }
    }
}

/// When two sequences together carry exactly the records of a pool, each of
/// their records is a record of the pool.
pub proof fn lemma_multiset_parts_contained(
    a: Seq<DgcFileView>,
    b: Seq<DgcFileView>,
    pool: Seq<DgcFileView>,
)
    requires
        a.to_multiset().add(b.to_multiset()) == pool.to_multiset(),
    ensures
        forall|x: DgcFileView| a.contains(x) ==> pool.contains(x),
        forall|x: DgcFileView| b.contains(x) ==> pool.contains(x),
{
    a.to_multiset_ensures();
    b.to_multiset_ensures();
    pool.to_multiset_ensures();
    assert forall|x: DgcFileView| a.contains(x) implies pool.contains(x) by {
        assert(a.to_multiset().count(x) > 0);
        assert(pool.to_multiset().count(x) > 0);
    }
    assert forall|x: DgcFileView| b.contains(x) implies pool.contains(x) by {
        assert(b.to_multiset().count(x) > 0);
        assert(pool.to_multiset().count(x) > 0);
    }
}

impl DgcArchive {
    /// Create an empty archive from a header of exactly 256 bytes and a
    /// requested chunk size, which is rounded up to the nearest aligned value.
    pub fn new(header: &str, chunk_size: usize) -> (a: DgcArchive)
        requires
            header.spec_bytes().len() == 256,
            chunk_size <= MAX_CHUNK_SIZE,
        ensures
            a@.header == header.spec_bytes(),
            a@.chunk_size == spec_calculate_chunk_size(chunk_size as int),
            a@.chunks =~= Seq::<Seq<DgcFileView>>::empty(),
            a@.wf(),
    {
        let headerdata = header.as_bytes_vec();
        let a = DgcArchive {
            header: DgcHeader { legal_notice: headerdata },
            data: Vec::new(),
            chunk_size: calculate_chunk_size(chunk_size),
        };
        proof {
            assert(a@.chunks =~= Seq::<Seq<DgcFileView>>::empty());
        }
        a
    }

    /// All records of this archive, in chunk order.
    pub fn iter_files(&self) -> (r: Vec<&DgcFile>)
        ensures
            r@.map_values(|f: &DgcFile| f@) == self@.records(),
    {
        let mut r: Vec<&DgcFile> = Vec::new();
        let mut i: usize = 0;
        while i < self.data.len()
            invariant
                0 <= i <= self.data.len(),
                r@.map_values(|f: &DgcFile| f@) == self@.chunks.take(i as int).flatten(),
            decreases self.data.len() - i,
        {
            let chunk = &self.data[i];
            let mut j: usize = 0;
            while j < chunk.data.len()
                invariant
                    0 <= j <= chunk.data.len(),
                    0 <= i < self.data.len(),
                    chunk == &self.data[i as int],
                    r@.map_values(|f: &DgcFile| f@) == self@.chunks.take(i as int).flatten()
                        + self@.chunks[i as int].take(j as int),
                decreases chunk.data.len() - j,
            {
                let ghost r0 = r@;
                let fref = &chunk.data[j];
                r.push(fref);
                proof {
                    r0.lemma_push_map_commute(|f: &DgcFile| f@, fref);
                    assert(fref@ == self@.chunks[i as int][j as int]);
                    assert(self@.chunks[i as int].take(j as int + 1) =~= self@.chunks[i as int].take(
                        j as int,
                    ).push(self@.chunks[i as int][j as int]));
                    assert(r@.map_values(|f: &DgcFile| f@) =~= self@.chunks.take(i as int).flatten()
                        + self@.chunks[i as int].take(j as int + 1));
                }
                j = j + 1;
            }
            proof {
                assert(self@.chunks.take(i as int + 1) =~= self@.chunks.take(i as int).push(
                    self@.chunks[i as int],
                ));
                self@.chunks.take(i as int).lemma_flatten_push(self@.chunks[i as int]);
                assert(self@.chunks[i as int].take(chunk.data.len() as int) =~= self@.chunks[i as int]);
                assert(r@.map_values(|f: &DgcFile| f@) =~= self@.chunks.take(i as int + 1).flatten());
            }
            i = i + 1;
        }
        proof {
            assert(self@.chunks.take(self.data.len() as int) =~= self@.chunks);
        }
        r
    }

    /// Place one record by first fit: scan the chunks in order and put the
    /// record in the first chunk with room for it, or append a new chunk.
    fn place_first_fit(&mut self, file: DgcFile)
        requires
            old(self)@.inv(),
            file_bounded(file@),
            spec_file_size(file@) <= old(self)@.chunk_size,
        ensures
            final(self)@.header == old(self)@.header,
            final(self)@.chunk_size == old(self)@.chunk_size,
            final(self)@.chunks == spec_first_fit(
                old(self)@.chunks,
                file@,
                old(self)@.chunk_size,
            ),
            final(self)@.inv(),
            final(self)@.records().to_multiset() == old(self)@.records().to_multiset().insert(
                file@,
            ),
            old(self)@.chunks_fit() && spec_file_size(file@) + 4 <= old(self)@.chunk_size
                ==> final(self)@.chunks_fit(),
    {
        let ghost cs = old(self)@.chunk_size;
        let ghost chunks0 = old(self)@.chunks;
        let ghost fv = file@;
        let fsize = file.get_size();
        let n = self.data.len();
        let mut i: usize = 0;
        while i < n
            invariant
                0 <= i <= n,
                *self == *old(self),
                n == self.data.len(),
                old(self)@.inv(),
                file_bounded(fv),
                fv == file@,
                fsize == spec_file_size(fv),
                spec_file_size(fv) <= cs,
                cs == old(self)@.chunk_size,
                chunks0 == old(self)@.chunks,
                forall|j: int|
                    0 <= j < i ==> spec_chunk_size(#[trigger] chunks0[j]) + spec_file_size(fv) > cs,
            decreases n - i,
        {
            proof {
                assert(self@.chunks[i as int] == self.data[i as int]@);
                assert(spec_chunk_size(chunks0[i as int]) <= cs + 4);
            }
            let csize = self.data[i].get_size();
            if csize <= self.chunk_size && fsize <= self.chunk_size - csize {
                proof {
                    lemma_find_fit_prefix(chunks0, spec_file_size(fv), cs, i as int);
                    lemma_first_fit_multiset(chunks0, fv, cs);
                }
                let mut c = self.data.remove(i);
                c.add_file(file);
                self.data.insert(i, c);
                proof {
                    assert(self@.chunks =~= chunks0.update(
                        i as int,
                        chunks0[i as int].push(fv),
                    ));
                    lemma_chunk_size_push(chunks0[i as int], fv);
                    assert forall|k: int| 0 <= k < self@.chunks.len() implies #[trigger]
                        spec_chunk_size(self@.chunks[k]) <= cs + 4 && spec_records_le(
                        self@.chunks[k],
                        cs,
                    ) by {
                        if k == i as int {
                            assert(spec_records_le(chunks0[k], cs));
                            assert forall|j: int| 0 <= j < self@.chunks[k].len() implies
                                spec_file_size(#[trigger] self@.chunks[k][j]) <= cs by {
                                if j < chunks0[k].len() {
                                    assert(self@.chunks[k][j] == chunks0[k][j]);
                                }
                            }
                        }
                    }
                }
                return ;
            }
            i = i + 1;
        }
        proof {
            lemma_find_fit_prefix(chunks0, spec_file_size(fv), cs, n as int);
            lemma_first_fit_multiset(chunks0, fv, cs);
        }
        let mut nc = DgcChunk::new();
        nc.add_file(file);
        self.data.push(nc);
        proof {
            assert(nc@ =~= seq![fv]);
            assert(self@.chunks =~= chunks0.push(seq![fv]));
            assert(seq![fv].drop_last() =~= Seq::<DgcFileView>::empty());
            assert(spec_chunk_size(Seq::<DgcFileView>::empty()) == 4);
            assert(spec_chunk_size(seq![fv]) == 4 + spec_file_size(fv));
            assert forall|k: int| 0 <= k < self@.chunks.len() implies #[trigger] spec_chunk_size(
                self@.chunks[k],
            ) <= cs + 4 && spec_records_le(self@.chunks[k], cs) by {
                if k == chunks0.len() {
                    assert(self@.chunks[k] =~= seq![fv]);
                    assert forall|j: int| 0 <= j < seq![fv].len() implies spec_file_size(
                        #[trigger] seq![fv][j],
                    ) <= cs by {
                        assert(seq![fv][j] == fv);
                    }
                }
            }
        }
    }
}

/// Records of one sequence are never smaller than records of another.
spec fn dominates(a: Seq<DgcFileView>, b: Seq<DgcFileView>) -> bool {
    forall|i: int, j: int|
        #![trigger a[i], b[j]]
        0 <= i < a.len() && 0 <= j < b.len() ==> spec_file_size(a[i]) >= spec_file_size(b[j])
}

impl DgcArchive {
    /// Rebuild every chunk from scratch for a new chunk size: collect every
    /// record of the archive into one pool, sort the pool by decreasing
    /// payload size, set the chunk size to the rounded `new_size`, and repack
    /// the pool greedily, first to fit. Triggered when an incoming record
    /// exceeds the current chunk size.
    pub fn reevaluate_files(&mut self, new_size: usize)
        requires
            old(self)@.inv(),
            new_size <= MAX_CHUNK_SIZE,
            forall|f: DgcFileView|
                old(self)@.records().contains(f) ==> spec_file_size(f) + 4
                    <= spec_calculate_chunk_size(new_size as int),
        ensures
            final(self)@.header == old(self)@.header,
            final(self)@.chunk_size == spec_calculate_chunk_size(new_size as int),
            final(self)@.wf(),
            final(self)@.records().to_multiset() == old(self)@.records().to_multiset(),
            exists|pool: Seq<DgcFileView>|
                #![trigger spec_pack(pool, final(self)@.chunk_size)]
                pool.to_multiset() == old(self)@.records().to_multiset() && sorted_desc(pool)
                    && final(self)@.chunks == spec_pack(pool, final(self)@.chunk_size),
    {
        broadcast use vstd::seq_lib::group_to_multiset_ensures;

        let ghost ms0 = old(self)@.records().to_multiset();
        // collect every record of every chunk into one pool
        let mut files: Vec<DgcFile> = Vec::new();
        while self.data.len() > 0
            invariant
                files@.map_values(|f: DgcFile| f@).to_multiset().add(
                    self@.chunks.flatten().to_multiset(),
                ) == ms0,
                self@.header == old(self)@.header,
                self.chunk_size == old(self).chunk_size,
            decreases self.data.len(),
        {
            let ghost chunks_pre = self@.chunks;
            let ghost files_pre = files@.map_values(|f: DgcFile| f@);
            let mut c = self.data.pop().unwrap();
            files.append(&mut c.data);
            proof {
                assert(chunks_pre =~= self@.chunks.push(chunks_pre.last()));
                self@.chunks.lemma_flatten_push(chunks_pre.last());
                vstd::seq_lib::lemma_multiset_commutative(
                    self@.chunks.flatten(),
                    chunks_pre.last(),
                );
                assert(files@.map_values(|f: DgcFile| f@) =~= files_pre + chunks_pre.last());
                vstd::seq_lib::lemma_multiset_commutative(files_pre, chunks_pre.last());
                assert(files@.map_values(|f: DgcFile| f@).to_multiset().add(
                    self@.chunks.flatten().to_multiset(),
                ) =~= ms0);
            }
        }
        proof {
            assert(self@.chunks =~= Seq::<Seq<DgcFileView>>::empty());
            assert(self@.chunks.flatten().to_multiset() =~= Multiset::<DgcFileView>::empty());
            assert(files@.map_values(|f: DgcFile| f@).to_multiset() =~= ms0);
        }
        // sort the pool by decreasing payload size
        let mut sorted_files: Vec<DgcFile> = Vec::new();
        while files.len() > 0
            invariant
                sorted_files@.map_values(|f: DgcFile| f@).to_multiset().add(
                    files@.map_values(|f: DgcFile| f@).to_multiset(),
                ) == ms0,
                sorted_desc(sorted_files@.map_values(|f: DgcFile| f@)),
                dominates(
                    sorted_files@.map_values(|f: DgcFile| f@),
                    files@.map_values(|f: DgcFile| f@),
                ),
                self@.header == old(self)@.header,
                self.chunk_size == old(self).chunk_size,
                self.data.len() == 0,
            decreases files.len(),
        {
            let mut best: usize = 0;
            let mut k: usize = 1;
            while k < files.len()
                invariant
                    0 <= best < files.len(),
                    1 <= k <= files.len(),
                    forall|j: int|
                        0 <= j < k ==> (#[trigger] files@[j])@.data.len()
                            <= files@[best as int]@.data.len(),
                decreases files.len() - k,
            {
                if files[k].data.len() > files[best].data.len() {
                    best = k;
                }
                k = k + 1;
            }
            let ghost sv = sorted_files@.map_values(|f: DgcFile| f@);
            let ghost fv = files@.map_values(|f: DgcFile| f@);
            let f = files.remove(best);
            sorted_files.push(f);
            proof {
                assert(files@.map_values(|f: DgcFile| f@) =~= fv.remove(best as int));
                fv.to_multiset_ensures();
                assert(sorted_files@.map_values(|f: DgcFile| f@) =~= sv.push(f@));
                sv.to_multiset_ensures();
                assert(fv.to_multiset().count(f@) > 0) by {
                    assert(fv.contains(fv[best as int]));
                }
                assert(sv.push(f@).to_multiset().add(fv.remove(best as int).to_multiset())
                    =~= sv.to_multiset().add(fv.to_multiset()));
                // order: the extracted record is a largest remaining one
                let sv2 = sorted_files@.map_values(|f: DgcFile| f@);
                let fv2 = files@.map_values(|f: DgcFile| f@);
                assert forall|i: int, j: int|
                    #![trigger sv2[i], sv2[j]]
                    0 <= i <= j < sv2.len() implies spec_file_size(sv2[i]) >= spec_file_size(
                    sv2[j],
                ) by {
                    if j < sv2.len() - 1 {
                        assert(sv2[i] == sv[i] && sv2[j] == sv[j]);
                    } else if i < j {
                        assert(sv2[i] == sv[i] && sv2[j] == fv[best as int]);
                    }
                }
                assert forall|i: int, j: int|
                    #![trigger sv2[i], fv2[j]]
                    0 <= i < sv2.len() && 0 <= j < fv2.len() implies spec_file_size(sv2[i])
                    >= spec_file_size(fv2[j]) by {
                    let j0 = if j < best as int {
                        j
                    } else {
                        j + 1
                    };
                    assert(fv2[j] == fv[j0]);
                    if i < sv2.len() - 1 {
                        assert(sv2[i] == sv[i]);
                    } else {
                        assert(sv2[i] == fv[best as int]);
                    }
                }
            }
        }
        proof {
            assert(files@.map_values(|f: DgcFile| f@) =~= Seq::<DgcFileView>::empty());
            assert(files@.map_values(|f: DgcFile| f@).to_multiset()
                =~= Multiset::<DgcFileView>::empty());
            assert(sorted_files@.map_values(|f: DgcFile| f@).to_multiset() =~= ms0);
        }
        // repack under the new chunk size
        self.chunk_size = calculate_chunk_size(new_size);
        let ghost cs = self@.chunk_size;
        let ghost pool = sorted_files@.map_values(|f: DgcFile| f@);
        proof {
            lemma_multiset_same_contains(pool, old(self)@.records());
            assert(all_fit(pool, cs));
            assert(self@.chunks =~= Seq::<Seq<DgcFileView>>::empty());
            assert(spec_pack(pool, cs) =~= self@.chunks + spec_pack(pool, cs));
        }
        while sorted_files.len() > 0
            invariant
                all_fit(sorted_files@.map_values(|f: DgcFile| f@), cs),
                spec_pack(pool, cs) == self@.chunks + spec_pack(
                    sorted_files@.map_values(|f: DgcFile| f@),
                    cs,
                ),
                forall|i: int|
                    0 <= i < self@.chunks.len() ==> #[trigger] spec_chunk_size(self@.chunks[i])
                        <= cs,
                forall|i: int|
                    0 <= i < self@.chunks.len() ==> spec_records_le(
                        #[trigger] self@.chunks[i],
                        cs - 4,
                    ),
                self@.header == old(self)@.header,
                self@.chunk_size == cs,
                CHUNK_ALIGN <= cs <= MAX_CHUNK_SIZE,
            decreases sorted_files.len(),
        {
            let ghost rem0 = sorted_files@.map_values(|f: DgcFile| f@);
            let ghost chunks_pre = self@.chunks;
            let mut chunk = DgcChunk::new();
            let mut i: usize = 0;
            proof {
                assert(chunk@ =~= Seq::<DgcFileView>::empty());
                assert(spec_chunk_size(chunk@) == 4);
                assert(rem0.skip(0) =~= rem0);
                assert(rem0.take(0) =~= Seq::<DgcFileView>::empty());
                assert(spec_pack_scan(rem0, cs, 4).0 =~= chunk@ + spec_pack_scan(
                    rem0.skip(0),
                    cs,
                    4,
                ).0);
                assert(spec_pack_scan(rem0, cs, 4).1 =~= rem0.take(0) + spec_pack_scan(
                    rem0.skip(0),
                    cs,
                    4,
                ).1);
            }
            while i < sorted_files.len()
                invariant
                    0 <= i <= sorted_files.len(),
                    all_fit(sorted_files@.map_values(|f: DgcFile| f@), cs),
                    spec_chunk_size(chunk@) <= cs,
                    CHUNK_ALIGN <= cs <= MAX_CHUNK_SIZE,
                    self@.chunk_size == cs,
                    spec_pack_scan(rem0, cs, 4).0 == chunk@ + spec_pack_scan(
                        sorted_files@.map_values(|f: DgcFile| f@).skip(i as int),
                        cs,
                        spec_chunk_size(chunk@),
                    ).0,
                    spec_pack_scan(rem0, cs, 4).1 == sorted_files@.map_values(
                        |f: DgcFile| f@,
                    ).take(i as int) + spec_pack_scan(
                        sorted_files@.map_values(|f: DgcFile| f@).skip(i as int),
                        cs,
                        spec_chunk_size(chunk@),
                    ).1,
                decreases sorted_files.len() - i,
            {
                let ghost cur = sorted_files@.map_values(|f: DgcFile| f@);
                let ghost used = spec_chunk_size(chunk@);
                proof {
                    assert(cur.contains(cur[i as int]));
                    assert(cur.skip(i as int)[0] == cur[i as int]);
                    assert(cur.skip(i as int).drop_first() =~= cur.skip(i as int + 1));
                    lemma_chunk_size_at_least_4(chunk@);
                }
                let fsize = sorted_files[i].get_size();
                let csize = chunk.get_size();
                if fsize <= self.chunk_size - csize {
                    let ghost ch0 = chunk@;
                    let f = sorted_files.remove(i);
                    chunk.add_file(f);
                    proof {
                        assert(f@ == cur[i as int]);
                        assert(chunk@ == ch0.push(f@));
                        lemma_chunk_size_push(ch0, f@);
                        assert(spec_chunk_size(chunk@) == used + spec_file_size(f@));
                        let cur2 = sorted_files@.map_values(|f: DgcFile| f@);
                        assert(cur2 =~= cur.remove(i as int));
                        assert(cur2.skip(i as int) =~= cur.skip(i as int + 1));
                        assert(cur2.take(i as int) =~= cur.take(i as int));
                        // all records of the shrunk pool still come from the pool
                        assert forall|x: DgcFileView| cur2.contains(x) implies cur.contains(x) by {
                            let k = choose|k: int| 0 <= k < cur2.len() && cur2[k] == x;
                            if k < i as int {
                                assert(cur[k] == x);
                            } else {
                                assert(cur[k + 1] == x);
                            }
                        }
                        // unfold the greedy pass one step: the record is taken
                        assert(spec_pack_scan(cur.skip(i as int), cs, used).0 == seq![cur[i as int]]
                            + spec_pack_scan(cur.skip(i as int + 1), cs, used + spec_file_size(f@)).0);
                        assert(spec_pack_scan(cur.skip(i as int), cs, used).1 == spec_pack_scan(
                            cur.skip(i as int + 1),
                            cs,
                            used + spec_file_size(f@),
                        ).1);
                        assert(ch0 + seq![cur[i as int]] =~= chunk@);
                        assert(ch0 + (seq![cur[i as int]] + spec_pack_scan(
                            cur.skip(i as int + 1),
                            cs,
                            used + spec_file_size(f@),
                        ).0) =~= chunk@ + spec_pack_scan(
                            cur.skip(i as int + 1),
                            cs,
                            used + spec_file_size(f@),
                        ).0);
                    }
                } else {
                    i = i + 1;
                    proof {
                        assert(spec_pack_scan(cur.skip(i as int - 1), cs, used).1 == seq![cur[i as int - 1]]
                            + spec_pack_scan(cur.skip(i as int), cs, used).1);
                        assert(cur.take(i as int) =~= cur.take(i as int - 1) + seq![cur[i as int - 1]]);
                        assert(cur.take(i as int - 1) + (seq![cur[i as int - 1]] + spec_pack_scan(
                            cur.skip(i as int),
                            cs,
                            used,
                        ).1) =~= cur.take(i as int) + spec_pack_scan(cur.skip(i as int), cs, used).1);
                    }
                }
            }
            proof {
                let cur = sorted_files@.map_values(|f: DgcFile| f@);
                assert(cur.skip(i as int) =~= Seq::<DgcFileView>::empty());
                assert(spec_pack_scan(Seq::<DgcFileView>::empty(), cs, spec_chunk_size(chunk@)).0
                    =~= Seq::<DgcFileView>::empty());
                assert(spec_pack_scan(rem0, cs, 4).0 =~= chunk@);
                assert(cur.take(i as int) =~= cur);
                assert(spec_pack_scan(rem0, cs, 4).1 =~= cur);
                // the pass always takes at least the first (largest) record
                lemma_pack_scan_props(rem0, cs, 4);
                assert(rem0.contains(rem0[0]));
                assert(chunk@.len() > 0);
                assert(cur.len() < rem0.len());
                assert(spec_pack(rem0, cs) == seq![chunk@] + spec_pack(cur, cs));
                lemma_multiset_parts_contained(chunk@, cur, rem0);
                assert(all_fit(cur, cs));
                assert(spec_records_le(chunk@, cs - 4)) by {
                    assert forall|j: int| 0 <= j < chunk@.len() implies spec_file_size(
                        #[trigger] chunk@[j],
                    ) <= cs - 4 by {
                        assert(chunk@.contains(chunk@[j]));
                        assert(rem0.contains(chunk@[j]));
                    }
                }
            }
            let ghost chunk_v = chunk@;
            self.data.push(chunk);
            proof {
                let cur = sorted_files@.map_values(|f: DgcFile| f@);
                assert(self@.chunks =~= chunks_pre.push(chunk_v));
                assert(chunks_pre + (seq![chunk_v] + spec_pack(cur, cs)) =~= chunks_pre.push(
                    chunk_v,
                ) + spec_pack(cur, cs));
                assert forall|j: int| 0 <= j < self@.chunks.len() implies #[trigger]
                    spec_chunk_size(self@.chunks[j]) <= cs && spec_records_le(
                    self@.chunks[j],
                    cs - 4,
                ) by {
                    if j < chunks_pre.len() {
                        assert(self@.chunks[j] == chunks_pre[j]);
                    } else {
                        assert(self@.chunks[j] == chunk_v);
                    }
                }
            }
        }
        proof {
            assert(sorted_files@.map_values(|f: DgcFile| f@) =~= Seq::<DgcFileView>::empty());
            assert(spec_pack(Seq::<DgcFileView>::empty(), cs) =~= Seq::<Seq<DgcFileView>>::empty());
            assert(self@.chunks + Seq::<Seq<DgcFileView>>::empty() =~= self@.chunks);
            assert(self@.chunks == spec_pack(pool, cs));
            lemma_pack_props(pool, cs);
            assert(self@.records().to_multiset() == ms0);
        }
    }
}

/// A record that, wherever the placement lands it, keeps every chunk within
/// the ceiling: together with the 4-byte chunk prefix it fits either the
/// current chunk size, or, when it is large enough to force a rebuild, the
/// rounded-up chunk size computed from its own encoded size.
pub open spec fn placeable(f: DgcFileView, cs: int) -> bool {
    if spec_file_size(f) > cs {
        spec_file_size(f) + 4 <= spec_calculate_chunk_size(spec_file_size(f))
    } else {
        spec_file_size(f) + 4 <= cs
    }
}

impl DgcArchive {
    /// Add a record to this archive. The record goes to the first chunk with
    /// room for it, or to a new chunk appended at the end; when the record is
    /// larger than the current chunk size, every chunk is first rebuilt from
    /// scratch for the larger chunk size that the record requires.
    ///
    /// All previously added records are kept, whichever path is taken, and
    /// exactly the new record is added. The chunk ceiling is kept whenever
    /// the record is `placeable`; a record whose encoded size falls within 4
    /// bytes of the ceiling lands alone in a chunk that exceeds it, as the
    /// format's placement rule dictates.
    pub fn add_file(&mut self, file: DgcFile)
        requires
            old(self)@.inv(),
            file_bounded(file@),
        ensures
            final(self)@.inv(),
            final(self)@.header == old(self)@.header,
            final(self)@.records().to_multiset() == old(self)@.records().to_multiset().insert(
                file@,
            ),
            spec_file_size(file@) <= old(self)@.chunk_size ==> {
                &&& final(self)@.chunk_size == old(self)@.chunk_size
                &&& final(self)@.chunks == spec_first_fit(
                    old(self)@.chunks,
                    file@,
                    old(self)@.chunk_size,
                )
            },
            spec_file_size(file@) > old(self)@.chunk_size ==> {
                &&& final(self)@.chunk_size == spec_calculate_chunk_size(spec_file_size(file@))
                &&& exists|pool: Seq<DgcFileView>|
                    #![trigger spec_pack(pool, final(self)@.chunk_size)]
                    pool.to_multiset() == old(self)@.records().to_multiset() && sorted_desc(pool)
                        && final(self)@.chunks == spec_first_fit(
                        spec_pack(pool, final(self)@.chunk_size),
                        file@,
                        final(self)@.chunk_size,
                    )
            },
            old(self)@.wf() && placeable(file@, old(self)@.chunk_size) ==> final(self)@.wf(),
    {
        let ghost pre = old(self)@;
        let fsize = file.get_size();
        if fsize > self.chunk_size {
            proof {
                lemma_calculate_chunk_size_bounds(spec_file_size(file@));
                // every stored record fits the strictly larger rebuilt size
                let ncs = spec_calculate_chunk_size(spec_file_size(file@));
                assert(ncs >= spec_file_size(file@));
                assert(ncs % (CHUNK_ALIGN as int) == 0);
                assert(ncs > pre.chunk_size);
                assert(ncs >= pre.chunk_size + CHUNK_ALIGN) by {
                    let a = CHUNK_ALIGN as int;
                    let q1 = ncs / a;
                    let q2 = pre.chunk_size / a;
                    vstd::arithmetic::div_mod::lemma_fundamental_div_mod(ncs, a);
                    vstd::arithmetic::div_mod::lemma_fundamental_div_mod(pre.chunk_size, a);
                    assert(ncs == q1 * a);
                    assert(pre.chunk_size == q2 * a);
                    assert(q1 > q2) by (nonlinear_arith)
                        requires
                            ncs == q1 * a,
                            pre.chunk_size == q2 * a,
                            ncs > pre.chunk_size,
                            a > 0,
                    ;
                    assert(q1 * a >= q2 * a + a) by (nonlinear_arith)
                        requires
                            q1 > q2,
                            a > 0,
                    ;
                }
                assert forall|f: DgcFileView| pre.records().contains(f) implies spec_file_size(f)
                    + 4 <= ncs by {
                    lemma_flatten_contains(pre.chunks, f);
                    let i = choose|i: int|
                        0 <= i < pre.chunks.len() && #[trigger] pre.chunks[i].contains(f);
                    let j = choose|j: int| 0 <= j < pre.chunks[i].len() && pre.chunks[i][j] == f;
                    assert(spec_file_size(pre.chunks[i][j]) <= pre.chunk_size);
                }
            }
            self.reevaluate_files(fsize);
            let ghost mid = self@;
            self.place_first_fit(file);
            proof {
                assert(self@.chunks == spec_first_fit(mid.chunks, file@, mid.chunk_size));
                let pool = choose|pool: Seq<DgcFileView>|
                    #![trigger spec_pack(pool, mid.chunk_size)]
                    pool.to_multiset() == pre.records().to_multiset() && sorted_desc(pool)
                        && mid.chunks == spec_pack(pool, mid.chunk_size);
                assert(self@.chunks == spec_first_fit(
                    spec_pack(pool, self@.chunk_size),
                    file@,
                    self@.chunk_size,
                ));
                assert(mid.records().to_multiset() == pre.records().to_multiset());
                if pre.wf() && placeable(file@, pre.chunk_size) {
                    assert(spec_file_size(file@) + 4 <= mid.chunk_size);
                    assert(self@.chunks_fit());
                }
            }
        } else {
            self.place_first_fit(file);
            proof {
                if pre.wf() && placeable(file@, pre.chunk_size) {
                    assert(spec_file_size(file@) + 4 <= pre.chunk_size);
                }
            }
        }
    }
}

/// Rounding to a chunk size is idempotent: a value that is already a valid
/// chunk size rounds to itself.
pub proof fn lemma_calculate_chunk_size_idempotent(x: int)
    ensures
        spec_calculate_chunk_size(spec_calculate_chunk_size(x)) == spec_calculate_chunk_size(x),
{
    let a = CHUNK_ALIGN as int;
    let s = spec_calculate_chunk_size(x);
    lemma_calculate_chunk_size_bounds(x);
    let q = s / a;
    vstd::arithmetic::div_mod::lemma_fundamental_div_mod(s, a);
    assert(s == q * a);
    assert(s >= a);
    assert(q >= 1) by (nonlinear_arith)
        requires
            s == q * a,
            s >= a,
            a > 0,
    ;
    assert((s - 1) / a == q - 1) by {
        vstd::arithmetic::div_mod::lemma_fundamental_div_mod_converse(s - 1, a, q - 1, a - 1);
        assert(s - 1 == (q - 1) * a + (a - 1)) by (nonlinear_arith)
            requires
                s == q * a,
        ;
    }
}

} // verus!
