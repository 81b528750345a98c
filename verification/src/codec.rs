//! Byte-level codec for the container: the exact on-disk layout of records,
//! chunks and archives, the encoder and decoder, and the proof that decoding
//! an encoded archive yields the archive back.
//!
//! Layout, all multi-byte integers big-endian: a 256-byte header blob, the
//! chunk size as a `u32`, 1788 reserved zero bytes, then one `chunk_size`-byte
//! segment per chunk. Each segment holds a `u32` record count, the records,
//! and zero padding. Each record holds a `u32` total size (payload length
//! plus 16), three `i32` identifiers, and the payload bytes.

use crate::be::{
    push_i32_be, push_u32_be, spec_i32_be, spec_u32_be, spec_u32_from_be, i32_from_be, u32_from_be,
    lemma_i32_be_round_trip, lemma_u32_be_round_trip,
};
use crate::dgc::{
    lemma_chunk_size_at_least_4, lemma_chunk_size_cons, lemma_chunk_size_member,
    spec_chunk_size, spec_file_size, spec_records_le, DgcArchive, DgcArchiveView, DgcChunk,
    DgcFile, DgcFileView, DgcHeader, MAX_CHUNK_SIZE,
};
use vstd::prelude::*;

verus! {

/// `n` zero bytes.
pub open spec fn zeros(n: int) -> Seq<u8> {
    Seq::new(n as nat, |i: int| 0u8)
}

/// The encoding of one record.
pub open spec fn spec_file_bytes(f: DgcFileView) -> Seq<u8> {
    spec_u32_be(spec_file_size(f) as u32) + spec_i32_be(f.type_id) + spec_i32_be(f.id1)
        + spec_i32_be(f.id2) + f.data
}

/// The encoding of a sequence of records, in order.
pub open spec fn spec_files_bytes(s: Seq<DgcFileView>) -> Seq<u8>
    decreases s.len(),
{
    if s.len() == 0 {
        Seq::<u8>::empty()
    } else {
        spec_file_bytes(s[0]) + spec_files_bytes(s.drop_first())
    }
}

/// The encoding of one chunk, zero-padded to exactly `cs` bytes.
pub open spec fn spec_chunk_bytes(c: Seq<DgcFileView>, cs: int) -> Seq<u8> {
    spec_u32_be(c.len() as u32) + spec_files_bytes(c) + zeros(cs - spec_chunk_size(c))
}

/// The encoding of a sequence of chunks, in order.
pub open spec fn spec_chunks_bytes(chunks: Seq<Seq<DgcFileView>>, cs: int) -> Seq<u8>
    decreases chunks.len(),
{
    if chunks.len() == 0 {
        Seq::<u8>::empty()
    } else {
        spec_chunk_bytes(chunks[0], cs) + spec_chunks_bytes(chunks.drop_first(), cs)
    }
}

/// The encoding of a whole archive.
pub open spec fn spec_archive_bytes(a: DgcArchiveView) -> Seq<u8> {
    a.header + spec_u32_be(a.chunk_size as u32) + zeros(1788) + spec_chunks_bytes(
        a.chunks,
        a.chunk_size,
    )
}

/// A record's encoding is exactly as long as its encoded size.
pub proof fn lemma_file_bytes_len(f: DgcFileView)
    ensures
        spec_file_bytes(f).len() == spec_file_size(f),
{
}

/// The records of a chunk encode to the chunk's encoded size less its
/// 4-byte record count prefix.
pub proof fn lemma_files_bytes_len(s: Seq<DgcFileView>)
    ensures
        spec_files_bytes(s).len() == spec_chunk_size(s) - 4,
    decreases s.len(),
{
    if s.len() > 0 {
        lemma_files_bytes_len(s.drop_first());
        assert(s =~= seq![s[0]] + s.drop_first());
        lemma_chunk_size_cons(s[0], s.drop_first());
    } else {
        assert(spec_chunk_size(s) == 4);
    }
}

/// A chunk within the ceiling encodes to exactly `cs` bytes.
pub proof fn lemma_chunk_bytes_len(c: Seq<DgcFileView>, cs: int)
    requires
        spec_chunk_size(c) <= cs,
    ensures
        spec_chunk_bytes(c, cs).len() == cs,
{
    lemma_files_bytes_len(c);
    lemma_chunk_size_at_least_4(c);
}

/// Chunks within the ceiling encode to exactly `cs` bytes each.
pub proof fn lemma_chunks_bytes_len(chunks: Seq<Seq<DgcFileView>>, cs: int)
    requires
        forall|i: int|
            0 <= i < chunks.len() ==> #[trigger] spec_chunk_size(chunks[i]) <= cs,
    ensures
        spec_chunks_bytes(chunks, cs).len() == chunks.len() * cs,
    decreases chunks.len(),
{
    if chunks.len() > 0 {
        let rest = chunks.drop_first();
        assert(forall|i: int|
            0 <= i < rest.len() ==> #[trigger] spec_chunk_size(rest[i]) <= cs) by {
            assert(forall|i: int| 0 <= i < rest.len() ==> rest[i] == chunks[i + 1]);
        }
        lemma_chunks_bytes_len(rest, cs);
        lemma_chunk_bytes_len(chunks[0], cs);
        assert(chunks.len() * cs == (chunks.len() - 1) * cs + cs) by (nonlinear_arith);
    }
}

/// Appending a record extends the records' encoding by that record's bytes.
pub proof fn lemma_files_bytes_snoc(s: Seq<DgcFileView>, f: DgcFileView)
    ensures
        spec_files_bytes(s.push(f)) == spec_files_bytes(s) + spec_file_bytes(f),
    decreases s.len(),
{
    if s.len() == 0 {
        assert(s.push(f)[0] == f);
        assert(s.push(f).drop_first() =~= Seq::<DgcFileView>::empty());
        assert(spec_files_bytes(Seq::<DgcFileView>::empty()) =~= Seq::<u8>::empty());
        assert(spec_file_bytes(f) + Seq::<u8>::empty() =~= spec_file_bytes(f));
        assert(spec_files_bytes(s.push(f)) =~= spec_file_bytes(f));
        assert(spec_files_bytes(s) + spec_file_bytes(f) =~= spec_file_bytes(f));
    } else {
        assert(s.push(f)[0] == s[0]);
        assert(s.push(f).drop_first() =~= s.drop_first().push(f));
        lemma_files_bytes_snoc(s.drop_first(), f);
        vstd::seq_lib::lemma_concat_associative(
            spec_file_bytes(s[0]),
            spec_files_bytes(s.drop_first()),
            spec_file_bytes(f),
        );
    }
}

/// Appending a chunk extends the chunks' encoding by that chunk's bytes.
pub proof fn lemma_chunks_bytes_snoc(chunks: Seq<Seq<DgcFileView>>, c: Seq<DgcFileView>, cs: int)
    ensures
        spec_chunks_bytes(chunks.push(c), cs) == spec_chunks_bytes(chunks, cs) + spec_chunk_bytes(
            c,
            cs,
        ),
    decreases chunks.len(),
{
    if chunks.len() == 0 {
        assert(chunks.push(c)[0] == c);
        assert(chunks.push(c).drop_first() =~= Seq::<Seq<DgcFileView>>::empty());
        assert(spec_chunks_bytes(Seq::<Seq<DgcFileView>>::empty(), cs) =~= Seq::<u8>::empty());
        assert(spec_chunk_bytes(c, cs) + Seq::<u8>::empty() =~= spec_chunk_bytes(c, cs));
        assert(spec_chunks_bytes(chunks.push(c), cs) =~= spec_chunk_bytes(c, cs));
        assert(spec_chunks_bytes(chunks, cs) + spec_chunk_bytes(c, cs) =~= spec_chunk_bytes(c, cs));
    } else {
        assert(chunks.push(c)[0] == chunks[0]);
        assert(chunks.push(c).drop_first() =~= chunks.drop_first().push(c));
        lemma_chunks_bytes_snoc(chunks.drop_first(), c, cs);
        vstd::seq_lib::lemma_concat_associative(
            spec_chunk_bytes(chunks[0], cs),
            spec_chunks_bytes(chunks.drop_first(), cs),
            spec_chunk_bytes(c, cs),
        );
    }
}

/// A chunk's encoded size covers its 16 bytes of headers per record.
pub proof fn lemma_chunk_size_counts_records(c: Seq<DgcFileView>)
    ensures
        spec_chunk_size(c) >= 4 + 16 * c.len(),
    decreases c.len(),
{
    if c.len() > 0 {
        lemma_chunk_size_counts_records(c.drop_last());
    }
}

/// How a decode can fail.
#[derive(Clone, Copy, Debug, PartialEq, Eq, Structural)]
pub enum DgcError {
    /// The stream ends before the header region is complete.
    TruncatedHeader,
    /// A chunk runs out of bytes in the middle of a record, or a record's
    /// declared size is smaller than its own 16-byte header.
    TruncatedRecord,
}

/// The `u32` read in big-endian order from position `pos`.
pub open spec fn spec_u32_at(d: Seq<u8>, pos: int) -> u32
    recommends
        0 <= pos,
        pos + 4 <= d.len(),
{
    spec_u32_from_be(d[pos], d[pos + 1], d[pos + 2], d[pos + 3])
}

/// Parse one record at `pos` within a window that ends at `end`: a `u32`
/// size `S` at least 16, three identifiers, and `S - 16` payload bytes, all
/// of which must lie before `end`. Returns the record and the position just
/// after it.
pub open spec fn spec_parse_record(d: Seq<u8>, pos: int, end: int) -> Option<(DgcFileView, int)> {
    if 0 <= pos && pos + 16 <= end && end <= d.len() {
        let size = spec_u32_at(d, pos) as int;
        if size >= 16 && pos + size <= end {
            Some(
                (
                    DgcFileView {
                        data: d.subrange(pos + 16, pos + size),
                        type_id: spec_u32_at(d, pos + 4) as i32,
                        id1: spec_u32_at(d, pos + 8) as i32,
                        id2: spec_u32_at(d, pos + 12) as i32,
                    },
                    pos + size,
                ),
            )
        } else {
            None
        }
    } else {
        None
    }
}

/// Parse `n` consecutive records starting at `pos`.
pub open spec fn spec_parse_records(d: Seq<u8>, pos: int, end: int, n: nat) -> Option<
    (Seq<DgcFileView>, int),
>
    decreases n,
{
    if n == 0 {
        Some((Seq::<DgcFileView>::empty(), pos))
    } else {
        match spec_parse_record(d, pos, end) {
            None => None,
            Some((f, p)) => match spec_parse_records(d, p, end, (n - 1) as nat) {
                None => None,
                Some((fs, p2)) => Some((seq![f] + fs, p2)),
            },
        }
    }
}

/// Parse one chunk window `[start, end)`: a `u32` record count followed by
/// that many records; the rest of the window is padding and is ignored.
pub open spec fn spec_parse_chunk(d: Seq<u8>, start: int, end: int) -> Option<Seq<DgcFileView>> {
    if 0 <= start && start + 4 <= end && end <= d.len() {
        match spec_parse_records(d, start + 4, end, spec_u32_at(d, start) as nat) {
            None => None,
            Some((fs, _)) => Some(fs),
        }
    } else {
        None
    }
}

/// Parse `k` consecutive windows of `cs` bytes each, starting at `base`.
pub open spec fn spec_parse_chunks(d: Seq<u8>, base: int, cs: int, k: int) -> Option<
    Seq<Seq<DgcFileView>>,
>
    decreases k,
{
    if k <= 0 {
        Some(Seq::<Seq<DgcFileView>>::empty())
    } else {
        match spec_parse_chunk(d, base, base + cs) {
            None => None,
            Some(c) => match spec_parse_chunks(d, base + cs, cs, k - 1) {
                None => None,
                Some(rest) => Some(seq![c] + rest),
            },
        }
    }
}

/// Where the chunk data begins: after the 2048-byte header region, or at the
/// end of a stream whose header region is itself truncated (such a stream
/// simply has no chunks).
pub open spec fn spec_body_start(d: Seq<u8>) -> int {
    if d.len() >= 2048 {
        2048
    } else {
        d.len() as int
    }
}

/// Whether the chunk data's length is not an exact number of windows: the
/// tolerated malformed-input case, reported as a warning while the trailing
/// partial window is dropped.
pub open spec fn spec_size_mismatch(d: Seq<u8>) -> bool {
    let cs = spec_u32_at(d, 256) as int;
    let blen = d.len() - spec_body_start(d);
    if cs == 0 {
        blen > 0
    } else {
        blen % cs != 0
    }
}

/// Parse a whole archive: the 256-byte header, the chunk size, then as many
/// full `chunk_size`-byte windows as the remaining bytes hold. A stream with
/// a zero chunk size has no windows at all.
pub open spec fn spec_parse_archive(d: Seq<u8>) -> Option<DgcArchiveView> {
    if d.len() < 260 {
        None
    } else {
        let header = d.subrange(0, 256);
        let cs = spec_u32_at(d, 256) as int;
        let base = spec_body_start(d);
        let blen = d.len() - base;
        if cs == 0 {
            Some(DgcArchiveView { header, chunk_size: 0, chunks: Seq::<Seq<DgcFileView>>::empty() })
        } else {
            match spec_parse_chunks(d, base, cs, blen / cs) {
                None => None,
                Some(chunks) => Some(DgcArchiveView { header, chunk_size: cs, chunks }),
            }
        }
    }
}

impl DgcFile {
    /// Append the encoding of this record to `out`.
    /// Returns the number of bytes that were written.
    pub fn write_to(&self, out: &mut Vec<u8>) -> (n: usize)
        requires
            spec_file_size(self@) <= u32::MAX,
        ensures
            final(out)@ == old(out)@ + spec_file_bytes(self@),
            n == spec_file_size(self@),
    {
        let size = self.get_size();
        push_u32_be(out, size as u32);
        push_i32_be(out, self.type_id);
        push_i32_be(out, self.id1);
        push_i32_be(out, self.id2);
        out.extend_from_slice(self.data.as_slice());
        proof {
            assert(out@ =~= old(out)@ + spec_file_bytes(self@));
        }
        size
    }
}

impl DgcChunk {
    /// Append the encoding of this chunk to `out`, zero-padded to exactly
    /// `chunk_size` bytes.
    /// Returns the number of bytes that were written.
    pub fn write_to(&self, out: &mut Vec<u8>, chunk_size: usize) -> (n: usize)
        requires
            spec_chunk_size(self@) <= chunk_size,
            chunk_size <= MAX_CHUNK_SIZE,
        ensures
            final(out)@ == old(out)@ + spec_chunk_bytes(self@, chunk_size as int),
            n == chunk_size,
    {
        proof {
            lemma_chunk_size_counts_records(self@);
        }
        let num_files = self.get_num_files();
        push_u32_be(out, num_files as u32);
        let ghost base = out@;
        let mut i: usize = 0;
        while i < self.data.len()
            invariant
                0 <= i <= self.data.len(),
                out@ == base + spec_files_bytes(self@.take(i as int)),
                spec_chunk_size(self@) <= chunk_size <= MAX_CHUNK_SIZE,
            decreases self.data.len() - i,
        {
            proof {
                lemma_chunk_size_member(self@, i as int);
                assert(self@[i as int] == self.data[i as int]@);
            }
            let ghost taken = self@.take(i as int);
            self.data[i].write_to(out);
            proof {
                assert(self@.take(i as int + 1) =~= taken.push(self@[i as int]));
                lemma_files_bytes_snoc(taken, self@[i as int]);
                assert(out@ =~= base + spec_files_bytes(self@.take(i as int + 1)));
            }
            i = i + 1;
        }
        proof {
            assert(self@.take(self.data.len() as int) =~= self@);
        }
        let used = self.get_size();
        let ghost base2 = out@;
        let mut p: usize = used;
        while p < chunk_size
            invariant
                used <= p <= chunk_size,
                out@ == base2 + zeros(p - used),
            decreases chunk_size - p,
        {
            out.push(0u8);
            proof {
                assert(out@ =~= base2 + zeros(p + 1 - used));
            }
            p = p + 1;
        }
        proof {
            lemma_files_bytes_len(self@);
            assert(out@ =~= old(out)@ + spec_chunk_bytes(self@, chunk_size as int));
        }
        chunk_size
    }
}

impl DgcArchive {
    /// Encode this archive: the 256-byte header, the chunk size, the 1788
    /// reserved zero bytes, then every chunk padded to exactly `chunk_size`
    /// bytes.
    pub fn write_to(&self) -> (r: Vec<u8>)
        requires
            self@.wf(),
        ensures
            r@ == spec_archive_bytes(self@),
    {
        let mut out: Vec<u8> = Vec::new();
        out.extend_from_slice(self.header.legal_notice.as_slice());
        push_u32_be(&mut out, self.chunk_size as u32);
        let ghost base = out@;
        let mut p: usize = 0;
        while p < 1788
            invariant
                0 <= p <= 1788,
                out@ == base + zeros(p as int),
            decreases 1788 - p,
        {
            out.push(0u8);
            proof {
                assert(out@ =~= base + zeros(p + 1));
            }
            p = p + 1;
        }
        let ghost base2 = out@;
        let mut i: usize = 0;
        while i < self.data.len()
            invariant
                0 <= i <= self.data.len(),
                out@ == base2 + spec_chunks_bytes(self@.chunks.take(i as int), self@.chunk_size),
                self@.wf(),
            decreases self.data.len() - i,
        {
            proof {
                assert(self@.chunks[i as int] == self.data[i as int]@);
                assert(spec_chunk_size(self@.chunks[i as int]) <= self@.chunk_size);
            }
            let ghost taken = self@.chunks.take(i as int);
            self.data[i].write_to(&mut out, self.chunk_size);
            proof {
                assert(self@.chunks.take(i as int + 1) =~= taken.push(self@.chunks[i as int]));
                lemma_chunks_bytes_snoc(taken, self@.chunks[i as int], self@.chunk_size);
                assert(out@ =~= base2 + spec_chunks_bytes(
                    self@.chunks.take(i as int + 1),
                    self@.chunk_size,
                ));
            }
            i = i + 1;
        }
        proof {
            assert(self@.chunks.take(self.data.len() as int) =~= self@.chunks);
            assert(out@ =~= spec_archive_bytes(self@));
        }
        out
    }
}

/// Load one chunk from the window `[start, end)` of the stream: its record
/// count, then that many records; whatever follows them in the window is
/// padding and is ignored.
pub fn load_chunk(data: &[u8], start: usize, end: usize) -> (r: Result<DgcChunk, DgcError>)
    requires
        start <= end <= data@.len(),
    ensures
        match r {
            Ok(c) => spec_parse_chunk(data@, start as int, end as int) == Some(c@),
            Err(e) => e == DgcError::TruncatedRecord && spec_parse_chunk(
                data@,
                start as int,
                end as int,
            ) is None,
        },
{
    if end - start < 4 {
        return Err(DgcError::TruncatedRecord);
    }
    let n = u32_from_be(data[start], data[start + 1], data[start + 2], data[start + 3]);
    let mut files: Vec<DgcFile> = Vec::new();
    let mut pos: usize = start + 4;
    let mut j: u32 = 0;
    while j < n
        invariant
            start + 4 <= pos <= end <= data@.len(),
            0 <= j <= n,
            n == spec_u32_at(data@, start as int),
            match spec_parse_records(data@, pos as int, end as int, (n - j) as nat) {
                Some(r2) => spec_parse_records(data@, start as int + 4, end as int, n as nat)
                    == Some((files@.map_values(|f: DgcFile| f@) + r2.0, r2.1)),
                None => spec_parse_records(data@, start as int + 4, end as int, n as nat) is None,
            },
        decreases n - j,
    {
        if end - pos < 16 {
            return Err(DgcError::TruncatedRecord);
        }
        let size32 = u32_from_be(data[pos], data[pos + 1], data[pos + 2], data[pos + 3]);
        if size32 < 16 {
            return Err(DgcError::TruncatedRecord);
        }
        let size = size32 as usize;
        if size > end - pos {
            return Err(DgcError::TruncatedRecord);
        }
        let tid = i32_from_be(data[pos + 4], data[pos + 5], data[pos + 6], data[pos + 7]);
        let id1 = i32_from_be(data[pos + 8], data[pos + 9], data[pos + 10], data[pos + 11]);
        let id2 = i32_from_be(data[pos + 12], data[pos + 13], data[pos + 14], data[pos + 15]);
        let mut payload: Vec<u8> = Vec::new();
        let mut q: usize = pos + 16;
        while q < pos + size
            invariant
                pos + 16 <= q <= pos + size <= end <= data@.len(),
                payload@ == data@.subrange(pos as int + 16, q as int),
            decreases pos + size - q,
        {
            payload.push(data[q]);
            proof {
                assert(payload@ =~= data@.subrange(pos as int + 16, q as int + 1));
            }
            q = q + 1;
        }
        let f = DgcFile { data: payload, type_id: tid, id1, id2 };
        let ghost fsv = files@.map_values(|f: DgcFile| f@);
        proof {
            assert(spec_parse_record(data@, pos as int, end as int) == Some(
                (f@, pos as int + size as int),
            ));
        }
        files.push(f);
        proof {
            assert(files@.map_values(|g: DgcFile| g@) =~= fsv.push(f@));
            let p2 = pos as int + size as int;
            let m = (n - j - 1) as nat;
            if spec_parse_records(data@, p2, end as int, m) is Some {
                let r3 = spec_parse_records(data@, p2, end as int, m).unwrap();
                assert(spec_parse_records(data@, pos as int, end as int, (n - j) as nat) == Some(
                    (seq![f@] + r3.0, r3.1),
                ));
                vstd::seq_lib::lemma_concat_associative(fsv, seq![f@], r3.0);
                assert(fsv.push(f@) =~= fsv + seq![f@]);
            } else {
                assert(spec_parse_records(data@, pos as int, end as int, (n - j) as nat) is None);
            }
        }
        pos = pos + size;
        j = j + 1;
    }
    proof {
        assert(spec_parse_records(data@, pos as int, end as int, 0nat) == Some(
            (Seq::<DgcFileView>::empty(), pos as int),
        ));
        assert(files@.map_values(|f: DgcFile| f@) + Seq::<DgcFileView>::empty()
            =~= files@.map_values(|f: DgcFile| f@));
    }
    Ok(DgcChunk { data: files })
}

impl DgcArchive {
    /// Decode an archive from a byte stream: the 256-byte header, the chunk
    /// size, the 1788 ignored bytes, then one chunk per full window of
    /// `chunk_size` bytes. Returns the archive and a flag that reports the
    /// tolerated malformed-input case: when the chunk data is not an exact
    /// number of windows, the trailing partial window is dropped and the
    /// flag is set.
    pub fn read_from(data: &[u8]) -> (r: Result<(DgcArchive, bool), DgcError>)
        ensures
            match r {
                Ok(p) => spec_parse_archive(data@) == Some(p.0@) && p.1 == spec_size_mismatch(
                    data@,
                ),
                Err(e) => spec_parse_archive(data@) is None && (e == DgcError::TruncatedHeader
                    <==> data@.len() < 260),
            },
    {
        let n = data.len();
        if n < 260 {
            return Err(DgcError::TruncatedHeader);
        }
        let mut legal: Vec<u8> = Vec::new();
        let mut h: usize = 0;
        while h < 256
            invariant
                0 <= h <= 256,
                256 <= n == data@.len(),
                legal@ == data@.subrange(0, h as int),
            decreases 256 - h,
        {
            legal.push(data[h]);
            proof {
                assert(legal@ =~= data@.subrange(0, h as int + 1));
            }
            h = h + 1;
        }
        let cs32 = u32_from_be(data[256], data[257], data[258], data[259]);
        let cs = cs32 as usize;
        let body_start: usize = if n >= 2048 {
            2048
        } else {
            n
        };
        let body_len: usize = n - body_start;
        if cs == 0 {
            let a = DgcArchive {
                header: DgcHeader { legal_notice: legal },
                data: Vec::new(),
                chunk_size: 0,
            };
            proof {
                assert(a@.chunks =~= Seq::<Seq<DgcFileView>>::empty());
            }
            return Ok((a, body_len > 0));
        }
        let k: usize = body_len / cs;
        proof {
            vstd::arithmetic::div_mod::lemma_fundamental_div_mod(body_len as int, cs as int);
            vstd::arithmetic::div_mod::lemma_mod_bound(body_len as int, cs as int);
            assert(body_len == cs as int * (k as int) + (body_len as int) % (cs as int));
        }
        let mut chunks: Vec<DgcChunk> = Vec::new();
        let mut pos: usize = body_start;
        let mut w: usize = 0;
        while w < k
            invariant
                0 <= w <= k,
                1 <= cs,
                pos == body_start + cs as int * (w as int),
                pos as int + cs as int * ((k - w) as int) <= n,
                n == data@.len(),
                260 <= n,
                body_start == spec_body_start(data@),
                body_len == n - body_start,
                cs32 == spec_u32_at(data@, 256),
                cs == cs32 as usize,
                k == body_len as int / cs as int,
                match spec_parse_chunks(data@, pos as int, cs as int, (k - w) as int) {
                    Some(rest) => spec_parse_chunks(
                        data@,
                        body_start as int,
                        cs as int,
                        k as int,
                    ) == Some(chunks@.map_values(|c: DgcChunk| c@) + rest),
                    None => spec_parse_chunks(data@, body_start as int, cs as int, k as int)
                        is None,
                },
            decreases k - w,
        {
            proof {
                assert(cs as int * ((k - w) as int) == cs + cs as int * ((k - w - 1) as int))
                    by (nonlinear_arith);
                assert(cs as int * ((k - w - 1) as int) >= 0) by (nonlinear_arith)
                    requires
                        cs >= 1,
                        k - w >= 1,
                ;
                assert(cs as int * ((w + 1) as int) == cs as int * (w as int) + cs)
                    by (nonlinear_arith);
            }
            let wend = pos + cs;
            match load_chunk(data, pos, wend) {
                Ok(c) => {
                    let ghost csv = chunks@.map_values(|c: DgcChunk| c@);
                    let ghost cv = c@;
                    chunks.push(c);
                    proof {
                        assert(chunks@.map_values(|c: DgcChunk| c@) =~= csv.push(cv));
                        let m = (k - w - 1) as int;
                        if spec_parse_chunks(data@, wend as int, cs as int, m) is Some {
                            let rest = spec_parse_chunks(data@, wend as int, cs as int, m).unwrap();
                            assert(spec_parse_chunks(data@, pos as int, cs as int, (k - w) as int)
                                == Some(seq![cv] + rest));
                            vstd::seq_lib::lemma_concat_associative(csv, seq![cv], rest);
                            assert(csv.push(cv) =~= csv + seq![cv]);
                        } else {
                            assert(spec_parse_chunks(
                                data@,
                                pos as int,
                                cs as int,
                                (k - w) as int,
                            ) is None);
                        }
                    }
                },
                Err(e) => {
                    proof {
                        assert(spec_parse_chunks(data@, pos as int, cs as int, (k - w) as int)
                            is None);
                    }
                    return Err(e);
                },
            }
            pos = wend;
            w = w + 1;
        }
        proof {
            assert(spec_parse_chunks(data@, pos as int, cs as int, 0int) == Some(
                Seq::<Seq<DgcFileView>>::empty(),
            ));
            assert(chunks@.map_values(|c: DgcChunk| c@) + Seq::<Seq<DgcFileView>>::empty()
                =~= chunks@.map_values(|c: DgcChunk| c@));
        }
        let warn = body_len % cs != 0;
        let a = DgcArchive { header: DgcHeader { legal_notice: legal }, data: chunks, chunk_size: cs };
        Ok((a, warn))
    }
}

/// Parsing the encoding of one record yields the record back.
proof fn lemma_parse_record_of_encoding(d: Seq<u8>, pos: int, end: int, f: DgcFileView)
    requires
        spec_file_size(f) <= u32::MAX,
        0 <= pos,
        pos + spec_file_size(f) <= end <= d.len(),
        d.subrange(pos, pos + spec_file_size(f)) == spec_file_bytes(f),
    ensures
        spec_parse_record(d, pos, end) == Some((f, pos + spec_file_size(f))),
{
    let s = spec_file_size(f);
    let w = spec_file_bytes(f);
    lemma_file_bytes_len(f);
    assert(forall|i: int| 0 <= i < s ==> d[pos + i] == #[trigger] w[i]) by {
        assert(forall|i: int|
            0 <= i < s ==> #[trigger] w[i] == d.subrange(pos, pos + s)[i]);
    }
    let sz = spec_u32_be(s as u32);
    let t = spec_i32_be(f.type_id);
    let a = spec_i32_be(f.id1);
    let b = spec_i32_be(f.id2);
    assert(forall|i: int| 0 <= i < 4 ==> w[i] == #[trigger] sz[i]);
    assert(forall|i: int| 0 <= i < 4 ==> w[4 + i] == #[trigger] t[i]);
    assert(forall|i: int| 0 <= i < 4 ==> w[8 + i] == #[trigger] a[i]);
    assert(forall|i: int| 0 <= i < 4 ==> w[12 + i] == #[trigger] b[i]);
    lemma_u32_be_round_trip(s as u32);
    assert(spec_u32_at(d, pos) == s as u32);
    assert(spec_u32_at(d, pos) as int == s);
    lemma_i32_be_round_trip(f.type_id);
    lemma_i32_be_round_trip(f.id1);
    lemma_i32_be_round_trip(f.id2);
    assert(spec_u32_at(d, pos + 4) as i32 == f.type_id);
    assert(spec_u32_at(d, pos + 8) as i32 == f.id1);
    assert(spec_u32_at(d, pos + 12) as i32 == f.id2);
    assert(d.subrange(pos + 16, pos + s) =~= f.data) by {
        assert(forall|i: int| 0 <= i < f.data.len() ==> w[16 + i] == #[trigger] f.data[i]);
    }
}

/// A window that reads as a concatenation splits into windows of the parts.
proof fn lemma_subrange_split(d: Seq<u8>, pos: int, x: Seq<u8>, y: Seq<u8>)
    requires
        0 <= pos,
        pos + x.len() + y.len() <= d.len(),
        d.subrange(pos, pos + x.len() + y.len()) == x + y,
    ensures
        d.subrange(pos, pos + x.len()) == x,
        d.subrange(pos + x.len(), pos + x.len() + y.len()) == y,
{
    let w = d.subrange(pos, pos + x.len() + y.len());
    assert forall|i: int| 0 <= i < x.len() implies d.subrange(pos, pos + x.len())[i] == x[i] by {
        assert(w[i] == (x + y)[i]);
    }
    assert(d.subrange(pos, pos + x.len()) =~= x);
    assert forall|i: int|
        0 <= i < y.len() implies d.subrange(pos + x.len(), pos + x.len() + y.len())[i]
        == y[i] by {
        assert(w[x.len() + i] == (x + y)[x.len() + i]);
    }
    assert(d.subrange(pos + x.len(), pos + x.len() + y.len()) =~= y);
}

/// Parsing the encoding of a sequence of records yields the records back.
proof fn lemma_parse_records_of_encoding(d: Seq<u8>, pos: int, end: int, c: Seq<DgcFileView>)
    requires
        spec_records_le(c, u32::MAX - 4),
        0 <= pos,
        pos + spec_chunk_size(c) - 4 <= end <= d.len(),
        d.subrange(pos, pos + spec_chunk_size(c) - 4) == spec_files_bytes(c),
    ensures
        spec_parse_records(d, pos, end, c.len() as nat) == Some(
            (c, pos + spec_chunk_size(c) - 4),
        ),
    decreases c.len(),
{
    lemma_chunk_size_at_least_4(c);
    if c.len() == 0 {
        assert(spec_chunk_size(c) == 4);
    } else {
        let rest = c.drop_first();
        let s0 = spec_file_size(c[0]);
        assert(c =~= seq![c[0]] + rest);
        lemma_chunk_size_cons(c[0], rest);
        lemma_files_bytes_len(rest);
        lemma_file_bytes_len(c[0]);
        assert(spec_files_bytes(c) == spec_file_bytes(c[0]) + spec_files_bytes(rest));
        lemma_subrange_split(d, pos, spec_file_bytes(c[0]), spec_files_bytes(rest));
        assert(spec_file_size(c[0]) <= u32::MAX);
        lemma_parse_record_of_encoding(d, pos, end, c[0]);
        assert(spec_records_le(rest, u32::MAX - 4)) by {
            assert(forall|j: int| 0 <= j < rest.len() ==> rest[j] == c[j + 1]);
        }
        lemma_parse_records_of_encoding(d, pos + s0, end, rest);
        assert(spec_parse_records(d, pos, end, c.len() as nat) == Some(
            (seq![c[0]] + rest, pos + spec_chunk_size(c) - 4),
        ));
    }
}

/// Parsing the encoding of one chunk yields the chunk back.
proof fn lemma_parse_chunk_of_encoding(d: Seq<u8>, start: int, c: Seq<DgcFileView>, cs: int)
    requires
        spec_chunk_size(c) <= cs <= MAX_CHUNK_SIZE,
        0 <= start,
        start + cs <= d.len(),
        d.subrange(start, start + cs) == spec_chunk_bytes(c, cs),
    ensures
        spec_parse_chunk(d, start, start + cs) == Some(c),
{
    let w = spec_chunk_bytes(c, cs);
    lemma_chunk_bytes_len(c, cs);
    lemma_chunk_size_at_least_4(c);
    lemma_chunk_size_counts_records(c);
    lemma_files_bytes_len(c);
    assert(forall|i: int| 0 <= i < cs ==> d[start + i] == #[trigger] w[i]) by {
        assert(forall|i: int|
            0 <= i < cs ==> #[trigger] w[i] == d.subrange(start, start + cs)[i]);
    }
    let cnt = spec_u32_be(c.len() as u32);
    assert(forall|i: int| 0 <= i < 4 ==> w[i] == #[trigger] cnt[i]);
    lemma_u32_be_round_trip(c.len() as u32);
    assert(spec_u32_at(d, start) == c.len() as u32);
    assert(spec_u32_at(d, start) as nat == c.len());
    assert(spec_records_le(c, u32::MAX - 4)) by {
        assert forall|j: int| 0 <= j < c.len() implies spec_file_size(#[trigger] c[j])
            <= u32::MAX - 4 by {
            lemma_chunk_size_member(c, j);
        }
    }
    assert(d.subrange(start + 4, start + 4 + (spec_chunk_size(c) - 4))
        =~= spec_files_bytes(c)) by {
        assert(forall|i: int|
            0 <= i < spec_chunk_size(c) - 4 ==> w[4 + i] == #[trigger] spec_files_bytes(c)[i]);
    }
    lemma_parse_records_of_encoding(d, start + 4, start + cs, c);
}

/// Parsing the encoding of a sequence of chunks yields the chunks back.
proof fn lemma_parse_chunks_of_encoding(
    d: Seq<u8>,
    base: int,
    chunks: Seq<Seq<DgcFileView>>,
    cs: int,
)
    requires
        forall|i: int| 0 <= i < chunks.len() ==> #[trigger] spec_chunk_size(chunks[i]) <= cs,
        cs <= MAX_CHUNK_SIZE,
        0 <= base,
        base + chunks.len() * cs <= d.len(),
        d.subrange(base, base + chunks.len() * cs) == spec_chunks_bytes(chunks, cs),
    ensures
        spec_parse_chunks(d, base, cs, chunks.len() as int) == Some(chunks),
    decreases chunks.len(),
{
    if chunks.len() > 0 {
        let rest = chunks.drop_first();
        let total = chunks.len() * cs;
        let rtotal = rest.len() * cs;
        assert(total == cs + rtotal) by (nonlinear_arith)
            requires
                total == chunks.len() * cs,
                rtotal == rest.len() * cs,
                rest.len() == chunks.len() - 1,
        ;
        lemma_chunk_bytes_len(chunks[0], cs);
        lemma_chunks_bytes_len(rest, cs);
        assert(spec_chunks_bytes(chunks, cs) == spec_chunk_bytes(chunks[0], cs)
            + spec_chunks_bytes(rest, cs));
        lemma_subrange_split(d, base, spec_chunk_bytes(chunks[0], cs), spec_chunks_bytes(rest, cs));
        lemma_parse_chunk_of_encoding(d, base, chunks[0], cs);
        assert(forall|i: int|
            0 <= i < rest.len() ==> #[trigger] spec_chunk_size(rest[i]) <= cs) by {
            assert(forall|i: int| 0 <= i < rest.len() ==> rest[i] == chunks[i + 1]);
        }
        lemma_parse_chunks_of_encoding(d, base + cs, rest, cs);
        assert(seq![chunks[0]] + rest =~= chunks);
        assert(spec_parse_chunks(d, base, cs, chunks.len() as int) == Some(chunks));
    }
}

/// Round trip: decoding the encoding of any well-formed archive yields the
/// archive back, chunk for chunk and record for record, with no size
/// mismatch.
pub proof fn lemma_round_trip(a: DgcArchiveView)
    requires
        a.wf(),
    ensures
        spec_parse_archive(spec_archive_bytes(a)) == Some(a),
        !spec_size_mismatch(spec_archive_bytes(a)),
{
    let d = spec_archive_bytes(a);
    let cs = a.chunk_size;
    let k = a.chunks.len() as int;
    let body = spec_chunks_bytes(a.chunks, cs);
    lemma_chunks_bytes_len(a.chunks, cs);
    assert(k * cs >= 0) by (nonlinear_arith)
        requires
            k >= 0,
            cs >= 0,
    ;
    assert(d.len() == 2048 + k * cs);
    let sz = spec_u32_be(cs as u32);
    assert(forall|i: int| 0 <= i < 256 ==> d[i] == #[trigger] a.header[i]);
    assert(d.subrange(0, 256) =~= a.header);
    assert(forall|i: int| 0 <= i < 4 ==> d[256 + i] == #[trigger] sz[i]);
    lemma_u32_be_round_trip(cs as u32);
    assert(spec_u32_at(d, 256) == cs as u32);
    assert(spec_u32_at(d, 256) as int == cs);
    assert(spec_body_start(d) == 2048);
    let blen = d.len() - 2048;
    assert(blen == k * cs);
    vstd::arithmetic::div_mod::lemma_fundamental_div_mod_converse(blen, cs, k, 0);
    assert(blen / cs == k);
    assert(blen % cs == 0);
    assert(!spec_size_mismatch(d));
    assert(forall|i: int| 0 <= i < k * cs ==> d[2048 + i] == #[trigger] body[i]);
    assert(d.subrange(2048, 2048 + k * cs) =~= body);
    lemma_parse_chunks_of_encoding(d, 2048, a.chunks, cs);
    assert(spec_parse_archive(d) == Some(a));
}

} // verus!
