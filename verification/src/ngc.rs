//! The companion identifier table: a plain-text map from 32-bit identifiers
//! to names, one `<decimal id> "<name>"` line per entry, terminated by end of
//! input or a line starting with a null character.

use vstd::prelude::*;
use vstd::string::*;

verus! {

/// How parsing the identifier table can fail.
#[derive(Clone, Copy, Debug, PartialEq, Eq, Structural)]
pub enum NgcError {
    /// A line has no whitespace separating the identifier from the name.
    MissingSeparator,
    /// The identifier is not a decimal number within the 32-bit signed range.
    InvalidId,
    /// The name part is too short to carry its surrounding quotes.
    InvalidName,
}

/// The decimal digit character for a value below ten.
pub open spec fn spec_digit(d: nat) -> char {
    ((48 + d) as u32) as char
}

/// The decimal digits of an unsigned number, most significant first.
pub open spec fn spec_dec_nat(n: nat) -> Seq<char>
    decreases n,
{
    if n < 10 {
        seq![spec_digit(n)]
    } else {
        spec_dec_nat(n / 10) + seq![spec_digit(n % 10)]
    }
}

/// The decimal rendering of a signed number.
pub open spec fn spec_dec_int(x: int) -> Seq<char> {
    if x < 0 {
        seq!['-'] + spec_dec_nat((-x) as nat)
    } else {
        spec_dec_nat(x as nat)
    }
}

/// One line of the table: the identifier, a space, the name in quotes.
pub open spec fn spec_ngc_line(id: i32, name: Seq<char>) -> Seq<char> {
    spec_dec_int(id as int) + seq![' ', '"'] + name + seq!['"', '\n']
}

/// The whole table: one line per entry, in order.
pub open spec fn spec_ngc_text(entries: Seq<(i32, Seq<char>)>) -> Seq<char>
    decreases entries.len(),
{
    if entries.len() == 0 {
        Seq::<char>::empty()
    } else {
        spec_ngc_line(entries[0].0, entries[0].1) + spec_ngc_text(entries.drop_first())
    }
}

/// Appending an entry extends the table text by that entry's line.
pub proof fn lemma_ngc_text_snoc(entries: Seq<(i32, Seq<char>)>, e: (i32, Seq<char>))
    ensures
        spec_ngc_text(entries.push(e)) == spec_ngc_text(entries) + spec_ngc_line(e.0, e.1),
    decreases entries.len(),
{
    if entries.len() == 0 {
        assert(entries.push(e)[0] == e);
        assert(entries.push(e).drop_first() =~= Seq::<(i32, Seq<char>)>::empty());
        assert(spec_ngc_text(Seq::<(i32, Seq<char>)>::empty()) =~= Seq::<char>::empty());
        assert(spec_ngc_line(e.0, e.1) + Seq::<char>::empty() =~= spec_ngc_line(e.0, e.1));
        assert(spec_ngc_text(entries) + spec_ngc_line(e.0, e.1) =~= spec_ngc_line(e.0, e.1));
    } else {
        assert(entries.push(e)[0] == entries[0]);
        assert(entries.push(e).drop_first() =~= entries.drop_first().push(e));
        lemma_ngc_text_snoc(entries.drop_first(), e);
        vstd::seq_lib::lemma_concat_associative(
            spec_ngc_line(entries[0].0, entries[0].1),
            spec_ngc_text(entries.drop_first()),
            spec_ngc_line(e.0, e.1),
        );
    }
}

/// Append the decimal digits of `n` to `out`.
fn push_dec_u64(n: u64, out: &mut String)
    ensures
        final(out)@ == old(out)@ + spec_dec_nat(n as nat),
    decreases n,
{
    if n >= 10 {
        push_dec_u64(n / 10, out);
    }
    let ghost mid = out@;
    let d = n % 10;
    let s: &str = if d == 0 {
        "0"
    } else if d == 1 {
        "1"
    } else if d == 2 {
        "2"
    } else if d == 3 {
        "3"
    } else if d == 4 {
        "4"
    } else if d == 5 {
        "5"
    } else if d == 6 {
        "6"
    } else if d == 7 {
        "7"
    } else if d == 8 {
        "8"
    } else {
        "9"
    };
    proof {
        reveal_strlit("0");
        reveal_strlit("1");
        reveal_strlit("2");
        reveal_strlit("3");
        reveal_strlit("4");
        reveal_strlit("5");
        reveal_strlit("6");
        reveal_strlit("7");
        reveal_strlit("8");
        reveal_strlit("9");
        assert(s@ =~= seq![spec_digit((n % 10) as nat)]);
    }
    out.append(s);
    proof {
        if n >= 10 {
            vstd::seq_lib::lemma_concat_associative(
                old(out)@,
                spec_dec_nat((n / 10) as nat),
                seq![spec_digit((n % 10) as nat)],
            );
        } else {
            assert(spec_dec_nat(n as nat) =~= seq![spec_digit(n as nat)]);
        }
    }
}

/// Append the decimal rendering of `x`, sign included, to `out`.
fn push_dec_i32(x: i32, out: &mut String)
    ensures
        final(out)@ == old(out)@ + spec_dec_int(x as int),
{
    if x < 0 {
        proof {
            reveal_strlit("-");
        }
        out.append("-");
        let m64: i64 = -(x as i64);
        let m: u64 = m64 as u64;
        proof {
            assert(m == -(x as int));
        }
        push_dec_u64(m, out);
        proof {
            assert(seq!['-'] =~= "-"@) by {
                reveal_strlit("-");
            }
            vstd::seq_lib::lemma_concat_associative(
                old(out)@,
                seq!['-'],
                spec_dec_nat((-(x as int)) as nat),
            );
        }
    } else {
        let m: u64 = x as u64;
        push_dec_u64(m, out);
    }
}

/// The identifier table: an ordered list of (identifier, name) entries with
/// pairwise distinct identifiers.
pub struct NgcArchive {
    pub names: Vec<(i32, String)>,
}

impl View for NgcArchive {
    type V = Seq<(i32, Seq<char>)>;

    open spec fn view(&self) -> Seq<(i32, Seq<char>)> {
        self.names@.map_values(|p: (i32, String)| (p.0, p.1@))
    }
}

/// Index of the entry holding `id`, scanning in order.
pub open spec fn spec_find_key(entries: Seq<(i32, Seq<char>)>, id: i32) -> Option<int>
    decreases entries.len(),
{
    if entries.len() == 0 {
        None
    } else if entries[0].0 == id {
        Some(0int)
    } else {
        match spec_find_key(entries.drop_first(), id) {
            Some(i) => Some(i + 1),
            None => None,
        }
    }
}

/// The table after storing `name` under `id`: the existing entry for `id` is
/// replaced in place, or a new entry is appended.
pub open spec fn spec_upsert(
    entries: Seq<(i32, Seq<char>)>,
    id: i32,
    name: Seq<char>,
) -> Seq<(i32, Seq<char>)> {
    match spec_find_key(entries, id) {
        Some(i) => entries.update(i, (id, name)),
        None => entries.push((id, name)),
    }
}

/// Entries carry pairwise distinct identifiers, as a table must.
pub open spec fn unique_ids(entries: Seq<(i32, Seq<char>)>) -> bool {
    forall|i: int, j: int|
        #![trigger entries[i], entries[j]]
        0 <= i < j < entries.len() ==> entries[i].0 != entries[j].0
}

/// A successful key search lands on an entry holding the key; a failed one
/// means no entry holds it.
pub proof fn lemma_find_key_props(entries: Seq<(i32, Seq<char>)>, id: i32)
    ensures
        match spec_find_key(entries, id) {
            Some(i) => 0 <= i < entries.len() && entries[i].0 == id,
            None => forall|j: int| 0 <= j < entries.len() ==> (#[trigger] entries[j]).0 != id,
        },
    decreases entries.len(),
{
    if entries.len() > 0 && entries[0].0 != id {
        let rest = entries.drop_first();
        lemma_find_key_props(rest, id);
        match spec_find_key(rest, id) {
            Some(i) => {
                assert(entries[i + 1] == rest[i]);
            },
            None => {
                assert forall|j: int| 0 <= j < entries.len() implies (#[trigger] entries[j]).0
                    != id by {
                    if j > 0 {
                        assert(rest[j - 1] == entries[j]);
                    }
                }
            },
        }
    }
}

/// Storing an entry keeps the identifiers pairwise distinct.
pub proof fn lemma_upsert_unique(entries: Seq<(i32, Seq<char>)>, id: i32, name: Seq<char>)
    requires
        unique_ids(entries),
    ensures
        unique_ids(spec_upsert(entries, id, name)),
{
    lemma_find_key_props(entries, id);
    let r = spec_upsert(entries, id, name);
    match spec_find_key(entries, id) {
        Some(i) => {
            assert forall|a: int, b: int|
                #![trigger r[a], r[b]]
                0 <= a < b < r.len() implies r[a].0 != r[b].0 by {
                assert(entries[a].0 != entries[b].0);
            }
        },
        None => {
            assert forall|a: int, b: int|
                #![trigger r[a], r[b]]
                0 <= a < b < r.len() implies r[a].0 != r[b].0 by {
                if b < entries.len() {
                    assert(entries[a].0 != entries[b].0);
                } else {
                    assert(r[a] == entries[a]);
                    assert(r[b].0 == id);
                }
            }
        },
    }
}

/// A table parsed from well-formed accumulated entries keeps its identifiers
/// pairwise distinct.
pub proof fn lemma_parse_ngc_unique(s: Seq<char>, from: int, acc: Seq<(i32, Seq<char>)>)
    requires
        unique_ids(acc),
    ensures
        spec_parse_ngc(s, from, acc) matches Ok(r) ==> unique_ids(r),
    decreases s.len() + 1 - from,
{
    if 0 <= from < s.len() {
        let e = spec_find_nl(s, from);
        lemma_find_nl_bounds(s, from);
        let raw = s.subrange(from, e);
        let line = if e < s.len() && raw.len() > 0 && raw.last() == '\r' {
            raw.drop_last()
        } else {
            raw
        };
        if !(line.len() == 0 || line[0] == '\0') {
            match spec_parse_line(line) {
                Err(_) => {},
                Ok((id, name)) => {
                    lemma_upsert_unique(acc, id, name);
                    lemma_parse_ngc_unique(s, e + 1, spec_upsert(acc, id, name));
                },
            }
        }
    }
}

/// If no entry before `i` holds `id`, the key search resolves at `i` when
/// entry `i` holds it, and finds nothing when `i` passes the end.
pub proof fn lemma_find_key_prefix(entries: Seq<(i32, Seq<char>)>, id: i32, i: int)
    requires
        0 <= i <= entries.len(),
        forall|j: int| 0 <= j < i ==> (#[trigger] entries[j]).0 != id,
    ensures
        i < entries.len() && entries[i].0 == id ==> spec_find_key(entries, id) == Some(i),
        i == entries.len() ==> spec_find_key(entries, id) is None,
    decreases i,
{
    if i > 0 {
        let rest = entries.drop_first();
        assert(forall|j: int| 0 <= j < i - 1 ==> (#[trigger] rest[j]).0 != id) by {
            assert(forall|j: int| 0 <= j < i - 1 ==> rest[j] == entries[j + 1]);
        }
        lemma_find_key_prefix(rest, id, i - 1);
        if i < entries.len() {
            assert(rest[i - 1] == entries[i]);
        }
    }
}

impl NgcArchive {
    /// Create an empty table.
    pub fn new() -> (a: NgcArchive)
        ensures
            a@ =~= Seq::<(i32, Seq<char>)>::empty(),
    {
        let a = NgcArchive { names: Vec::new() };
        proof {
            assert(a@ =~= Seq::<(i32, Seq<char>)>::empty());
        }
        a
    }

    /// Store `name` under `id`, replacing any entry already holding `id`.
    pub fn insert(&mut self, id: i32, name: String)
        ensures
            final(self)@ == spec_upsert(old(self)@, id, name@),
            unique_ids(old(self)@) ==> unique_ids(final(self)@),
    {
        proof {
            if unique_ids(old(self)@) {
                lemma_upsert_unique(old(self)@, id, name@);
            }
        }
        let ghost entries = old(self)@;
        let n = self.names.len();
        let mut i: usize = 0;
        while i < n
            invariant
                0 <= i <= n,
                *self == *old(self),
                n == self.names.len(),
                entries == old(self)@,
                forall|j: int| 0 <= j < i ==> (#[trigger] entries[j]).0 != id,
            decreases n - i,
        {
            if self.names[i].0 == id {
                proof {
                    lemma_find_key_prefix(entries, id, i as int);
                }
                let _old_entry = self.names.remove(i);
                self.names.insert(i, (id, name));
                proof {
                    assert(self@ =~= entries.update(i as int, (id, name@)));
                }
                return ;
            }
            i = i + 1;
        }
        proof {
            lemma_find_key_prefix(entries, id, n as int);
        }
        self.names.push((id, name));
        proof {
            assert(self@ =~= entries.push((id, name@)));
        }
    }

    /// Look up the name stored under `id`.
    pub fn get(&self, id: i32) -> (r: Option<&String>)
        ensures
            match spec_find_key(self@, id) {
                Some(j) => r matches Some(s) && s@ == self@[j].1,
                None => r is None,
            },
    {
        let ghost entries = self@;
        let n = self.names.len();
        let mut i: usize = 0;
        while i < n
            invariant
                0 <= i <= n,
                n == self.names.len(),
                entries == self@,
                forall|j: int| 0 <= j < i ==> (#[trigger] entries[j]).0 != id,
            decreases n - i,
        {
            if self.names[i].0 == id {
                proof {
                    lemma_find_key_prefix(entries, id, i as int);
                }
                return Some(&self.names[i].1);
            }
            i = i + 1;
        }
        proof {
            lemma_find_key_prefix(entries, id, n as int);
        }
        None
    }

    /// Render the table as text, one line per entry, in order.
    pub fn write_to(&self) -> (r: String)
        ensures
            r@ == spec_ngc_text(self@),
    {
        let mut out = String::new();
        let mut i: usize = 0;
        while i < self.names.len()
            invariant
                0 <= i <= self.names.len(),
                out@ == spec_ngc_text(self@.take(i as int)),
            decreases self.names.len() - i,
        {
            let ghost sofar = out@;
            let ghost e = self@[i as int];
            push_dec_i32(self.names[i].0, &mut out);
            proof {
                reveal_strlit(" \"");
            }
            out.append(" \"");
            out.append(self.names[i].1.as_str());
            proof {
                reveal_strlit("\"\n");
            }
            out.append("\"\n");
            proof {
                assert(" \""@ =~= seq![' ', '"']) by {
                    reveal_strlit(" \"");
                }
                assert("\"\n"@ =~= seq!['"', '\n']) by {
                    reveal_strlit("\"\n");
                }
                assert(out@ =~= sofar + spec_ngc_line(e.0, e.1));
                assert(self@.take(i as int + 1) =~= self@.take(i as int).push(e));
                lemma_ngc_text_snoc(self@.take(i as int), e);
            }
            i = i + 1;
        }
        proof {
            assert(self@.take(self.names.len() as int) =~= self@);
        }
        out
    }
}

/// The characters the table format treats as whitespace separators: the
/// Unicode white-space set.
pub open spec fn spec_is_ws(c: char) -> bool {
    let u = c as u32;
    ||| (9 <= u && u <= 13)
    ||| u == 32
    ||| u == 0x85
    ||| u == 0xA0
    ||| u == 0x1680
    ||| (0x2000 <= u && u <= 0x200A)
    ||| u == 0x2028
    ||| u == 0x2029
    ||| u == 0x202F
    ||| u == 0x205F
    ||| u == 0x3000
}

/// Whether `c` is a whitespace separator.
fn is_ws_char(c: char) -> (r: bool)
    ensures
        r == spec_is_ws(c),
{
    let u = c as u32;
    (9 <= u && u <= 13) || u == 32 || u == 0x85 || u == 0xA0 || u == 0x1680 || (0x2000 <= u && u
        <= 0x200A) || u == 0x2028 || u == 0x2029 || u == 0x202F || u == 0x205F || u == 0x3000
}

/// Whether every character of `s` is a decimal digit.
pub open spec fn spec_all_digits(s: Seq<char>) -> bool {
    forall|i: int| 0 <= i < s.len() ==> 48 <= (#[trigger] s[i]) as u32 <= 57
}

/// The value of a sequence of decimal digits.
pub open spec fn spec_digits_val(s: Seq<char>) -> int
    decreases s.len(),
{
    if s.len() == 0 {
        0
    } else {
        spec_digits_val(s.drop_last()) * 10 + (s.last() as u32 - 48)
    }
}

/// A digit string's value only grows as digits are appended.
pub proof fn lemma_digits_val_mono(s: Seq<char>, k: int)
    requires
        spec_all_digits(s),
        0 <= k <= s.len(),
    ensures
        0 <= spec_digits_val(s.subrange(0, k)) <= spec_digits_val(s),
    decreases s.len() - k,
{
    lemma_digits_val_nonneg(s.subrange(0, k));
    if k < s.len() {
        lemma_digits_val_mono(s, k + 1);
        let p = s.subrange(0, k);
        let q = s.subrange(0, k + 1);
        assert(q.drop_last() =~= p);
        assert(48 <= q.last() as u32 <= 57);
        lemma_digits_val_nonneg(p);
        assert(spec_digits_val(q) == spec_digits_val(p) * 10 + (q.last() as u32 - 48));
        assert(spec_digits_val(p) * 10 >= spec_digits_val(p)) by (nonlinear_arith)
            requires
                spec_digits_val(p) >= 0,
        ;
    } else {
        assert(s.subrange(0, k) =~= s);
    }
}

/// A digit string's value is never negative.
pub proof fn lemma_digits_val_nonneg(s: Seq<char>)
    requires
        spec_all_digits(s),
    ensures
        spec_digits_val(s) >= 0,
    decreases s.len(),
{
    if s.len() > 0 {
        assert(spec_all_digits(s.drop_last())) by {
            assert(forall|i: int| 0 <= i < s.len() - 1 ==> s.drop_last()[i] == s[i]);
        }
        lemma_digits_val_nonneg(s.drop_last());
        assert(48 <= s.last() as u32 <= 57);
        assert(spec_digits_val(s.drop_last()) * 10 >= 0) by (nonlinear_arith)
            requires
                spec_digits_val(s.drop_last()) >= 0,
        ;
    }
}

/// The signed 32-bit number a string denotes: an optional sign, then one or
/// more decimal digits, within the 32-bit signed range; anything else
/// denotes nothing.
pub open spec fn spec_parse_i32(s: Seq<char>) -> Option<i32> {
    if s.len() == 0 {
        None
    } else {
        let neg = s[0] == '-';
        let ds = if s[0] == '-' || s[0] == '+' {
            s.drop_first()
        } else {
            s
        };
        if ds.len() == 0 || !spec_all_digits(ds) {
            None
        } else {
            let v = spec_digits_val(ds);
            if neg {
                if -v >= i32::MIN {
                    Some((-v) as i32)
                } else {
                    None
                }
            } else {
                if v <= i32::MAX {
                    Some(v as i32)
                } else {
                    None
                }
            }
        }
    }
}

/// Parse a signed 32-bit decimal number, as the identifier field of a line.
fn parse_i32_str(s: &str) -> (r: Option<i32>)
    ensures
        r == spec_parse_i32(s@),
{
    let len = s.unicode_len();
    if len == 0 {
        return None;
    }
    let first = s.get_char(0);
    let neg = first == '-';
    let has_sign = neg || first == '+';
    let start: usize = if has_sign {
        1
    } else {
        0
    };
    let ghost ds = if has_sign {
        s@.drop_first()
    } else {
        s@
    };
    proof {
        if has_sign {
            assert(ds =~= s@.subrange(1, s@.len() as int));
        } else {
            assert(ds =~= s@.subrange(0, s@.len() as int));
        }
    }
    if start == len {
        return None;
    }
    let mut acc: u64 = 0;
    let mut i: usize = start;
    while i < len
        invariant
            start <= i <= len,
            1 <= len == s@.len(),
            first == s@[0],
            neg == (s@[0] == '-'),
            has_sign == (s@[0] == '-' || s@[0] == '+'),
            start == if has_sign { 1int } else { 0int },
            start < len,
            ds == if s@[0] == '-' || s@[0] == '+' { s@.drop_first() } else { s@ },
            ds == s@.subrange(start as int, len as int),
            spec_all_digits(s@.subrange(start as int, i as int)),
            acc == spec_digits_val(s@.subrange(start as int, i as int)),
            acc <= 0x8000_0000,
        decreases len - i,
    {
        let c = s.get_char(i);
        let u = c as u32;
        if u < 48 || u > 57 {
            proof {
                assert(ds[i - start] == c);
                assert(!spec_all_digits(ds));
            }
            return None;
        }
        let d: u64 = (u - 48) as u64;
        let acc2: u64 = acc * 10 + d;
        proof {
            let p = s@.subrange(start as int, i as int);
            let q = s@.subrange(start as int, i as int + 1);
            assert(q.drop_last() =~= p);
            assert(q.last() == c);
            assert(spec_digits_val(q) == acc2);
            assert(spec_all_digits(q));
        }
        if acc2 > 0x8000_0000 {
            proof {
                if spec_all_digits(ds) {
                    lemma_digits_val_mono(ds, i as int + 1 - start);
                    assert(ds.subrange(0, i as int + 1 - start) =~= s@.subrange(
                        start as int,
                        i as int + 1,
                    ));
                    assert(spec_digits_val(ds) >= acc2);
                }
            }
            return None;
        }
        acc = acc2;
        i = i + 1;
    }
    proof {
        assert(s@.subrange(start as int, len as int) =~= ds);
    }
    if neg {
        if acc > 0x8000_0000 {
            return None;
        }
        let v64: i64 = -(acc as i64);
        Some(v64 as i32)
    } else {
        if acc > 0x7FFF_FFFF {
            return None;
        }
        Some(acc as i32)
    }
}

/// The identifier and name a line denotes: a decimal identifier up to the
/// first whitespace, then the name wrapped in two further characters (its
/// quotes). A line with no whitespace, a malformed identifier, or a name
/// part shorter than its quotes denotes the respective error.
pub open spec fn spec_parse_line(line: Seq<char>) -> Result<(i32, Seq<char>), NgcError> {
    let p = spec_find_ws(line, 0);
    if p == line.len() {
        Err(NgcError::MissingSeparator)
    } else {
        match spec_parse_i32(line.subrange(0, p)) {
            None => Err(NgcError::InvalidId),
            Some(id) => {
                if line.len() - (p + 1) < 2 {
                    Err(NgcError::InvalidName)
                } else {
                    Ok((id, line.subrange(p + 2, line.len() - 1)))
                }
            },
        }
    }
}

/// Index of the first whitespace character at or after `from`, or the
/// line's length when there is none.
pub open spec fn spec_find_ws(line: Seq<char>, from: int) -> int
    decreases line.len() - from,
{
    if from < 0 || from >= line.len() {
        line.len() as int
    } else if spec_is_ws(line[from]) {
        from
    } else {
        spec_find_ws(line, from + 1)
    }
}

/// Index of the first line break at or after `from`, or the text's length.
pub open spec fn spec_find_nl(s: Seq<char>, from: int) -> int
    decreases s.len() - from,
{
    if from < 0 || from >= s.len() {
        s.len() as int
    } else if s[from] == '\n' {
        from
    } else {
        spec_find_nl(s, from + 1)
    }
}

/// The table a text denotes, read line by line from `from` with the entries
/// `acc` gathered so far: each line's entry is stored over any earlier entry
/// with the same identifier; an empty line or one starting with a null
/// character ends the table; a malformed line is the whole text's error.
pub open spec fn spec_parse_ngc(
    s: Seq<char>,
    from: int,
    acc: Seq<(i32, Seq<char>)>,
) -> Result<Seq<(i32, Seq<char>)>, NgcError>
    decreases s.len() + 1 - from,
    via spec_parse_ngc_decreases
{
    if from < 0 || from >= s.len() {
        Ok(acc)
    } else {
        let e = spec_find_nl(s, from);
        let raw = s.subrange(from, e);
        let line = if e < s.len() && raw.len() > 0 && raw.last() == '\r' {
            raw.drop_last()
        } else {
            raw
        };
        if line.len() == 0 || line[0] == '\0' {
            Ok(acc)
        } else {
            match spec_parse_line(line) {
                Err(err) => Err(err),
                Ok((id, name)) => spec_parse_ngc(s, e + 1, spec_upsert(acc, id, name)),
            }
        }
    }
}

#[via_fn]
proof fn spec_parse_ngc_decreases(s: Seq<char>, from: int, acc: Seq<(i32, Seq<char>)>) {
    if 0 <= from < s.len() {
        lemma_find_nl_bounds(s, from);
    }
}

/// The decimal digits of a number are digit characters denoting the number.
proof fn lemma_dec_nat_val(n: nat)
    ensures
        spec_dec_nat(n).len() >= 1,
        forall|i: int|
            0 <= i < spec_dec_nat(n).len() ==> 48 <= (#[trigger] spec_dec_nat(n)[i]) as int <= 57,
        spec_all_digits(spec_dec_nat(n)),
        spec_digits_val(spec_dec_nat(n)) == n,
    decreases n,
{
    if n < 10 {
        let s = spec_dec_nat(n);
        assert(s =~= seq![spec_digit(n)]);
        assert(spec_digit(n) as int == 48 + n);
        assert(s.drop_last() =~= Seq::<char>::empty());
        assert(spec_digits_val(Seq::<char>::empty()) == 0);
    } else {
        lemma_dec_nat_val(n / 10);
        let p = spec_dec_nat(n / 10);
        let s = spec_dec_nat(n);
        assert(s == p + seq![spec_digit(n % 10)]);
        assert(spec_digit(n % 10) as int == 48 + n % 10);
        assert(forall|i: int| 0 <= i < p.len() ==> s[i] == p[i]);
        assert(s.last() == spec_digit(n % 10));
        assert(s.drop_last() =~= p);
        assert(spec_digits_val(s) == spec_digits_val(p) * 10 + (n % 10));
        vstd::arithmetic::div_mod::lemma_fundamental_div_mod(n as int, 10);
    }
}

/// Parsing the decimal rendering of a 32-bit number yields the number back.
pub proof fn lemma_dec_int_parse(x: i32)
    ensures
        spec_parse_i32(spec_dec_int(x as int)) == Some(x),
{
    if x >= 0 {
        let s = spec_dec_int(x as int);
        assert(s == spec_dec_nat(x as nat));
        lemma_dec_nat_val(x as nat);
        assert(s[0] as int != 45 && s[0] as int != 43);
        assert(s[0] != '-' && s[0] != '+');
        assert(spec_digits_val(s) == x);
    } else {
        let m = (-(x as int)) as nat;
        let d = spec_dec_nat(m);
        let s = spec_dec_int(x as int);
        assert(s == seq!['-'] + d);
        lemma_dec_nat_val(m);
        assert(s[0] == '-');
        assert(s.drop_first() =~= d);
        assert(spec_digits_val(d) == m);
        assert(-(m as int) >= i32::MIN);
    }
}

/// A name the table can carry on one line: free of line breaks.
pub open spec fn spec_name_ok(name: Seq<char>) -> bool {
    forall|k: int| 0 <= k < name.len() ==> (#[trigger] name[k]) as int != 10
}

/// When no entry holds `id`, the key search finds nothing.
proof fn lemma_find_key_absent(entries: Seq<(i32, Seq<char>)>, id: i32)
    requires
        forall|j: int| 0 <= j < entries.len() ==> (#[trigger] entries[j]).0 != id,
    ensures
        spec_find_key(entries, id) is None,
    decreases entries.len(),
{
    if entries.len() > 0 {
        let rest = entries.drop_first();
        assert(forall|j: int| 0 <= j < rest.len() ==> #[trigger] rest[j] == entries[j + 1]);
        lemma_find_key_absent(rest, id);
    }
}

/// Parsing one rendered line, its line break stripped, yields the entry back.
proof fn lemma_line_round_trip(id: i32, name: Seq<char>)
    requires
        spec_name_ok(name),
    ensures
        spec_parse_line(spec_dec_int(id as int) + seq![' ', '"'] + name + seq!['"']) == Ok::<
            _,
            NgcError,
        >((id, name)),
{
    let d = spec_dec_int(id as int);
    let line = d + seq![' ', '"'] + name + seq!['"'];
    lemma_dec_int_digits(id);
    let p = d.len() as int;
    assert(forall|j: int| 0 <= j < p ==> line[j] == d[j]);
    assert(line[p] == ' ');
    assert forall|j: int| 0 <= j < p implies !spec_is_ws(#[trigger] line[j]) by {
        assert(line[j] == d[j]);
        assert(d[j] as int == 45 || 48 <= d[j] as int <= 57);
    }
    lemma_find_ws_from(line, 0, p);
    assert(spec_is_ws(line[p]));
    assert(spec_find_ws(line, p) == p);
    assert(spec_find_ws(line, 0) == p);
    assert(p < line.len());
    assert(line.subrange(0, p) =~= d);
    lemma_dec_int_parse(id);
    assert(spec_parse_i32(line.subrange(0, p)) == Some(id));
    assert(line.len() - (p + 1) == name.len() + 2);
    assert(line.subrange(p + 2, line.len() - 1) =~= name);
}

/// The decimal rendering of a number holds only digits and a leading sign.
proof fn lemma_dec_int_digits(id: i32)
    ensures
        spec_dec_int(id as int).len() >= 1,
        forall|j: int|
            0 <= j < spec_dec_int(id as int).len() ==> (#[trigger] spec_dec_int(id as int)[j]) as int
                == 45 || 48 <= spec_dec_int(id as int)[j] as int <= 57,
{
    let d = spec_dec_int(id as int);
    if id >= 0 {
        lemma_dec_nat_val(id as nat);
    } else {
        let m = (-(id as int)) as nat;
        lemma_dec_nat_val(m);
        assert(d == seq!['-'] + spec_dec_nat(m));
        assert(d[0] as int == 45);
        assert(forall|j: int| 1 <= j < d.len() ==> d[j] == #[trigger] spec_dec_nat(m)[j - 1]);
    }
}

/// Parsing a rendered table from position `from`, with `acc` already
/// gathered, appends exactly the rendered entries: their identifiers are new
/// and pairwise distinct, so no entry replaces another.
proof fn lemma_parse_text(
    s: Seq<char>,
    from: int,
    entries: Seq<(i32, Seq<char>)>,
    acc: Seq<(i32, Seq<char>)>,
)
    requires
        0 <= from <= s.len(),
        s.subrange(from, s.len() as int) == spec_ngc_text(entries),
        unique_ids(entries),
        forall|k: int| 0 <= k < entries.len() ==> spec_name_ok((#[trigger] entries[k]).1),
        forall|k: int, j: int|
            #![trigger entries[k], acc[j]]
            0 <= k < entries.len() && 0 <= j < acc.len() ==> entries[k].0 != acc[j].0,
    ensures
        spec_parse_ngc(s, from, acc) == Ok::<_, NgcError>(acc + entries),
    decreases entries.len(),
{
    if entries.len() == 0 {
        assert(spec_ngc_text(entries).len() == 0);
        assert(from == s.len());
        assert(acc + entries =~= acc);
    } else {
        let id = entries[0].0;
        let name = entries[0].1;
        let rest = entries.drop_first();
        let d = spec_dec_int(id as int);
        let line = d + seq![' ', '"'] + name + seq!['"'];
        let full = spec_ngc_line(id, name);
        assert(full =~= line + seq!['\n']);
        let text = spec_ngc_text(entries);
        assert(text == full + spec_ngc_text(rest));
        assert(forall|i: int| 0 <= i < text.len() ==> s[from + i] == #[trigger] text[i]) by {
            assert(forall|i: int|
                0 <= i < text.len() ==> #[trigger] text[i] == s.subrange(from, s.len() as int)[i]);
        }
        let ll = line.len() as int;
        lemma_dec_int_digits(id);
        assert(entries[0].1 == name);
        assert(spec_name_ok(name));
        // the line holds no line break, and one follows it
        assert forall|j: int| from <= j < from + ll implies (#[trigger] s[j]) != '\n' by {
            let i = j - from;
            assert(s[j] == text[i]);
            assert(text[i] == line[i]);
            if i < d.len() {
                assert(line[i] == d[i]);
                assert(d[i] as int == 45 || 48 <= d[i] as int <= 57);
            } else if i == d.len() {
                assert(line[i] == ' ');
            } else if i == d.len() + 1 {
                assert(line[i] == '"');
            } else if i < d.len() + 2 + name.len() {
                assert(line[i] == name[i - d.len() - 2]);
                assert(name[i - d.len() - 2] as int != 10);
            } else {
                assert(line[i] == '"');
            }
        }
        assert(s[from + ll] == text[ll]);
        assert(text[ll] == '\n');
        lemma_find_nl_from(s, from, from + ll);
        assert(spec_find_nl(s, from + ll) == from + ll);
        let e = from + ll;
        assert(spec_find_nl(s, from) == e);
        assert(e < s.len());
        let raw = s.subrange(from, e);
        assert(raw =~= line);
        assert(raw.last() == '"');
        assert(raw.last() as int == 34);
        assert(raw.last() != '\r');
        assert(raw.len() > 0);
        assert(raw[0] == line[0]);
        assert(line[0] == d[0]);
        assert(raw[0] as int != 0);
        assert(raw[0] != '\0');
        lemma_line_round_trip(id, name);
        assert(spec_parse_line(raw) == Ok::<_, NgcError>((id, name)));
        // the entry is new: it is appended, replacing nothing
        assert forall|j: int| 0 <= j < acc.len() implies (#[trigger] acc[j]).0 != id by {
            assert(entries[0].0 != acc[j].0);
        }
        lemma_find_key_absent(acc, id);
        assert(spec_upsert(acc, id, name) == acc.push((id, name)));
        let acc2 = acc.push((id, name));
        assert(s.subrange(e + 1, s.len() as int) =~= spec_ngc_text(rest)) by {
            assert(forall|i: int|
                0 <= i < spec_ngc_text(rest).len() ==> #[trigger] spec_ngc_text(rest)[i]
                    == text[ll + 1 + i]);
        }
        assert(forall|j: int| 0 <= j < rest.len() ==> #[trigger] rest[j] == entries[j + 1]);
        assert forall|k: int, j: int|
            #![trigger rest[k], acc2[j]]
            0 <= k < rest.len() && 0 <= j < acc2.len() implies rest[k].0 != acc2[j].0 by {
            assert(rest[k] == entries[k + 1]);
            if j < acc.len() {
                assert(acc2[j] == acc[j]);
                assert(entries[k + 1].0 != acc[j].0);
            } else {
                assert(acc2[j] == (id, name));
                assert(entries[k + 1].0 != entries[0].0);
            }
        }
        lemma_parse_text(s, e + 1, rest, acc2);
        assert(acc2 + rest =~= acc + entries);
        assert(spec_parse_ngc(s, from, acc) == spec_parse_ngc(s, e + 1, acc2));
    }
}

/// Round trip: parsing the rendered table yields the table back, entry for
/// entry, whenever the identifiers are pairwise distinct and no name holds a
/// line break.
pub proof fn lemma_table_round_trip(entries: Seq<(i32, Seq<char>)>)
    requires
        unique_ids(entries),
        forall|k: int| 0 <= k < entries.len() ==> spec_name_ok((#[trigger] entries[k]).1),
    ensures
        spec_parse_ngc(spec_ngc_text(entries), 0, Seq::<(i32, Seq<char>)>::empty()) == Ok::<
            _,
            NgcError,
        >(entries),
{
    let s = spec_ngc_text(entries);
    assert(s.subrange(0, s.len() as int) =~= s);
    lemma_parse_text(s, 0, entries, Seq::<(i32, Seq<char>)>::empty());
    assert(Seq::<(i32, Seq<char>)>::empty() + entries =~= entries);
}

/// Skipping a stretch with no whitespace does not move the separator search.
proof fn lemma_find_ws_from(s: Seq<char>, from: int, i: int)
    requires
        0 <= from <= i <= s.len(),
        forall|j: int| from <= j < i ==> !spec_is_ws(#[trigger] s[j]),
    ensures
        spec_find_ws(s, from) == spec_find_ws(s, i),
    decreases i - from,
{
    if from < i {
        lemma_find_ws_from(s, from + 1, i);
    }
}

/// Skipping a stretch with no line break does not move the line-break search.
proof fn lemma_find_nl_from(s: Seq<char>, from: int, i: int)
    requires
        0 <= from <= i <= s.len(),
        forall|j: int| from <= j < i ==> (#[trigger] s[j]) != '\n',
    ensures
        spec_find_nl(s, from) == spec_find_nl(s, i),
    decreases i - from,
{
    if from < i {
        lemma_find_nl_from(s, from + 1, i);
    }
}

/// Index of the first whitespace character of the line, or its length.
fn find_ws_index(line: &str) -> (r: usize)
    ensures
        r == spec_find_ws(line@, 0),
{
    let len = line.unicode_len();
    let mut p: usize = 0;
    while p < len
        invariant
            0 <= p <= len == line@.len(),
            forall|j: int| 0 <= j < p ==> !spec_is_ws(#[trigger] line@[j]),
        decreases len - p,
    {
        if is_ws_char(line.get_char(p)) {
            proof {
                lemma_find_ws_from(line@, 0, p as int);
            }
            return p;
        }
        p = p + 1;
    }
    proof {
        lemma_find_ws_from(line@, 0, len as int);
    }
    len
}

/// Index of the first line break at or after `from`, or the text's length.
fn find_nl_index(s: &str, from: usize) -> (r: usize)
    requires
        from <= s@.len(),
    ensures
        r == spec_find_nl(s@, from as int),
        from <= r <= s@.len(),
{
    let len = s.unicode_len();
    let mut p: usize = from;
    while p < len
        invariant
            from <= p <= len == s@.len(),
            forall|j: int| from <= j < p ==> (#[trigger] s@[j]) != '\n',
        decreases len - p,
    {
        if s.get_char(p) == '\n' {
            proof {
                lemma_find_nl_from(s@, from as int, p as int);
            }
            return p;
        }
        p = p + 1;
    }
    proof {
        lemma_find_nl_from(s@, from as int, len as int);
    }
    len
}

/// Parse one line of the table into its identifier and name.
fn parse_line(line: &str) -> (r: Result<(i32, String), NgcError>)
    ensures
        match r {
            Ok(p) => spec_parse_line(line@) == Ok::<_, NgcError>((p.0, p.1@)),
            Err(e) => spec_parse_line(line@) == Err::<(i32, Seq<char>), _>(e),
        },
{
    let len = line.unicode_len();
    let p = find_ws_index(line);
    if p == len {
        return Err(NgcError::MissingSeparator);
    }
    proof {
        lemma_find_ws_bounds(line@, 0);
    }
    let id_str = line.substring_char(0, p);
    let id = match parse_i32_str(id_str) {
        None => {
            return Err(NgcError::InvalidId);
        },
        Some(v) => v,
    };
    if len - (p + 1) < 2 {
        return Err(NgcError::InvalidName);
    }
    let name = line.substring_char(p + 2, len - 1);
    Ok((id, name.to_owned()))
}

/// The separator search never looks backwards nor past the end.
proof fn lemma_find_ws_bounds(s: Seq<char>, from: int)
    requires
        0 <= from <= s.len(),
    ensures
        from <= spec_find_ws(s, from) <= s.len(),
    decreases s.len() - from,
{
    if from < s.len() && !spec_is_ws(s[from]) {
        lemma_find_ws_bounds(s, from + 1);
    }
}

impl NgcArchive {
    /// Parse the identifier table from text: one entry per line, each stored
    /// over any earlier entry with the same identifier, up to the end of the
    /// input, an empty line, or a line starting with a null character.
    pub fn read_from(input: &str) -> (r: Result<NgcArchive, NgcError>)
        ensures
            match r {
                Ok(a) => spec_parse_ngc(input@, 0, Seq::<(i32, Seq<char>)>::empty()) == Ok::<
                    _,
                    NgcError,
                >(a@) && unique_ids(a@),
                Err(e) => spec_parse_ngc(input@, 0, Seq::<(i32, Seq<char>)>::empty()) == Err::<
                    Seq<(i32, Seq<char>)>,
                    _,
                >(e),
            },
    {
        let len = input.unicode_len();
        let mut a = NgcArchive::new();
        let mut pos: usize = 0;
        proof {
            lemma_parse_ngc_unique(input@, 0, Seq::<(i32, Seq<char>)>::empty());
        }
        while pos < len
            invariant
                0 <= pos <= len + 1,
                len == input@.len(),
                spec_parse_ngc(input@, 0, Seq::<(i32, Seq<char>)>::empty()) == spec_parse_ngc(
                    input@,
                    pos as int,
                    a@,
                ),
            decreases len + 1 - pos,
        {
            let e = find_nl_index(input, pos);
            let ghost raw = input@.subrange(pos as int, e as int);
            let mut le = e;
            if e < len && e > pos {
                if input.get_char(e - 1) == '\r' {
                    le = e - 1;
                }
            }
            let ghost lv = if e < input@.len() && raw.len() > 0 && raw.last() == '\r' {
                raw.drop_last()
            } else {
                raw
            };
            proof {
                assert(lv =~= input@.subrange(pos as int, le as int));
            }
            if le == pos {
                proof {
                    lemma_parse_ngc_unique(input@, 0, Seq::<(i32, Seq<char>)>::empty());
                }
                return Ok(a);
            }
            if input.get_char(pos) == '\0' {
                proof {
                    lemma_parse_ngc_unique(input@, 0, Seq::<(i32, Seq<char>)>::empty());
                }
                return Ok(a);
            }
            let line = input.substring_char(pos, le);
            match parse_line(line) {
                Err(err) => {
                    return Err(err);
                },
                Ok((id, name)) => {
                    let ghost nv = name@;
                    let ghost av = a@;
                    a.insert(id, name);
                    proof {
                        assert(a@ == spec_upsert(av, id, nv));
                        assert(spec_parse_ngc(input@, pos as int, av) == spec_parse_ngc(
                            input@,
                            e as int + 1,
                            a@,
                        ));
                    }
                    if e == len {
                        proof {
                            assert(spec_parse_ngc(input@, e as int + 1, a@) == Ok::<_, NgcError>(
                                a@,
                            ));
                            assert(spec_parse_ngc(input@, len as int, a@) == Ok::<_, NgcError>(a@));
                        }
                        pos = len;
                    } else {
                        pos = e + 1;
                    }
                },
            }
        }
        Ok(a)
    }
}

/// The line-break search never looks backwards nor past the end.
pub proof fn lemma_find_nl_bounds(s: Seq<char>, from: int)
    requires
        0 <= from <= s.len(),
    ensures
        from <= spec_find_nl(s, from) <= s.len(),
    decreases s.len() - from,
{
    if from < s.len() && s[from] != '\n' {
        lemma_find_nl_bounds(s, from + 1);
    }
}

} // verus!
