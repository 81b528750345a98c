//! Name hashing, output-file naming, and the pairing of a container with its
//! identifier table.

use crate::dgc::DgcArchive;
use crate::ngc::NgcArchive;
use vstd::prelude::*;
use vstd::string::*;

verus! {

/// A complete archive: the chunked container and its identifier table.
pub struct ChumArchive {
    pub dgc: DgcArchive,
    pub ngc: NgcArchive,
}

/// The CRC-32 checksum (the IEEE 802.3 polynomial, reflected, as used for
/// instance by zlib) of a byte sequence.
pub uninterp spec fn crc32_of(bytes: Seq<u8>) -> u32;

/// Relies on `crc::Crc::<u32>::checksum` with the `CRC_32_ISO_HDLC`
/// algorithm, the IEEE CRC-32: the checksum is a function of the input bytes
/// alone.
#[verifier::external_body]
fn crc32_ieee(bytes: &[u8]) -> (r: u32)
    ensures
        r == crc32_of(bytes@),
{
    crc::Crc::<u32>::new(&crc::CRC_32_ISO_HDLC).checksum(bytes)
}

/// The identifier a name hashes to: its CRC-32, reinterpreted as signed.
pub open spec fn spec_hash_name(name: Seq<char>) -> i32 {
    crc32_of(vstd::utf8::encode_utf8(name)) as i32
}

/// Hash the given name using the CRC-32 IEEE algorithm.
pub fn hash_name(name: &str) -> (r: i32)
    ensures
        r == spec_hash_name(name@),
{
    let h = crc32_ieee(name.as_bytes());
    #[verifier::truncate] (h as i32)
}

/// Whether two strings hold the same characters.
pub fn str_eq(a: &str, b: &str) -> (r: bool)
    ensures
        r == (a@ == b@),
{
    let alen = a.unicode_len();
    let blen = b.unicode_len();
    if alen != blen {
        return false;
    }
    let mut i: usize = 0;
    while i < alen
        invariant
            0 <= i <= alen,
            alen == a@.len() == b@.len(),
            forall|j: int| 0 <= j < i ==> a@[j] == b@[j],
        decreases alen - i,
    {
        if a.get_char(i) != b.get_char(i) {
            return false;
        }
        i = i + 1;
    }
    proof {
        assert(a@ =~= b@);
    }
    true
}

/// What `String::from_utf8_lossy` returns for a byte sequence: a function of
/// the bytes alone.
pub uninterp spec fn lossy_utf8(bytes: Seq<u8>) -> Seq<char>;

/// Relies on `String::from_utf8_lossy`: valid UTF-8 comes back decoded and
/// unchanged; invalid sequences are replaced; the result is a function of
/// the bytes alone.
#[verifier::external_body]
pub(crate) fn utf8_lossy(bytes: &[u8]) -> (r: String)
    ensures
        r@ == lossy_utf8(bytes@),
        vstd::utf8::valid_utf8(bytes@) ==> r@ == vstd::utf8::decode_utf8(bytes@),
{
    String::from_utf8_lossy(bytes).to_string()
}

/// What `char::is_alphanumeric` holds of a character.
pub uninterp spec fn is_alphanumeric_char(c: char) -> bool;

/// Relies on `char::is_alphanumeric`: whether the character is Unicode
/// alphabetic or numeric; a function of the character alone.
#[verifier::external_body]
fn char_is_alphanumeric(c: char) -> (r: bool)
    ensures
        r == is_alphanumeric_char(c),
{
    c.is_alphanumeric()
}

/// Text with every character that is neither alphanumeric nor a dot turned
/// into an underscore.
pub open spec fn spec_sanitize(s: Seq<char>) -> Seq<char> {
    s.map_values(
        |c: char|
            if is_alphanumeric_char(c) || c == '.' {
                c
            } else {
                '_'
            },
    )
}

/// The uppercase hexadecimal digit character for a value below sixteen.
pub open spec fn spec_hex_digit(d: nat) -> char {
    if d < 10 {
        ((48 + d) as u32) as char
    } else {
        ((55 + d) as u32) as char
    }
}

/// The uppercase hexadecimal digits of a number, most significant first.
pub open spec fn spec_hex_nat(n: nat) -> Seq<char>
    decreases n,
{
    if n < 16 {
        seq![spec_hex_digit(n)]
    } else {
        spec_hex_nat(n / 16) + seq![spec_hex_digit(n % 16)]
    }
}

/// Hexadecimal digits padded with spaces on the left to eight characters.
pub open spec fn spec_pad8(h: Seq<char>) -> Seq<char> {
    if h.len() >= 8 {
        h
    } else {
        Seq::new((8 - h.len()) as nat, |i: int| ' ') + h
    }
}

/// Index of the last dot of a name, if any.
pub open spec fn spec_find_last_dot(s: Seq<char>) -> Option<int>
    decreases s.len(),
{
    if s.len() == 0 {
        None
    } else if s.last() == '.' {
        Some(s.len() - 1)
    } else {
        spec_find_last_dot(s.drop_last())
    }
}

/// The output name before sanitizing: the identifier in brackets, padded to
/// eight characters, goes in front of the extension introduced by the last
/// dot, or at the end of a name with no dot.
pub open spec fn spec_file_string_raw(s: Seq<char>, id: u32) -> Seq<char> {
    let mid = seq!['['] + spec_pad8(spec_hex_nat(id as nat)) + seq![']'];
    match spec_find_last_dot(s) {
        Some(p) => s.subrange(0, p) + mid + s.subrange(p, s.len() as int),
        None => s + mid,
    }
}

/// Index of the last dot of the name, if any.
fn find_last_dot(s: &str) -> (r: Option<usize>)
    ensures
        match r {
            Some(p) => spec_find_last_dot(s@) == Some(p as int),
            None => spec_find_last_dot(s@) is None,
        },
{
    let len = s.unicode_len();
    let mut j: usize = len;
    proof {
        assert(s@.take(len as int) =~= s@);
    }
    while j > 0
        invariant
            0 <= j <= len == s@.len(),
            spec_find_last_dot(s@) == spec_find_last_dot(s@.take(j as int)),
        decreases j,
    {
        proof {
            assert(s@.take(j as int).last() == s@[j - 1]);
            assert(s@.take(j as int).drop_last() =~= s@.take(j as int - 1));
        }
        if s.get_char(j - 1) == '.' {
            return Some(j - 1);
        }
        j = j - 1;
    }
    proof {
        assert(s@.take(0) =~= Seq::<char>::empty());
    }
    None
}

/// Append the uppercase hexadecimal digits of `n` to `out`.
fn push_hex_u32(n: u32, out: &mut String)
    ensures
        final(out)@ == old(out)@ + spec_hex_nat(n as nat),
    decreases n,
{
    if n >= 16 {
        push_hex_u32(n / 16, out);
    }
    let d = n % 16;
    let s: &str = if d == 0 {
        "0"
    } else if d == 1 {
        "1"
    } else if d == 2 {
        "2"
    } else if d == 3 {
        "3"
    } else if d == 4 {
        "4"
    } else if d == 5 {
        "5"
    } else if d == 6 {
        "6"
    } else if d == 7 {
        "7"
    } else if d == 8 {
        "8"
    } else if d == 9 {
        "9"
    } else if d == 10 {
        "A"
    } else if d == 11 {
        "B"
    } else if d == 12 {
        "C"
    } else if d == 13 {
        "D"
    } else if d == 14 {
        "E"
    } else {
        "F"
    };
    proof {
        reveal_strlit("0");
        reveal_strlit("1");
        reveal_strlit("2");
        reveal_strlit("3");
        reveal_strlit("4");
        reveal_strlit("5");
        reveal_strlit("6");
        reveal_strlit("7");
        reveal_strlit("8");
        reveal_strlit("9");
        reveal_strlit("A");
        reveal_strlit("B");
        reveal_strlit("C");
        reveal_strlit("D");
        reveal_strlit("E");
        reveal_strlit("F");
        assert(s@ =~= seq![spec_hex_digit((n % 16) as nat)]);
    }
    out.append(s);
    proof {
        if n >= 16 {
            vstd::seq_lib::lemma_concat_associative(
                old(out)@,
                spec_hex_nat((n / 16) as nat),
                seq![spec_hex_digit((n % 16) as nat)],
            );
        } else {
            assert(spec_hex_nat(n as nat) =~= seq![spec_hex_digit(n as nat)]);
        }
    }
}

/// A number below sixteen to the `k` has at most `k` hexadecimal digits.
proof fn lemma_hex_len_le(n: nat, k: nat)
    requires
        k >= 1,
        n < vstd::arithmetic::power::pow(16, k),
    ensures
        1 <= spec_hex_nat(n).len() <= k,
    decreases k,
{
    if n >= 16 {
        assert(vstd::arithmetic::power::pow(16, k) == 16 * vstd::arithmetic::power::pow(
            16,
            (k - 1) as nat,
        )) by {
            reveal(vstd::arithmetic::power::pow);
        }
        assert(k >= 2) by {
            vstd::arithmetic::power::lemma_pow1(16);
        }
        vstd::arithmetic::div_mod::lemma_multiply_divide_lt(
            n as int,
            16,
            vstd::arithmetic::power::pow(16, (k - 1) as nat),
        );
        vstd::arithmetic::power::lemma_pow_positive(16, (k - 1) as nat);
        lemma_hex_len_le(n / 16, (k - 1) as nat);
    }
}

/// A 32-bit number has at most eight hexadecimal digits.
proof fn lemma_hex_len_u32(n: u32)
    ensures
        1 <= spec_hex_nat(n as nat).len() <= 8,
{
    assert(vstd::arithmetic::power::pow(16, 8) == 0x1_0000_0000) by {
        reveal_with_fuel(vstd::arithmetic::power::pow, 9);
    }
    lemma_hex_len_le(n as nat, 8);
}

/// The number of hexadecimal digits of `n`.
fn hex_digit_count(n: u32) -> (r: usize)
    ensures
        r == spec_hex_nat(n as nat).len(),
        1 <= r <= 8,
{
    proof {
        lemma_hex_len_u32(n);
    }
    let mut cnt: usize = 1;
    let mut t: u32 = n;
    while t >= 16
        invariant
            1 <= cnt,
            cnt + spec_hex_nat(t as nat).len() - 1 == spec_hex_nat(n as nat).len(),
            spec_hex_nat(t as nat).len() >= 1,
            spec_hex_nat(n as nat).len() <= 8,
        decreases t,
    {
        proof {
            lemma_hex_len_u32(t / 16);
        }
        t = t / 16;
        cnt = cnt + 1;
    }
    proof {
        assert(spec_hex_nat(t as nat).len() == 1);
    }
    cnt
}

/// The output file name for the given name and identifier: the identifier in
/// brackets, space-padded to eight hexadecimal digits, slotted in before the
/// name's extension; every character that is neither alphanumeric nor a dot
/// (the brackets and the padding included) becomes an underscore.
pub fn get_file_string(s: &str, id: u32) -> (r: String)
    ensures
        r@ == spec_sanitize(spec_file_string_raw(s@, id)),
{
    let len = s.unicode_len();
    let mut raw = String::new();
    let dot = find_last_dot(s);
    let split: usize = match dot {
        Some(p) => p,
        None => len,
    };
    proof {
        lemma_find_last_dot_in_range(s@);
    }
    raw.append(s.substring_char(0, split));
    proof {
        reveal_strlit("[");
    }
    raw.append("[");
    let digits = hex_digit_count(id);
    let pad_total: usize = if digits >= 8 {
        0
    } else {
        8 - digits
    };
    let mut pad: usize = 0;
    let ghost padbase = raw@;
    while pad < pad_total
        invariant
            pad <= pad_total,
            raw@ == padbase + Seq::new(pad as nat, |i: int| ' '),
        decreases pad_total - pad,
    {
        proof {
            reveal_strlit(" ");
        }
        raw.append(" ");
        proof {
            assert(raw@ =~= padbase + Seq::new((pad + 1) as nat, |i: int| ' '));
        }
        pad = pad + 1;
    }
    push_hex_u32(id, &mut raw);
    proof {
        reveal_strlit("]");
    }
    raw.append("]");
    raw.append(s.substring_char(split, len));
    proof {
        assert("["@ =~= seq!['[']) by {
            reveal_strlit("[");
        }
        assert("]"@ =~= seq![']']) by {
            reveal_strlit("]");
        }
        assert(raw@ =~= spec_file_string_raw(s@, id));
    }
    // sanitize: underscore for everything but alphanumerics and dots
    let rlen = raw.as_str().unicode_len();
    let mut out = String::new();
    let mut i: usize = 0;
    while i < rlen
        invariant
            0 <= i <= rlen == raw@.len(),
            out@ == spec_sanitize(raw@.take(i as int)),
        decreases rlen - i,
    {
        let c = raw.as_str().get_char(i);
        if char_is_alphanumeric(c) || c == '.' {
            let piece = raw.as_str().substring_char(i, i + 1);
            out.append(piece);
        } else {
            proof {
                reveal_strlit("_");
            }
            out.append("_");
        }
        proof {
            assert("_"@ =~= seq!['_']) by {
                reveal_strlit("_");
            }
            assert(out@ =~= spec_sanitize(raw@.take(i as int + 1)));
        }
        i = i + 1;
    }
    proof {
        assert(raw@.take(rlen as int) =~= raw@);
    }
    out
}

/// The last dot, when there is one, lies within the name.
proof fn lemma_find_last_dot_in_range(s: Seq<char>)
    ensures
        spec_find_last_dot(s) matches Some(p) ==> 0 <= p < s.len() && s[p] == '.',
    decreases s.len(),
{
    if s.len() > 0 && s.last() != '.' {
        lemma_find_last_dot_in_range(s.drop_last());
    }
}

} // verus!
