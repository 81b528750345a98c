//! Big-endian encodings of 32-bit integers as byte sequences.

use vstd::prelude::*;

verus! {

/// The four big-endian bytes of a `u32`, most significant first.
pub open spec fn spec_u32_be(x: u32) -> Seq<u8> {
    seq![
        (x / 0x1000000) as u8,
        ((x / 0x10000) % 0x100) as u8,
        ((x / 0x100) % 0x100) as u8,
        (x % 0x100) as u8,
    ]
}

/// The `u32` denoted by four bytes read in big-endian order.
pub open spec fn spec_u32_from_be(b0: u8, b1: u8, b2: u8, b3: u8) -> u32 {
    (b0 * 0x1000000 + b1 * 0x10000 + b2 * 0x100 + b3) as u32
}

/// The four big-endian bytes of an `i32` in two's complement.
pub open spec fn spec_i32_be(x: i32) -> Seq<u8> {
    spec_u32_be(x as u32)
}

/// Reading back the four bytes of a `u32` yields the same value.
pub proof fn lemma_u32_be_round_trip(x: u32)
    ensures
        spec_u32_from_be(
            spec_u32_be(x)[0],
            spec_u32_be(x)[1],
            spec_u32_be(x)[2],
            spec_u32_be(x)[3],
        ) == x,
{
    assert((x / 0x1000000) as u8 as u32 * 0x1000000 + ((x / 0x10000) % 0x100) as u8 as u32
        * 0x10000 + ((x / 0x100) % 0x100) as u8 as u32 * 0x100 + (x % 0x100) as u8 as u32
        == x) by (bit_vector);
}

/// Reading back the four bytes of an `i32` yields the same value.
pub proof fn lemma_i32_be_round_trip(x: i32)
    ensures
        spec_u32_from_be(
            spec_i32_be(x)[0],
            spec_i32_be(x)[1],
            spec_i32_be(x)[2],
            spec_i32_be(x)[3],
        ) as i32 == x,
{
    lemma_u32_be_round_trip(x as u32);
    assert((x as u32) as i32 == x) by (bit_vector);
}

/// Append the big-endian bytes of `x` to `out`.
pub fn push_u32_be(out: &mut Vec<u8>, x: u32)
    ensures
        final(out)@ == old(out)@ + spec_u32_be(x),
{
    out.push((x / 0x1000000) as u8);
    out.push(((x / 0x10000) % 0x100) as u8);
    out.push(((x / 0x100) % 0x100) as u8);
    out.push((x % 0x100) as u8);
    assert(out@ =~= old(out)@ + spec_u32_be(x));
}

/// Append the big-endian bytes of `x` to `out`.
pub fn push_i32_be(out: &mut Vec<u8>, x: i32)
    ensures
        final(out)@ == old(out)@ + spec_i32_be(x),
{
    let ux: u32 = x as u32;
    push_u32_be(out, ux);
}

/// Read a big-endian `u32` from four bytes.
pub fn u32_from_be(b0: u8, b1: u8, b2: u8, b3: u8) -> (x: u32)
    ensures
        x == spec_u32_from_be(b0, b1, b2, b3),
{
    let x: u32 = b0 as u32 * 0x1000000 + b1 as u32 * 0x10000 + b2 as u32 * 0x100 + b3 as u32;
    x
}

/// Read a big-endian `i32` from four bytes.
pub fn i32_from_be(b0: u8, b1: u8, b2: u8, b3: u8) -> (x: i32)
    ensures
        x == spec_u32_from_be(b0, b1, b2, b3) as i32,
{
    u32_from_be(b0, b1, b2, b3) as i32
}

} // verus!
