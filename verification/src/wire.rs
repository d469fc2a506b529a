//! Big-endian encodings of the fixed-width integers that appear in the
//! snapshot format. The little-endian encodings used inside string-pool
//! tokens come from `vstd::bytes`; everything byte-order-sensitive is kept
//! either here or there, so the mixed byte orders of the format are visible
//! in one place.

use vstd::prelude::*;

verus! {

pub open spec fn spec_u16_to_be(x: u16) -> Seq<u8> {
    seq![((x >> 8) & 0xff) as u8, (x & 0xff) as u8]
}

pub open spec fn spec_u16_from_be(s: Seq<u8>) -> u16
    recommends
        s.len() == 2,
{
    ((s[0] as u16) << 8) | (s[1] as u16)
}

pub open spec fn spec_u32_to_be(x: u32) -> Seq<u8> {
    seq![
        ((x >> 24) & 0xff) as u8,
        ((x >> 16) & 0xff) as u8,
        ((x >> 8) & 0xff) as u8,
        (x & 0xff) as u8,
    ]
}

pub open spec fn spec_u32_from_be(s: Seq<u8>) -> u32
    recommends
        s.len() == 4,
{
    ((s[0] as u32) << 24) | ((s[1] as u32) << 16) | ((s[2] as u32) << 8) | (s[3] as u32)
}

pub open spec fn spec_u128_to_be(x: u128) -> Seq<u8> {
    seq![
        ((x >> 120) & 0xff) as u8,
        ((x >> 112) & 0xff) as u8,
        ((x >> 104) & 0xff) as u8,
        ((x >> 96) & 0xff) as u8,
        ((x >> 88) & 0xff) as u8,
        ((x >> 80) & 0xff) as u8,
        ((x >> 72) & 0xff) as u8,
        ((x >> 64) & 0xff) as u8,
        ((x >> 56) & 0xff) as u8,
        ((x >> 48) & 0xff) as u8,
        ((x >> 40) & 0xff) as u8,
        ((x >> 32) & 0xff) as u8,
        ((x >> 24) & 0xff) as u8,
        ((x >> 16) & 0xff) as u8,
        ((x >> 8) & 0xff) as u8,
        (x & 0xff) as u8,
    ]
}

pub open spec fn spec_u128_from_be(s: Seq<u8>) -> u128
    recommends
        s.len() == 16,
{
    ((s[0] as u128) << 120) | ((s[1] as u128) << 112) | ((s[2] as u128) << 104) | ((s[3]
        as u128) << 96) | ((s[4] as u128) << 88) | ((s[5] as u128) << 80) | ((s[6] as u128) << 72)
        | ((s[7] as u128) << 64) | ((s[8] as u128) << 56) | ((s[9] as u128) << 48) | ((s[10]
        as u128) << 40) | ((s[11] as u128) << 32) | ((s[12] as u128) << 24) | ((s[13]
        as u128) << 16) | ((s[14] as u128) << 8) | (s[15] as u128)
}

/// Decoding the big-endian bytes of a `u16` gives the number back.
pub proof fn lemma_u16_be_round_trip(x: u16)
    ensures
        spec_u16_from_be(spec_u16_to_be(x)) == x,
{
    assert((((((x >> 8) & 0xff) as u8) as u16) << 8) | (((x & 0xff) as u8) as u16) == x)
        by (bit_vector);
}

/// Decoding the big-endian bytes of a `u32` gives the number back.
pub proof fn lemma_u32_be_round_trip(x: u32)
    ensures
        spec_u32_from_be(spec_u32_to_be(x)) == x,
{
    assert((((((x >> 24) & 0xff) as u8) as u32) << 24) | (((((x >> 16) & 0xff) as u8) as u32)
        << 16) | (((((x >> 8) & 0xff) as u8) as u32) << 8) | ((((x & 0xff) as u8) as u32)) == x)
        by (bit_vector);
}

/// Decoding the big-endian bytes of a `u128` gives the number back.
pub proof fn lemma_u128_be_round_trip(x: u128)
    ensures
        spec_u128_from_be(spec_u128_to_be(x)) == x,
{
    assert((((((x >> 120) & 0xff) as u8) as u128) << 120) | (((((x >> 112) & 0xff) as u8) as u128)
        << 112) | (((((x >> 104) & 0xff) as u8) as u128) << 104) | (((((x >> 96) & 0xff) as u8)
        as u128) << 96) | (((((x >> 88) & 0xff) as u8) as u128) << 88) | (((((x >> 80) & 0xff)
        as u8) as u128) << 80) | (((((x >> 72) & 0xff) as u8) as u128) << 72) | (((((x >> 64)
        & 0xff) as u8) as u128) << 64) | (((((x >> 56) & 0xff) as u8) as u128) << 56) | (((((x
        >> 48) & 0xff) as u8) as u128) << 48) | (((((x >> 40) & 0xff) as u8) as u128) << 40) | ((((
    (x >> 32) & 0xff) as u8) as u128) << 32) | (((((x >> 24) & 0xff) as u8) as u128) << 24) | ((((
    (x >> 16) & 0xff) as u8) as u128) << 16) | (((((x >> 8) & 0xff) as u8) as u128) << 8) | ((((x
        & 0xff) as u8) as u128)) == x) by (bit_vector);
}

/// Append the big-endian bytes of `x` to `out`.
pub fn push_u16_be(out: &mut Vec<u8>, x: u16)
    ensures
        final(out)@ == old(out)@ + spec_u16_to_be(x),
{
    out.push(((x >> 8) & 0xff) as u8);
    out.push((x & 0xff) as u8);
    assert(out@ =~= old(out)@ + spec_u16_to_be(x));
}

/// Append the big-endian bytes of `x` to `out`.
pub fn push_u32_be(out: &mut Vec<u8>, x: u32)
    ensures
        final(out)@ == old(out)@ + spec_u32_to_be(x),
{
    out.push(((x >> 24) & 0xff) as u8);
    out.push(((x >> 16) & 0xff) as u8);
    out.push(((x >> 8) & 0xff) as u8);
    out.push((x & 0xff) as u8);
    assert(out@ =~= old(out)@ + spec_u32_to_be(x));
}

/// Append the big-endian bytes of `x` to `out`.
pub fn push_u128_be(out: &mut Vec<u8>, x: u128)
    ensures
        final(out)@ == old(out)@ + spec_u128_to_be(x),
{
    out.push(((x >> 120) & 0xff) as u8);
    out.push(((x >> 112) & 0xff) as u8);
    out.push(((x >> 104) & 0xff) as u8);
    out.push(((x >> 96) & 0xff) as u8);
    out.push(((x >> 88) & 0xff) as u8);
    out.push(((x >> 80) & 0xff) as u8);
    out.push(((x >> 72) & 0xff) as u8);
    out.push(((x >> 64) & 0xff) as u8);
    out.push(((x >> 56) & 0xff) as u8);
    out.push(((x >> 48) & 0xff) as u8);
    out.push(((x >> 40) & 0xff) as u8);
    out.push(((x >> 32) & 0xff) as u8);
    out.push(((x >> 24) & 0xff) as u8);
    out.push(((x >> 16) & 0xff) as u8);
    out.push(((x >> 8) & 0xff) as u8);
    out.push((x & 0xff) as u8);
    assert(out@ =~= old(out)@ + spec_u128_to_be(x));
}

/// Read a big-endian `u16` from `bytes` starting at `at`.
pub fn read_u16_be(bytes: &[u8], at: usize) -> (r: u16)
    requires
        at + 2 <= bytes@.len(),
    ensures
        r == spec_u16_from_be(bytes@.subrange(at as int, at + 2)),
{
    let n = bytes.len();
    let b0 = *vstd::slice::slice_index_get(bytes, at);
    let b1 = *vstd::slice::slice_index_get(bytes, at + 1);
    ((b0 as u16) << 8) | (b1 as u16)
}

/// Read a big-endian `u32` from `bytes` starting at `at`.
pub fn read_u32_be(bytes: &[u8], at: usize) -> (r: u32)
    requires
        at + 4 <= bytes@.len(),
    ensures
        r == spec_u32_from_be(bytes@.subrange(at as int, at + 4)),
{
    let n = bytes.len();
    let b0 = *vstd::slice::slice_index_get(bytes, at);
    let b1 = *vstd::slice::slice_index_get(bytes, at + 1);
    let b2 = *vstd::slice::slice_index_get(bytes, at + 2);
    let b3 = *vstd::slice::slice_index_get(bytes, at + 3);
    ((b0 as u32) << 24) | ((b1 as u32) << 16) | ((b2 as u32) << 8) | (b3 as u32)
}

/// Read a big-endian `u128` from `bytes` starting at `at`.
pub fn read_u128_be(bytes: &[u8], at: usize) -> (r: u128)
    requires
        at + 16 <= bytes@.len(),
    ensures
        r == spec_u128_from_be(bytes@.subrange(at as int, at + 16)),
{
    let n = bytes.len();
    let b0 = *vstd::slice::slice_index_get(bytes, at);
    let b1 = *vstd::slice::slice_index_get(bytes, at + 1);
    let b2 = *vstd::slice::slice_index_get(bytes, at + 2);
    let b3 = *vstd::slice::slice_index_get(bytes, at + 3);
    let b4 = *vstd::slice::slice_index_get(bytes, at + 4);
    let b5 = *vstd::slice::slice_index_get(bytes, at + 5);
    let b6 = *vstd::slice::slice_index_get(bytes, at + 6);
    let b7 = *vstd::slice::slice_index_get(bytes, at + 7);
    let b8 = *vstd::slice::slice_index_get(bytes, at + 8);
    let b9 = *vstd::slice::slice_index_get(bytes, at + 9);
    let b10 = *vstd::slice::slice_index_get(bytes, at + 10);
    let b11 = *vstd::slice::slice_index_get(bytes, at + 11);
    let b12 = *vstd::slice::slice_index_get(bytes, at + 12);
    let b13 = *vstd::slice::slice_index_get(bytes, at + 13);
    let b14 = *vstd::slice::slice_index_get(bytes, at + 14);
    let b15 = *vstd::slice::slice_index_get(bytes, at + 15);
    ((b0 as u128) << 120) | ((b1 as u128) << 112) | ((b2 as u128) << 104) | ((b3 as u128) << 96)
        | ((b4 as u128) << 88) | ((b5 as u128) << 80) | ((b6 as u128) << 72) | ((b7 as u128) << 64)
        | ((b8 as u128) << 56) | ((b9 as u128) << 48) | ((b10 as u128) << 40) | ((b11
        as u128) << 32) | ((b12 as u128) << 24) | ((b13 as u128) << 16) | ((b14 as u128) << 8) | (
    b15 as u128)
}

} // verus!
