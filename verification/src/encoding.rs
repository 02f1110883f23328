//! Fixed-width integers as bytes.
//!
//! Every on-disk structure of the segment layer is byte-explicit. This module
//! holds the few integer encodings that the formats share, with the proofs
//! that reading gives back what was written.

use vstd::prelude::*;

verus! {

/// The two little-endian bytes of `x`.
pub open spec fn le_u16(x: u16) -> Seq<u8> {
    seq![x as u8, (x >> 8) as u8]
}

/// The four little-endian bytes of `x`.
pub open spec fn le_u32(x: u32) -> Seq<u8> {
    seq![x as u8, (x >> 8) as u8, (x >> 16) as u8, (x >> 24) as u8]
}

/// The eight little-endian bytes of `x`.
pub open spec fn le_u64(x: u64) -> Seq<u8> {
    seq![
        x as u8,
        (x >> 8) as u8,
        (x >> 16) as u8,
        (x >> 24) as u8,
        (x >> 32) as u8,
        (x >> 40) as u8,
        (x >> 48) as u8,
        (x >> 56) as u8,
    ]
}

/// The sixteen big-endian bytes of `x`.
pub open spec fn be_u128(x: u128) -> Seq<u8> {
    seq![
        (x >> 120) as u8,
        (x >> 112) as u8,
        (x >> 104) as u8,
        (x >> 96) as u8,
        (x >> 88) as u8,
        (x >> 80) as u8,
        (x >> 72) as u8,
        (x >> 64) as u8,
        (x >> 56) as u8,
        (x >> 48) as u8,
        (x >> 40) as u8,
        (x >> 32) as u8,
        (x >> 24) as u8,
        (x >> 16) as u8,
        (x >> 8) as u8,
        x as u8,
    ]
}

/// The integer whose little-endian bytes are `s[0]`, `s[1]`.
pub open spec fn u16_of_le(s: Seq<u8>) -> u16 {
    (s[0] as u16) | ((s[1] as u16) << 8)
}

/// The integer whose little-endian bytes are `s[0]` to `s[3]`.
pub open spec fn u32_of_le(s: Seq<u8>) -> u32 {
    (s[0] as u32) | ((s[1] as u32) << 8) | ((s[2] as u32) << 16) | ((s[3] as u32) << 24)
}

/// The integer whose little-endian bytes are `s[0]` to `s[7]`.
pub open spec fn u64_of_le(s: Seq<u8>) -> u64 {
    (s[0] as u64) | ((s[1] as u64) << 8) | ((s[2] as u64) << 16) | ((s[3] as u64) << 24) | ((
    s[4] as u64) << 32) | ((s[5] as u64) << 40) | ((s[6] as u64) << 48) | ((s[7] as u64) << 56)
}

/// The integer whose big-endian bytes are `s[0]` to `s[15]`.
pub open spec fn u128_of_be(s: Seq<u8>) -> u128 {
    ((s[0] as u128) << 120) | ((s[1] as u128) << 112) | ((s[2] as u128) << 104) | ((s[3] as u128)
        << 96) | ((s[4] as u128) << 88) | ((s[5] as u128) << 80) | ((s[6] as u128) << 72) | ((
    s[7] as u128) << 64) | ((s[8] as u128) << 56) | ((s[9] as u128) << 48) | ((s[10] as u128) << 40)
        | ((s[11] as u128) << 32) | ((s[12] as u128) << 24) | ((s[13] as u128) << 16) | ((
    s[14] as u128) << 8) | (s[15] as u128)
}

/// Reading two little-endian bytes gives back the integer they were written from.
pub proof fn lemma_u16_round_trip(x: u16)
    ensures
        u16_of_le(le_u16(x)) == x,
{
    assert(((x as u8) as u16) | (((x >> 8) as u8) as u16) << 8 == x) by (bit_vector);
}

/// Reading four little-endian bytes gives back the integer they were written from.
pub proof fn lemma_u32_round_trip(x: u32)
    ensures
        u32_of_le(le_u32(x)) == x,
{
    assert(((x as u8) as u32) | (((x >> 8) as u8) as u32) << 8 | (((x >> 16) as u8) as u32) << 16
        | (((x >> 24) as u8) as u32) << 24 == x) by (bit_vector);
}

/// Reading eight little-endian bytes gives back the integer they were written from.
pub proof fn lemma_u64_round_trip(x: u64)
    ensures
        u64_of_le(le_u64(x)) == x,
{
    assert(((x as u8) as u64) | (((x >> 8) as u8) as u64) << 8 | (((x >> 16) as u8) as u64) << 16
        | (((x >> 24) as u8) as u64) << 24 | (((x >> 32) as u8) as u64) << 32 | (((x
        >> 40) as u8) as u64) << 40 | (((x >> 48) as u8) as u64) << 48 | (((x >> 56) as u8) as u64)
        << 56 == x) by (bit_vector);
}

/// Reading sixteen big-endian bytes gives back the integer they were written from.
pub proof fn lemma_u128_round_trip(x: u128)
    ensures
        u128_of_be(be_u128(x)) == x,
{
    assert((((x >> 120) as u8) as u128) << 120 | (((x >> 112) as u8) as u128) << 112 | (((x
        >> 104) as u8) as u128) << 104 | (((x >> 96) as u8) as u128) << 96 | (((x
        >> 88) as u8) as u128) << 88 | (((x >> 80) as u8) as u128) << 80 | (((x
        >> 72) as u8) as u128) << 72 | (((x >> 64) as u8) as u128) << 64 | (((x
        >> 56) as u8) as u128) << 56 | (((x >> 48) as u8) as u128) << 48 | (((x
        >> 40) as u8) as u128) << 40 | (((x >> 32) as u8) as u128) << 32 | (((x
        >> 24) as u8) as u128) << 24 | (((x >> 16) as u8) as u128) << 16 | (((x
        >> 8) as u8) as u128) << 8 | ((x as u8) as u128) == x) by (bit_vector);
}

/// Sixteen bytes are the big-endian bytes of the integer read from them.
pub proof fn lemma_u128_of_be_round_trip(s: Seq<u8>)
    requires
        s.len() == 16,
    ensures
        be_u128(u128_of_be(s)) == s,
{
    let (s0, s1, s2, s3) = (s[0], s[1], s[2], s[3]);
    let (s4, s5, s6, s7) = (s[4], s[5], s[6], s[7]);
    let (s8, s9, sa, sb) = (s[8], s[9], s[10], s[11]);
    let (sc, sd, se, sf) = (s[12], s[13], s[14], s[15]);
    let x = u128_of_be(s);
    assert((x >> 120) as u8 == s0 && (x >> 112) as u8 == s1 && (x >> 104) as u8 == s2 && (x
        >> 96) as u8 == s3 && (x >> 88) as u8 == s4 && (x >> 80) as u8 == s5 && (x >> 72) as u8
        == s6 && (x >> 64) as u8 == s7 && (x >> 56) as u8 == s8 && (x >> 48) as u8 == s9 && (x
        >> 40) as u8 == sa && (x >> 32) as u8 == sb && (x >> 24) as u8 == sc && (x >> 16) as u8
        == sd && (x >> 8) as u8 == se && x as u8 == sf) by (bit_vector)
        requires
            x == ((s0 as u128) << 120) | ((s1 as u128) << 112) | ((s2 as u128) << 104) | ((
            s3 as u128) << 96) | ((s4 as u128) << 88) | ((s5 as u128) << 80) | ((s6 as u128) << 72)
                | ((s7 as u128) << 64) | ((s8 as u128) << 56) | ((s9 as u128) << 48) | ((
            sa as u128) << 40) | ((sb as u128) << 32) | ((sc as u128) << 24) | ((sd as u128) << 16)
                | ((se as u128) << 8) | (sf as u128),
    ;
    assert(be_u128(x) =~= s);
}

/// Appends the two little-endian bytes of `x`.
pub fn push_u16_le(out: &mut Vec<u8>, x: u16)
    ensures
        final(out)@ == old(out)@ + le_u16(x),
{
    out.push(#[verifier::truncate] (x as u8));
    out.push(#[verifier::truncate] ((x >> 8) as u8));
    assert(out@ =~= old(out)@ + le_u16(x));
}

/// Appends the four little-endian bytes of `x`.
pub fn push_u32_le(out: &mut Vec<u8>, x: u32)
    ensures
        final(out)@ == old(out)@ + le_u32(x),
{
    out.push(#[verifier::truncate] (x as u8));
    out.push(#[verifier::truncate] ((x >> 8) as u8));
    out.push(#[verifier::truncate] ((x >> 16) as u8));
    out.push(#[verifier::truncate] ((x >> 24) as u8));
    assert(out@ =~= old(out)@ + le_u32(x));
}

/// Appends the eight little-endian bytes of `x`.
pub fn push_u64_le(out: &mut Vec<u8>, x: u64)
    ensures
        final(out)@ == old(out)@ + le_u64(x),
{
    out.push(#[verifier::truncate] (x as u8));
    out.push(#[verifier::truncate] ((x >> 8) as u8));
    out.push(#[verifier::truncate] ((x >> 16) as u8));
    out.push(#[verifier::truncate] ((x >> 24) as u8));
    out.push(#[verifier::truncate] ((x >> 32) as u8));
    out.push(#[verifier::truncate] ((x >> 40) as u8));
    out.push(#[verifier::truncate] ((x >> 48) as u8));
    out.push(#[verifier::truncate] ((x >> 56) as u8));
    assert(out@ =~= old(out)@ + le_u64(x));
}

/// Reads the `u16` whose little-endian bytes start at `at`.
pub fn read_u16_le(bytes: &[u8], at: usize) -> (x: u16)
    requires
        at + 2 <= bytes@.len(),
    ensures
        x == u16_of_le(bytes@.subrange(at as int, at + 2)),
{
    (bytes[at] as u16) | ((bytes[at + 1] as u16) << 8)
}

/// Reads the `u32` whose little-endian bytes start at `at`.
pub fn read_u32_le(bytes: &[u8], at: usize) -> (x: u32)
    requires
        at + 4 <= bytes@.len(),
    ensures
        x == u32_of_le(bytes@.subrange(at as int, at + 4)),
{
    (bytes[at] as u32) | ((bytes[at + 1] as u32) << 8) | ((bytes[at + 2] as u32) << 16) | ((bytes[at
        + 3] as u32) << 24)
}

/// Reads the `u64` whose little-endian bytes start at `at`.
pub fn read_u64_le(bytes: &[u8], at: usize) -> (x: u64)
    requires
        at + 8 <= bytes@.len(),
    ensures
        x == u64_of_le(bytes@.subrange(at as int, at + 8)),
{
    (bytes[at] as u64) | ((bytes[at + 1] as u64) << 8) | ((bytes[at + 2] as u64) << 16) | ((bytes[at
        + 3] as u64) << 24) | ((bytes[at + 4] as u64) << 32) | ((bytes[at + 5] as u64) << 40) | ((
    bytes[at + 6] as u64) << 48) | ((bytes[at + 7] as u64) << 56)
}

/// Appends `src[from..to]`.
pub fn push_range(out: &mut Vec<u8>, src: &[u8], from: usize, to: usize)
    requires
        from <= to <= src@.len(),
    ensures
        final(out)@ == old(out)@ + src@.subrange(from as int, to as int),
{
    out.extend_from_slice(&src[from..to]);
    assert(out@ =~= old(out)@ + src@.subrange(from as int, to as int));
}

/// Appends `n` zero bytes.
pub fn push_zeros(out: &mut Vec<u8>, n: usize)
    ensures
        final(out)@ == old(out)@ + Seq::new(n as nat, |i: int| 0u8),
{
    let mut i: usize = 0;
    while i < n
        invariant
            i <= n,
            out@ =~= old(out)@ + Seq::new(i as nat, |j: int| 0u8),
        decreases n - i,
    {
        out.push(0u8);
        i = i + 1;
    }
}

/// Copies `src[from..to]` into a vector of its own.
pub fn copy_range(src: &[u8], from: usize, to: usize) -> (out: Vec<u8>)
    requires
        from <= to <= src@.len(),
    ensures
        out@ == src@.subrange(from as int, to as int),
{
    let mut out: Vec<u8> = Vec::new();
    push_range(&mut out, src, from, to);
    out
}

/// Whether two byte strings are equal.
pub fn bytes_equal(a: &[u8], b: &[u8]) -> (same: bool)
    ensures
        same == (a@ == b@),
{
    if a.len() != b.len() {
        return false;
    }
    let mut i: usize = 0;
    while i < a.len()
        invariant
            a@.len() == b@.len(),
            i <= a@.len(),
            forall|j: int| 0 <= j < i ==> a@[j] == b@[j],
        decreases a@.len() - i,
    {
        if a[i] != b[i] {
            return false;
        }
        i = i + 1;
    }
    assert(a@ =~= b@);
    true
}

} // verus!
