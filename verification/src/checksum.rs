//! The two checksums of the on-disk formats.

use crate::encoding::{le_u32, u32_of_le};
use crate::types::HashOutput;
use vstd::prelude::*;

verus! {

/// The CRC-32 of a byte string, as the `crc32fast` crate computes it.
pub uninterp spec fn crc32(data: Seq<u8>) -> u32;

/// Two byte strings of one length differ at `i` and nowhere else.
pub open spec fn differs_at(a: Seq<u8>, b: Seq<u8>, i: int) -> bool {
    &&& a.len() == b.len()
    &&& 0 <= i < a.len()
    &&& a[i] != b[i]
    &&& forall|j: int| 0 <= j < a.len() && j != i ==> #[trigger] a[j] == b[j]
}

/// Two byte strings of one length differ in exactly one byte.
pub open spec fn one_byte_off(a: Seq<u8>, b: Seq<u8>) -> bool {
    exists|i: int| #[trigger] differs_at(a, b, i)
}

/// Wraps `crc32fast::hash`: the result depends on the bytes alone, and a byte
/// string that differs in exactly one byte has another result. A step of the
/// checksum maps different states to different states, and from one state
/// different bytes lead to different states, since the entries of its table
/// differ in their highest byte.
#[verifier::external_body]
pub(crate) fn crc32_of(data: &[u8]) -> (crc: u32)
    ensures
        crc == crc32(data@),
        forall|other: Seq<u8>| #[trigger] one_byte_off(data@, other) ==> crc32(other) != crc,
{
    crc32fast::hash(data)
}

/// A body behind which its checksum stands is not followed by its checksum any
/// more when one byte of the whole is changed.
pub proof fn lemma_changed_byte(body: Seq<u8>, other: Seq<u8>)
    requires
        forall|x: Seq<u8>| #[trigger] one_byte_off(body, x) ==> crc32(x) != crc32(body),
        one_byte_off(body + le_u32(crc32(body)), other),
    ensures
        other.len() == body.len() + 4,
        u32_of_le(other.subrange(other.len() - 4, other.len() as int)) != crc32(
            other.subrange(0, other.len() - 4),
        ),
{
    let whole = body + le_u32(crc32(body));
    let n = whole.len() as int;
    let i = choose|i: int| #[trigger] differs_at(whole, other, i);
    let front = other.subrange(0, n - 4);
    let back = other.subrange(n - 4, n);
    let crc = crc32(body);
    assert forall|j: int| 0 <= j < n && j != i implies #[trigger] other[j] == whole[j] by {
        assert(whole[j] == other[j]);
    }
    assert(forall|j: int| 0 <= j < n - 4 ==> #[trigger] body[j] == whole[j]);
    assert(forall|j: int| 0 <= j < n - 4 ==> #[trigger] front[j] == other[j]);
    if i < n - 4 {
        assert(differs_at(body, front, i));
        assert(one_byte_off(body, front));
        assert(back =~= le_u32(crc));
        crate::encoding::lemma_u32_round_trip(crc);
    } else {
        assert(front =~= body);
        assert(back[i - (n - 4)] != le_u32(crc)[i - (n - 4)]);
        let (b0, b1, b2, b3) = (back[0], back[1], back[2], back[3]);
        let x = u32_of_le(back);
        assert(x as u8 == b0 && (x >> 8) as u8 == b1 && (x >> 16) as u8 == b2 && (x >> 24) as u8
            == b3) by (bit_vector)
            requires
                x == (b0 as u32) | ((b1 as u32) << 8) | ((b2 as u32) << 16) | ((b3 as u32) << 24),
        ;
        assert(le_u32(x) =~= back);
    }
}

/// The 32 bytes of the BLAKE3 hash of a byte string, as the `blake3` crate
/// computes it.
pub uninterp spec fn blake3_digest(data: Seq<u8>) -> Seq<u8>;

/// Wraps `blake3::hash`: the result depends on the bytes alone.
#[verifier::external_body]
pub(crate) fn blake3_of(data: &[u8]) -> (hash: HashOutput)
    ensures
        hash@ == blake3_digest(data@),
{
    HashOutput { bytes: *blake3::hash(data).as_bytes() }
}

/// `blake3::Hasher`: a BLAKE3 hash that is fed piece by piece.
#[verifier::external_type_specification]
#[verifier::external_body]
pub struct ExHasher(blake3::Hasher);

/// The bytes that a `blake3::Hasher` was fed.
pub uninterp spec fn hasher_input(h: blake3::Hasher) -> Seq<u8>;

/// Wraps `blake3::Hasher::new`: a hasher that was fed nothing.
#[verifier::external_body]
pub(crate) fn hasher_new() -> (h: blake3::Hasher)
    ensures
        hasher_input(h) == Seq::<u8>::empty(),
{
    blake3::Hasher::new()
}

/// Wraps `blake3::Hasher::update`: the bytes go behind those that it was fed.
/// Its length counter has 64 bits.
#[verifier::external_body]
pub(crate) fn hasher_update(h: &mut blake3::Hasher, data: &[u8])
    requires
        hasher_input(*old(h)).len() + data@.len() <= u64::MAX,
    ensures
        hasher_input(*final(h)) == hasher_input(*old(h)) + data@,
{
    h.update(data);
}

/// Wraps `blake3::Hasher::finalize`: the hash of all that it was fed, which is
/// what `blake3::hash` gives for it in one piece.
#[verifier::external_body]
pub(crate) fn hasher_finalize(h: &blake3::Hasher) -> (hash: HashOutput)
    ensures
        hash@ == blake3_digest(hasher_input(*h)),
{
    HashOutput { bytes: *h.finalize().as_bytes() }
}

} // verus!
