//! Shared and growing byte buffers, from the `bytes` crate.

use vstd::prelude::*;

verus! {

/// `bytes::Bytes`: an immutable byte string that is cheap to clone and slice.
#[verifier::external_type_specification]
#[verifier::external_body]
pub struct ExBytes(bytes::Bytes);

/// `bytes::BytesMut`: a growing byte string.
#[verifier::external_type_specification]
#[verifier::external_body]
pub struct ExBytesMut(bytes::BytesMut);

/// The bytes of a `bytes::Bytes`.
pub uninterp spec fn bytes_contents(b: bytes::Bytes) -> Seq<u8>;

/// The bytes of a `bytes::BytesMut`.
pub uninterp spec fn bytes_mut_contents(b: bytes::BytesMut) -> Seq<u8>;

/// How many bytes were taken from the front of a `bytes::BytesMut` and still
/// take up room before its contents.
pub uninterp spec fn bytes_mut_consumed(b: bytes::BytesMut) -> nat;

/// Wraps `bytes::Bytes::clone`: a second handle to the same bytes.
#[verifier::external_body]
pub(crate) fn bytes_clone(b: &bytes::Bytes) -> (c: bytes::Bytes)
    ensures
        bytes_contents(c) == bytes_contents(*b),
{
    b.clone()
}

/// Wraps the dereference of `bytes::Bytes`: its bytes as a slice.
#[verifier::external_body]
pub(crate) fn bytes_as_slice(b: &bytes::Bytes) -> (s: &[u8])
    ensures
        s@ == bytes_contents(*b),
{
    b
}

/// Wraps `bytes::Bytes::len`: the number of bytes.
#[verifier::external_body]
pub(crate) fn bytes_len(b: &bytes::Bytes) -> (n: usize)
    ensures
        n == bytes_contents(*b).len(),
{
    b.len()
}

/// Wraps `bytes::Bytes::slice`: a handle to the bytes from `from` to `to`. It
/// panics when the range does not lie within the bytes.
#[verifier::external_body]
pub(crate) fn bytes_slice(b: &bytes::Bytes, from: usize, to: usize) -> (s: bytes::Bytes)
    requires
        from <= to <= bytes_contents(*b).len(),
    ensures
        bytes_contents(s) == bytes_contents(*b).subrange(from as int, to as int),
{
    b.slice(from..to)
}

/// Wraps `bytes::Bytes::copy_from_slice`: a copy of the bytes.
#[verifier::external_body]
pub(crate) fn bytes_copy(data: &[u8]) -> (b: bytes::Bytes)
    ensures
        bytes_contents(b) == data@,
{
    bytes::Bytes::copy_from_slice(data)
}

/// Wraps `bytes::BytesMut::new`: an empty buffer.
#[verifier::external_body]
pub(crate) fn bytes_mut_new() -> (b: bytes::BytesMut)
    ensures
        bytes_mut_contents(b) == Seq::<u8>::empty(),
        bytes_mut_consumed(b) == 0,
{
    bytes::BytesMut::new()
}

/// Wraps `bytes::BytesMut::extend_from_slice`: the bytes go to the end of the
/// buffer, which grows as needed. It panics when its allocation would outgrow
/// `isize::MAX` bytes, and it may allocate up to twice what it needs.
#[verifier::external_body]
pub(crate) fn bytes_mut_extend(b: &mut bytes::BytesMut, data: &[u8])
    requires
        2 * (bytes_mut_consumed(*old(b)) + bytes_mut_contents(*old(b)).len() + data@.len())
            <= isize::MAX,
    ensures
        bytes_mut_contents(*final(b)) == bytes_mut_contents(*old(b)) + data@,
        bytes_mut_consumed(*final(b)) <= bytes_mut_consumed(*old(b)),
{
    b.extend_from_slice(data);
}

/// Wraps the dereference of `bytes::BytesMut`: its bytes as a slice.
#[verifier::external_body]
pub(crate) fn bytes_mut_as_slice(b: &bytes::BytesMut) -> (s: &[u8])
    ensures
        s@ == bytes_mut_contents(*b),
{
    b
}

/// Wraps `bytes::BytesMut::freeze`: the same bytes, from now on immutable.
#[verifier::external_body]
pub(crate) fn bytes_mut_freeze(b: bytes::BytesMut) -> (frozen: bytes::Bytes)
    ensures
        bytes_contents(frozen) == bytes_mut_contents(b),
{
    b.freeze()
}

} // verus!
