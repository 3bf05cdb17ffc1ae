use vstd::prelude::*;

verus! {

#[verifier::external_type_specification]
#[verifier::external_body]
pub struct ExBytesMut(bytes::BytesMut);

/// The bytes a `bytes::BytesMut` holds, front to back.
pub uninterp spec fn bm_bytes(b: bytes::BytesMut) -> Seq<u8>;

/// Relies on bytes::BytesMut::with_capacity: the returned buffer has length
/// zero, so it holds no bytes.
#[verifier::external_body]
pub(crate) fn bm_with_capacity(c: usize) -> (r: bytes::BytesMut)
    ensures
        bm_bytes(r) == Seq::<u8>::empty(),
{
    bytes::BytesMut::with_capacity(c)
}

/// Relies on bytes::BytesMut::extend_from_slice: appends the slice's bytes
/// at the end, here a single byte.
#[verifier::external_body]
pub(crate) fn bm_push(b: &mut bytes::BytesMut, c: u8)
    ensures
        bm_bytes(*final(b)) == bm_bytes(*old(b)).push(c),
{
    b.extend_from_slice(&[c]);
}

/// Relies on bytes::BytesMut::clear: sets the length to zero, emptying the
/// buffer while keeping its allocation.
#[verifier::external_body]
pub(crate) fn bm_clear(b: &mut bytes::BytesMut)
    ensures
        bm_bytes(*final(b)) == Seq::<u8>::empty(),
{
    b.clear();
}

/// Relies on bytes::BytesMut::len: the number of bytes held.
#[verifier::external_body]
pub(crate) fn bm_len(b: &bytes::BytesMut) -> (r: usize)
    ensures
        r as int == bm_bytes(*b).len(),
{
    b.len()
}

/// Relies on AsRef<[u8]> for bytes::BytesMut: a slice of all bytes held, in
/// order, copied out into a vector.
#[verifier::external_body]
pub(crate) fn bm_to_vec(b: &bytes::BytesMut) -> (r: Vec<u8>)
    ensures
        r@ == bm_bytes(*b),
{
    b.as_ref().to_vec()
}

} // verus!
