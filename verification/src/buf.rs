//! The trusted boundary to the `bytes` crate and to std's UTF-8 decoding.
//!
//! Incoming part bodies arrive as shared [`bytes::Bytes`] chunks and are
//! accumulated in a growable [`bytes::BytesMut`] buffer, exactly as the
//! surrounding HTTP machinery hands them over. Verus sees both types as
//! opaque; the wrappers below state, over the two content views, what the
//! `bytes` crate documents of each call.

use vstd::prelude::*;
use vstd::utf8::decode_utf8;
use vstd::utf8::valid_utf8;

verus! {

#[verifier::external_type_specification]
#[verifier::external_body]
pub struct ExBytes(bytes::Bytes);

#[verifier::external_type_specification]
#[verifier::external_body]
pub struct ExBytesMut(bytes::BytesMut);

/// The byte contents of a shared `bytes::Bytes` chunk.
pub uninterp spec fn bytes_view(b: bytes::Bytes) -> Seq<u8>;

/// The byte contents of a growable `bytes::BytesMut` buffer.
pub uninterp spec fn buffer_view(b: bytes::BytesMut) -> Seq<u8>;

/// Relies on `bytes::BytesMut::new`: a fresh buffer holds no bytes.
#[verifier::external_body]
pub(crate) fn buffer_new() -> (r: bytes::BytesMut)
    ensures
        buffer_view(r) == Seq::<u8>::empty(),
{
    bytes::BytesMut::new()
}

/// Relies on `bytes::BytesMut::len`: the number of stored bytes.
#[verifier::external_body]
pub(crate) fn buffer_len(b: &bytes::BytesMut) -> (r: usize)
    ensures
        r == buffer_view(*b).len(),
{
    b.len()
}

/// Relies on `bytes::Bytes::len`: the number of stored bytes.
#[verifier::external_body]
pub(crate) fn chunk_len(b: &bytes::Bytes) -> (r: usize)
    ensures
        r == bytes_view(*b).len(),
{
    b.len()
}

/// Relies on `bytes::BytesMut::extend_from_slice`: the chunk's bytes are
/// appended after the buffer's.
#[verifier::external_body]
pub(crate) fn buffer_extend(acc: &mut bytes::BytesMut, chunk: &bytes::Bytes)
    ensures
        buffer_view(*final(acc)) == buffer_view(*old(acc)) + bytes_view(*chunk),
{
    acc.extend_from_slice(chunk)
}

/// Relies on `bytes::BytesMut::freeze`: the contents carry over unchanged.
#[verifier::external_body]
pub(crate) fn buffer_freeze(b: bytes::BytesMut) -> (r: bytes::Bytes)
    ensures
        bytes_view(r) == buffer_view(b),
{
    b.freeze()
}

/// Relies on the slice view of `bytes::BytesMut` to copy the contents out.
#[verifier::external_body]
pub(crate) fn buffer_to_vec(b: &bytes::BytesMut) -> (r: Vec<u8>)
    ensures
        r@ == buffer_view(*b),
{
    b.as_ref().to_vec()
}

/// Relies on `String::from_utf8`: it succeeds exactly on valid UTF-8 input
/// and yields its decoding.
#[verifier::external_body]
pub(crate) fn vec_to_text(v: Vec<u8>) -> (r: Option<String>)
    ensures
        r is Some <==> valid_utf8(v@),
        r matches Some(s) ==> s@ == decode_utf8(v@),
{
    String::from_utf8(v).ok()
}

} // verus!
