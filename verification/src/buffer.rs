//! Shared buffers of bytes.

use vstd::prelude::*;

verus! {

/// A buffer of the crate bytes.
#[verifier::external_type_specification]
#[verifier::external_body]
pub struct ExBytes(bytes::Bytes);

/// The bytes in a buffer.
pub uninterp spec fn content(buffer: bytes::Bytes) -> Seq<u8>;

/// Calls `bytes::Bytes::from` on a vector: the buffer holds the bytes of the vector.
#[verifier::external_body]
pub(crate) fn bytes_from(data: Vec<u8>) -> (r: bytes::Bytes)
    ensures
        content(r) == data@,
{
    bytes::Bytes::from(data)
}

} // verus!
