//! Byte payloads carried through the channel layer.
//!
//! Payload buffers are held in `bytes::Bytes`, the reference-counted byte
//! container the rest of the networking stack trades in. To the verifier the
//! container is opaque; its contents are named by [`bytes_view`], and the few
//! operations the channel layer needs are wrapped below with contracts that
//! state what the crate's source shows.

use vstd::prelude::*;
use bytes::Bytes;

verus! {

#[verifier::external_type_specification]
#[verifier::external_body]
pub struct ExBytes(Bytes);

/// The contents of a `Bytes` buffer, as a sequence of bytes.
pub uninterp spec fn bytes_view(b: Bytes) -> Seq<u8>;

/// Relies on `Clone for Bytes`: a clone is a new handle to the same
/// contents.
pub assume_specification[ <Bytes as Clone>::clone ](b: &Bytes) -> (r: Bytes)
    ensures
        bytes_view(r) == bytes_view(*b),
;

/// Relies on `Bytes::as_ref` (via `AsRef<[u8]>`): returns a slice over the
/// whole contents of the buffer.
#[verifier::external_body]
pub fn bytes_as_slice(b: &Bytes) -> (r: &[u8])
    ensures
        r@ == bytes_view(*b),
{
    b.as_ref()
}

/// Relies on `From<Vec<u8>> for Bytes`: the buffer takes over the vector's
/// contents unchanged.
#[verifier::external_body]
pub fn bytes_from_vec(v: Vec<u8>) -> (r: Bytes)
    ensures
        bytes_view(r) == v@,
{
    Bytes::from(v)
}

} // verus!
