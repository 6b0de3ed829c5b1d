use vstd::prelude::*;

verus! {

/// The `Bytes` type of the bytes crate: a cheaply cloneable, sliceable,
/// shared byte buffer. Message payloads travel in it so that buffering a
/// mutate message never copies its data. Declared opaque; its contents are
/// spoken of through `bytes_view`.
#[verifier::external_type_specification]
#[verifier::external_body]
pub struct ExBytes(bytes::Bytes);

/// The bytes a `Bytes` value holds.
pub uninterp spec fn bytes_view(b: bytes::Bytes) -> Seq<u8>;

/// The contents of a batch of buffers.
pub open spec fn payloads_view(v: Seq<bytes::Bytes>) -> Seq<Seq<u8>> {
    v.map_values(|b: bytes::Bytes| bytes_view(b))
}

/// Relies on `Bytes::from` for `Vec<u8>`: the buffer takes over the vector's
/// contents.
#[verifier::external_body]
pub fn bytes_from_vec(data: Vec<u8>) -> (r: bytes::Bytes)
    ensures
        bytes_view(r) == data@,
{
    bytes::Bytes::from(data)
}

/// Relies on `Bytes` exposing its contents as a slice through `AsRef`.
#[verifier::external_body]
pub fn bytes_as_slice(b: &bytes::Bytes) -> (r: &[u8])
    ensures
        r@ == bytes_view(*b),
{
    b.as_ref()
}

/// Relies on `Bytes::len`.
#[verifier::external_body]
pub fn bytes_len(b: &bytes::Bytes) -> (r: usize)
    ensures
        r == bytes_view(*b).len(),
{
    b.len()
}

/// Relies on `Bytes::slice`: a view of the bytes from `start` on, sharing
/// the same storage. `Bytes::slice` panics past the end, which the bound
/// rules out.
#[verifier::external_body]
pub fn bytes_slice_from(b: &bytes::Bytes, start: usize) -> (r: bytes::Bytes)
    requires
        start <= bytes_view(*b).len(),
    ensures
        bytes_view(r) == bytes_view(*b).skip(start as int),
{
    b.slice(start..)
}

/// Relies on `Bytes::clone`: both values hold the same contents.
#[verifier::external_body]
pub fn bytes_clone(b: &bytes::Bytes) -> (r: bytes::Bytes)
    ensures
        bytes_view(r) == bytes_view(*b),
{
    b.clone()
}

} // verus!
