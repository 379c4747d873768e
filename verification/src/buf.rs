//! The byte containers of the `bytes` crate.

use bytes::{BufMut, Bytes, BytesMut};
use vstd::prelude::*;

verus! {

/// `bytes::Bytes`: a cheaply shared, immutable run of bytes.
#[verifier::external_type_specification]
#[verifier::external_body]
pub struct ExBytes(Bytes);

/// `bytes::BytesMut`: a growing run of bytes.
#[verifier::external_type_specification]
#[verifier::external_body]
pub struct ExBytesMut(BytesMut);

/// The bytes that a `Bytes` holds.
pub uninterp spec fn bytes_contents(b: Bytes) -> Seq<u8>;

/// The bytes that a `BytesMut` holds.
pub uninterp spec fn bytes_mut_contents(b: BytesMut) -> Seq<u8>;

/// The number of bytes that a `BytesMut` was made to hold without growing.
pub uninterp spec fn bytes_mut_limit(b: BytesMut) -> nat;

/// `BytesMut::with_capacity` gives an empty run that can hold the given number of bytes without
/// growing. It panics where no allocation can be that large, which is above `isize::MAX`.
pub assume_specification[ BytesMut::with_capacity ](capacity: usize) -> (b: BytesMut)
    requires
        capacity <= isize::MAX,
    ensures
        bytes_mut_contents(b) == Seq::<u8>::empty(),
        bytes_mut_limit(b) == capacity,
;

/// `BytesMut::freeze` gives up the right to change the run and keeps its bytes.
pub assume_specification[ BytesMut::freeze ](b: BytesMut) -> (r: Bytes)
    ensures
        bytes_contents(r) == bytes_mut_contents(b),
;

/// `BufMut::put_u8`, on a `BytesMut`, appends one byte. It is called only where the run need not
/// grow for it; growing panics where the run becomes too large.
#[verifier::external_body]
pub(crate) fn put_u8(b: &mut BytesMut, n: u8)
    requires
        bytes_mut_contents(*old(b)).len() < bytes_mut_limit(*old(b)),
    ensures
        bytes_mut_contents(*final(b)) == bytes_mut_contents(*old(b)).push(n),
        bytes_mut_limit(*final(b)) == bytes_mut_limit(*old(b)),
{
    b.put_u8(n);
}

/// `AsRef::as_ref`, on a `Bytes`, borrows all of its bytes.
#[verifier::external_body]
pub(crate) fn bytes_as_slice(b: &Bytes) -> (s: &[u8])
    ensures
        s@ == bytes_contents(*b),
{
    b.as_ref()
}

} // verus!
