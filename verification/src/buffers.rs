//! The byte buffers of the `bytes` crate that messages and streams hold,
//! declared for verification, with the operations this crate performs on them.
use vstd::prelude::*;
use bytes::{Bytes, BytesMut};

verus! {

#[verifier::external_type_specification]
#[verifier::external_body]
pub struct ExBytes(Bytes);

#[verifier::external_type_specification]
#[verifier::external_body]
pub struct ExBytesMut(BytesMut);

/// The bytes an immutable `Bytes` handle refers to.
pub uninterp spec fn bytes_content(b: Bytes) -> Seq<u8>;

/// The bytes a `BytesMut` buffer holds.
pub uninterp spec fn bytes_mut_content(b: BytesMut) -> Seq<u8>;

/// `<Bytes as Deref>::deref`: a view of the referenced bytes as a slice.
/// Claims the slice holds exactly the content; a slice never exceeds
/// `isize::MAX` bytes.
#[verifier::external_body]
pub(crate) fn bytes_as_slice(b: &Bytes) -> (s: &[u8])
    ensures
        s@ == bytes_content(*b),
        s@.len() <= isize::MAX,
{
    b
}

/// `<Bytes as Clone>::clone`: another handle to the same bytes.
pub assume_specification[ <Bytes as Clone>::clone ](b: &Bytes) -> (copy: Bytes)
    ensures
        bytes_content(copy) == bytes_content(*b),
;

/// `BytesMut::new`: an empty buffer.
#[verifier::external_body]
pub(crate) fn bytes_mut_new() -> (b: BytesMut)
    ensures
        bytes_mut_content(b) == Seq::<u8>::empty(),
{
    BytesMut::new()
}

/// `<BytesMut as Deref>::deref`: the buffered bytes as a slice, which never
/// exceeds `isize::MAX` bytes.
#[verifier::external_body]
pub(crate) fn bytes_mut_as_slice(b: &BytesMut) -> (s: &[u8])
    ensures
        s@ == bytes_mut_content(*b),
        s@.len() <= isize::MAX,
{
    b
}

/// `BytesMut::extend_from_slice`: appends `extend` to the buffer. It panics
/// when the grown buffer cannot be allocated, so the combined length is
/// kept within `isize::MAX`.
#[verifier::external_body]
pub(crate) fn bytes_mut_extend(b: &mut BytesMut, extend: &[u8])
    requires
        bytes_mut_content(*old(b)).len() + extend@.len() <= isize::MAX,
    ensures
        bytes_mut_content(*final(b)) == bytes_mut_content(*old(b)) + extend@,
{
    b.extend_from_slice(extend)
}

/// `BytesMut::split_to`: removes the first `at` bytes from the buffer and
/// returns them. It panics when `at` exceeds the length, which `requires`
/// rules out.
#[verifier::external_body]
pub(crate) fn bytes_mut_split_to(b: &mut BytesMut, at: usize) -> (front: BytesMut)
    requires
        at <= bytes_mut_content(*old(b)).len(),
    ensures
        bytes_mut_content(front) == bytes_mut_content(*old(b)).take(at as int),
        bytes_mut_content(*final(b)) == bytes_mut_content(*old(b)).skip(at as int),
{
    b.split_to(at)
}

/// `BytesMut::freeze`: the same bytes as an immutable `Bytes`.
#[verifier::external_body]
pub(crate) fn bytes_mut_freeze(b: BytesMut) -> (frozen: Bytes)
    ensures
        bytes_content(frozen) == bytes_mut_content(b),
{
    b.freeze()
}

} // verus!
