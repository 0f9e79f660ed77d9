//! Buckets: the ordered collection of identifiers stored under one cell key.
//! A bucket is a `smallvec::SmallVec` with a small inline capacity, so cells
//! with few occupants avoid heap allocation; its behaviour enters the proofs
//! only through the contracts below.

use vstd::prelude::*;
use smallvec::SmallVec;

verus! {

/// A bucket holds the identifiers inserted under one cell key. The inner
/// vector is opaque to the verifier: `smallvec::SmallVec` cannot be declared
/// to it directly, since its generic parameter is bound by the outside trait
/// `smallvec::Array`.
#[verifier::external_body]
pub struct Bucket {
    items: SmallVec<[u64; 5]>,
}

/// The identifiers a bucket holds, in insertion order.
pub uninterp spec fn bucket_ids(b: Bucket) -> Seq<u64>;

/// Relies on SmallVec::new: it constructs an empty vector.
#[verifier::external_body]
pub(crate) fn bucket_new() -> (b: Bucket)
    ensures
        bucket_ids(b) == Seq::<u64>::empty(),
{
    Bucket { items: SmallVec::new() }
}

/// Relies on SmallVec::push: it appends the value at the end.
#[verifier::external_body]
pub(crate) fn bucket_push(b: &mut Bucket, id: u64)
    ensures
        bucket_ids(*final(b)) == bucket_ids(*old(b)).push(id),
{
    b.items.push(id);
}

/// Relies on SmallVec::clear: it removes every element and keeps the
/// allocated storage.
#[verifier::external_body]
pub(crate) fn bucket_clear(b: &mut Bucket)
    ensures
        bucket_ids(*final(b)) == Seq::<u64>::empty(),
{
    b.items.clear();
}

/// Relies on SmallVec::len: it returns the number of stored elements.
#[verifier::external_body]
pub(crate) fn bucket_len(b: &Bucket) -> (n: usize)
    ensures
        n == bucket_ids(*b).len(),
{
    b.items.len()
}

/// Relies on SmallVec's Index impl, which indexes the slice of stored
/// elements: it returns element i.
#[verifier::external_body]
pub(crate) fn bucket_get(b: &Bucket, i: usize) -> (id: u64)
    requires
        i < bucket_ids(*b).len(),
    ensures
        id == bucket_ids(*b)[i as int],
{
    b.items[i]
}

} // verus!
