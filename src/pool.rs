//! The key allocator: `index_pool::IndexPool`, with the contracts this
//! library relies on.

use index_pool::IndexPool;
use vstd::prelude::*;

verus! {

#[verifier::external_type_specification]
#[verifier::external_body]
pub struct ExIndexPool(IndexPool);

/// The set of keys that a pool currently holds as in use.
pub uninterp spec fn pool_used(p: IndexPool) -> Set<usize>;

/// Relies on `IndexPool::new`: a fresh pool has no key in use.
#[verifier::external_body]
pub(crate) fn pool_new() -> (r: IndexPool)
    ensures
        pool_used(r) == Set::<usize>::empty(),
{
    IndexPool::new()
}

/// Relies on `IndexPool::new_id`: it takes the first range of the free list
/// (the smallest free key below the high-water mark), or else the high-water
/// mark itself, which is one past the largest key in use. Either way the key
/// is the smallest one not in use, and it becomes in use.
#[verifier::external_body]
pub(crate) fn pool_new_id(p: &mut IndexPool) -> (r: usize)
    requires
        forall|k: usize| pool_used(*old(p)).contains(k) ==> k + 1 < usize::MAX,
    ensures
        !pool_used(*old(p)).contains(r),
        forall|j: usize| j < r ==> pool_used(*old(p)).contains(j),
        pool_used(*final(p)) == pool_used(*old(p)).insert(r),
{
    p.new_id()
}

/// Relies on `IndexPool::request_id`: marks a free key in use and answers
/// `Ok`, or answers `Err(AlreadyInUse)` and changes nothing. It panics on
/// `usize::MAX`.
#[verifier::external_body]
pub(crate) fn pool_request_id(p: &mut IndexPool, id: usize) -> (r: bool)
    requires
        id < usize::MAX,
    ensures
        r == !pool_used(*old(p)).contains(id),
        pool_used(*final(p)) == pool_used(*old(p)).insert(id),
{
    p.request_id(id).is_ok()
}

/// Relies on `IndexPool::return_id`: frees a key in use and answers `Ok`, or
/// answers `Err(AlreadyReturned)` and changes nothing.
#[verifier::external_body]
pub(crate) fn pool_return_id(p: &mut IndexPool, id: usize) -> (r: bool)
    ensures
        r == pool_used(*old(p)).contains(id),
        pool_used(*final(p)) == pool_used(*old(p)).remove(id),
{
    p.return_id(id).is_ok()
}

/// Relies on `IndexPool::is_free`: true exactly when the key is not in use.
#[verifier::external_body]
pub(crate) fn pool_is_free(p: &IndexPool, id: usize) -> (r: bool)
    ensures
        r == !pool_used(*p).contains(id),
{
    p.is_free(id)
}

/// Relies on `IndexPool::in_use`: the number of keys in use.
#[verifier::external_body]
pub(crate) fn pool_in_use(p: &IndexPool) -> (r: usize)
    ensures
        r == pool_used(*p).len(),
{
    p.in_use()
}

/// Relies on `IndexPool::clear`: afterwards no key is in use.
#[verifier::external_body]
pub(crate) fn pool_clear(p: &mut IndexPool)
    ensures
        pool_used(*final(p)) == Set::<usize>::empty(),
{
    p.clear()
}

/// Relies on `IndexPool::all_indices`: it walks the keys below the
/// high-water mark in ascending order, skipping the free ranges, so it yields
/// every key in use once, in strictly ascending order.
#[verifier::external_body]
pub(crate) fn pool_keys(p: &IndexPool) -> (r: Vec<usize>)
    ensures
        forall|i: int, j: int| 0 <= i < j < r@.len() ==> r@[i] < r@[j],
        forall|k: usize| pool_used(*p).contains(k) <==> r@.contains(k),
{
    p.all_indices().collect()
}

} // verus!
