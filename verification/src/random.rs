//! The engine's source of randomness: the `rand` crate's thread-local
//! generator and its in-place shuffle.

use vstd::prelude::*;
use vstd::seq_lib::{to_multiset_contains, to_multiset_len};
use rand::seq::SliceRandom;

verus! {

/// `rand::rngs::ThreadRng`, the handle to the calling thread's generator. It
/// is only carried from `rand::rng()` to the shuffle; nothing is known of
/// what it holds.
#[verifier::external_type_specification]
#[verifier::external_body]
pub struct ExThreadRng(rand::rngs::ThreadRng);

/// Calls `rand::rng()`, which hands out the calling thread's generator.
/// Nothing is claimed of the handle. The call panics where the operating
/// system cannot seed the generator.
#[verifier::external_body]
pub(crate) fn thread_rng() -> (rng: rand::rngs::ThreadRng) {
    rand::rng()
}

/// Calls `rand::seq::SliceRandom::shuffle` on the items of `items`. The
/// shuffle only swaps items, so the contract claims that the same items are
/// there afterwards, each as often as before, and nothing of their order.
#[verifier::external_body]
pub(crate) fn shuffle<T>(items: &mut Vec<T>, rng: &mut rand::rngs::ThreadRng)
    ensures
        final(items)@.to_multiset() == old(items)@.to_multiset(),
{
    items.shuffle(rng);
}

/// A rearrangement is as long as the sequence it rearranges, holds the same
/// items, and repeats none if that one repeats none.
pub proof fn lemma_rearranged<T>(before: Seq<T>, after: Seq<T>)
    requires
        after.to_multiset() == before.to_multiset(),
    ensures
        after.len() == before.len(),
        forall|x: T| after.contains(x) <==> before.contains(x),
        before.no_duplicates() ==> after.no_duplicates(),
{
    to_multiset_len(before);
    to_multiset_len(after);
    assert forall|x: T| after.contains(x) <==> before.contains(x) by {
        to_multiset_contains(before, x);
        to_multiset_contains(after, x);
    }
    if before.no_duplicates() {
        before.lemma_multiset_has_no_duplicates();
        after.lemma_multiset_has_no_duplicates_conv();
    }
}

} // verus!
