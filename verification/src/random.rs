//! The random source and the one operation the scheduler asks of it.

use rand::rngs::SmallRng;
use rand::seq::SliceRandom;
use vstd::prelude::*;

verus! {

/// `rand::rngs::SmallRng`, taken as it is: a value that is handed on to the
/// outside functions that draw from it and never looked into.
#[verifier::external_type_specification]
#[verifier::external_body]
pub struct ExSmallRng(SmallRng);

/// Calls `rand::seq::SliceRandom::shuffle` on the vector's slice.
///
/// The outside function only ever swaps two elements of the slice, so what it
/// leaves behind is a rearrangement of what it found: the same elements, each
/// as often as before. Nothing is claimed about which rearrangement comes out.
#[verifier::external_body]
pub(crate) fn shuffle<T>(items: &mut Vec<T>, rng: &mut SmallRng)
    ensures
        final(items)@.to_multiset() == old(items)@.to_multiset(),
{
    items.as_mut_slice().shuffle(rng);
}

/// A rearrangement is as long as the sequence it came from, holds exactly
/// the same values, and repeats none if that sequence repeats none.
pub proof fn lemma_rearranged<T>(before: Seq<T>, after: Seq<T>)
    requires
        after.to_multiset() == before.to_multiset(),
    ensures
        after.len() == before.len(),
        forall|v: T| #[trigger] after.contains(v) <==> before.contains(v),
        before.no_duplicates() ==> after.no_duplicates(),
{
    before.to_multiset_ensures();
    after.to_multiset_ensures();
    assert forall|v: T| #[trigger] after.contains(v) <==> before.contains(v) by {
        assert(after.contains(v) <==> after.to_multiset().count(v) > 0);
        assert(before.contains(v) <==> before.to_multiset().count(v) > 0);
    }
    if before.no_duplicates() {
        before.lemma_multiset_has_no_duplicates();
        after.lemma_multiset_has_no_duplicates_conv();
    }
}

} // verus!
