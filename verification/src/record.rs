//! The records that a renderer's collaborators may keep.
//!
//! A sink, a sampler or a walker is free to keep a record of everything that
//! has passed through it, oldest first. One that keeps none says `None`, and
//! nothing is then said about it; one that keeps a record lets every call be
//! accounted for.

use vstd::prelude::*;

verus! {

/// The record with one more item at its end, where a record is kept.
pub open spec fn pushed<T>(record: Option<Seq<T>>, item: T) -> Option<Seq<T>> {
    match record {
        Some(earlier) => Some(earlier.push(item)),
        None => None,
    }
}

/// The record with `items` added at its end, where a record is kept.
pub open spec fn extended<T>(record: Option<Seq<T>>, items: Seq<T>) -> Option<Seq<T>> {
    match record {
        Some(earlier) => Some(earlier + items),
        None => None,
    }
}

/// Adding nothing leaves a record as it is.
pub proof fn lemma_extended_by_nothing<T>(record: Option<Seq<T>>)
    ensures
        extended(record, Seq::empty()) == record,
{
    if let Some(earlier) = record {
        assert(earlier + Seq::<T>::empty() =~= earlier);
    }
}

/// Adding some items and then one more is adding them all at once.
pub proof fn lemma_pushed_after_extended<T>(record: Option<Seq<T>>, items: Seq<T>, item: T)
    ensures
        pushed(extended(record, items), item) == extended(record, items.push(item)),
{
    if let Some(earlier) = record {
        assert((earlier + items).push(item) =~= earlier + items.push(item));
    }
}

} // verus!
