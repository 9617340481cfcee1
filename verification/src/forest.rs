//! Disjoint sets of group identifiers, kept in a forest of the crate
//! `union_find_rs`. Nothing here is proved: the contracts say what that
//! crate's source shows.
use std::hash::Hash;
use union_find_rs::prelude::{DisjointSets, UnionFind};
use vstd::prelude::*;

verus! {

/// Trusted: the type `DisjointSets` of `union_find_rs`, a forest of disjoint
/// sets. Nothing is known of what is inside a value of it.
#[verifier::external_type_specification]
#[verifier::external_body]
#[verifier::reject_recursive_types(T)]
pub struct ExDisjointSets<T: Copy + Eq + Hash>(DisjointSets<T>);

/// Trusted: the type `Error` of `union_find_rs`, which tells why an
/// operation on a forest failed. Nothing is known of what is inside.
#[verifier::external_type_specification]
#[verifier::external_body]
pub struct ExForestError(union_find_rs::traits::Error);

/// What a forest holds: each of its items, with the representative of the
/// set that the item is in.
pub uninterp spec fn roots(sets: DisjointSets<usize>) -> Map<usize, usize>;

/// Trusted: `DisjointSets::new`, a forest without items.
#[verifier::external_body]
pub(crate) fn new_sets() -> (r: DisjointSets<usize>)
    ensures
        roots(r) =~= Map::empty(),
{
    DisjointSets::new()
}

/// Trusted: `DisjointSets::make_set`. An item that the forest does not hold
/// becomes a set of its own, of which it is the representative; for an item
/// that it holds the call fails and changes nothing.
#[verifier::external_body]
pub(crate) fn make_set(sets: &mut DisjointSets<usize>, item: usize) -> (r: Result<
    (),
    union_find_rs::traits::Error,
>)
    ensures
        r is Ok <==> !roots(*old(sets)).contains_key(item),
        r is Ok ==> roots(*final(sets)) == roots(*old(sets)).insert(item, item),
        r is Err ==> roots(*final(sets)) == roots(*old(sets)),
{
    sets.make_set(item)
}

/// Trusted: `DisjointSets::find_set`, the representative of the set that
/// `item` is in. It fails for an item that the forest does not hold. The
/// call may shorten paths inside the forest; no item changes its set or its
/// representative.
#[verifier::external_body]
pub(crate) fn find_set(sets: &DisjointSets<usize>, item: usize) -> (r: Result<
    usize,
    union_find_rs::traits::Error,
>)
    ensures
        r is Ok <==> roots(*sets).contains_key(item),
        r matches Ok(root) ==> root == roots(*sets)[item],
{
    sets.find_set(&item)
}

/// Trusted: `DisjointSets::union`, for two items of the forest that are one
/// item or in different sets. The two sets become one, whose representative
/// is the representative of one of them; the other sets stay as they are.
#[verifier::external_body]
pub(crate) fn union_sets(sets: &mut DisjointSets<usize>, x: usize, y: usize) -> (r: Result<
    (),
    union_find_rs::traits::Error,
>)
    requires
        roots(*old(sets)).contains_key(x),
        roots(*old(sets)).contains_key(y),
        x == y || roots(*old(sets))[x] != roots(*old(sets))[y],
    ensures
        r is Ok,
        roots(*final(sets)).dom() == roots(*old(sets)).dom(),
        roots(*final(sets))[x] == roots(*old(sets))[x] || roots(*final(sets))[x] == roots(
            *old(sets),
        )[y],
        forall|k: usize| #[trigger]
            roots(*old(sets)).contains_key(k) ==> roots(*final(sets))[k] == (if roots(
                *old(sets),
            )[k] == roots(*old(sets))[x] || roots(*old(sets))[k] == roots(*old(sets))[y] {
                roots(*final(sets))[x]
            } else {
                roots(*old(sets))[k]
            }),
{
    sets.union(&x, &y)
}

} // verus!
