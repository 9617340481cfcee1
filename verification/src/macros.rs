//! Counting the elements of a list that is written out.
use vstd::prelude::*;

verus! {

/// The number of elements of `items`.
pub fn count<T>(items: &[T]) -> (n: usize)
    ensures
        n == items@.len(),
{
    items.len()
}

} // verus!
