//! Insertion sort: grow a sorted prefix, sinking each new element into
//! place by adjacent swaps.

use crate::sorting::sorted;
use crate::sorting::swap_at;
use crate::sorting::Sorter;
use vstd::prelude::*;

verus! {

pub struct InsertionSort;

/// Sorts the vector in place.
pub fn sort(v: &mut Vec<u64>)
    ensures
        sorted(final(v)@),
        final(v)@.to_multiset() == old(v)@.to_multiset(),
{
    let n = v.len();
    let mut i: usize = 0;
    while i < n
        invariant
            i <= n,
            v.len() == n,
            v@.to_multiset() == old(v)@.to_multiset(),
            forall|p: int, q: int| 0 <= p < q < i ==> v@[p] <= v@[q],
        decreases n - i,
    {
        let mut j: usize = i;
        while j > 0 && v[j] < v[j - 1]
            invariant
                j <= i,
                i < n,
                v.len() == n,
                v@.to_multiset() == old(v)@.to_multiset(),
                forall|p: int, q: int| 0 <= p < q <= i && q != j ==> v@[p] <= v@[q],
                forall|q: int| j < q <= i ==> v@[j as int] <= v@[q],
            decreases j,
        {
            swap_at(v, j - 1, j);
            j = j - 1;
        }
        i = i + 1;
    }
}

impl Sorter for InsertionSort {
    fn sort(&self, v: &mut Vec<u64>) {
        sort(v);
    }
}

} // verus!
