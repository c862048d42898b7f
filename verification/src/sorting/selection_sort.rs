//! Selection sort: repeatedly move the smallest remaining element to the
//! front of the unsorted region.

use crate::sorting::sorted;
use crate::sorting::swap_at;
use crate::sorting::Sorter;
use vstd::prelude::*;

verus! {

pub struct SelectionSort;

/// Sorts the vector in place.
pub fn sort(v: &mut Vec<u64>)
    ensures
        sorted(final(v)@),
        final(v)@.to_multiset() == old(v)@.to_multiset(),
{
    let n = v.len();
    let mut i: usize = 0;
    while i < n
        invariant
            i <= n,
            v.len() == n,
            v@.to_multiset() == old(v)@.to_multiset(),
            forall|p: int, q: int| 0 <= p < q < n && p < i ==> v@[p] <= v@[q],
        decreases n - i,
    {
        let mut smallest: usize = i;
        let mut j: usize = i;
        while j < n
            invariant
                i <= smallest < n,
                i <= j <= n,
                v.len() == n,
                forall|q: int| i <= q < j ==> v@[smallest as int] <= v@[q],
            decreases n - j,
        {
            if v[smallest] > v[j] {
                smallest = j;
            }
            j = j + 1;
        }
        if smallest != i {
            swap_at(v, smallest, i);
        }
        i = i + 1;
    }
}

impl Sorter for SelectionSort {
    fn sort(&self, v: &mut Vec<u64>) {
        sort(v);
    }
}

} // verus!
