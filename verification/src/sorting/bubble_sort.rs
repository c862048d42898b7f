//! Bubble sort: sweep adjacent pairs, swapping the out-of-order ones, until
//! a sweep makes no swap.

use crate::sorting::sorted;
use crate::sorting::swap_at;
use crate::sorting::Sorter;
use vstd::prelude::*;

verus! {

pub struct BubbleSort;

/// Sorts the vector in place.
pub fn sort(v: &mut Vec<u64>)
    ensures
        sorted(final(v)@),
        final(v)@.to_multiset() == old(v)@.to_multiset(),
{
    let n = v.len();
    if n == 0 {
        return;
    }
    let mut pass: usize = 0;
    let mut swapped = true;
    while swapped
        invariant
            n == v.len(),
            n >= 1,
            pass <= n,
            v@.to_multiset() == old(v)@.to_multiset(),
            forall|p: int, q: int|
                #![trigger v@[p], v@[q]]
                0 <= p < q < n && q >= n - pass ==> v@[p] <= v@[q],
            !swapped ==> sorted(v@),
            swapped ==> pass < n,
        decreases n - pass,
    {
        swapped = false;
        let mut i: usize = 1;
        while i < n
            invariant
                1 <= i <= n,
                n == v.len(),
                pass < n,
                v@.to_multiset() == old(v)@.to_multiset(),
                forall|p: int, q: int|
                    #![trigger v@[p], v@[q]]
                    0 <= p < q < n && q >= n - pass ==> v@[p] <= v@[q],
                forall|p: int, q: int|
                    #![trigger v@[p], v@[q]]
                    0 <= p < q < n && q < i - 1 && q >= n - pass - 1 ==> v@[p] <= v@[q],
                forall|p: int| 0 <= p < i ==> #[trigger] v@[p] <= v@[i - 1],
                !swapped ==> forall|p: int, q: int| 0 <= p < q < i ==> v@[p] <= v@[q],
                swapped ==> pass + 1 < n,
            decreases n - i,
        {
            if v[i] < v[i - 1] {
                swap_at(v, i - 1, i);
                swapped = true;
            }
            i = i + 1;
        }
        pass = pass + 1;
    }
}

impl Sorter for BubbleSort {
    fn sort(&self, v: &mut Vec<u64>) {
        sort(v);
    }
}

} // verus!
