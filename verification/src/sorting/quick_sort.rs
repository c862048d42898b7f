//! Quicksort: partition around the first element of the region, then sort
//! the two sides recursively.

use crate::sorting::lemma_swap_multiset;
use crate::sorting::sorted;
use crate::sorting::swap_at;
use crate::sorting::Sorter;
use vstd::prelude::*;
use vstd::seq_lib::lemma_multiset_commutative;

verus! {

broadcast use vstd::seq_lib::group_to_multiset_ensures;

pub struct QuickSort;

/// Sorts the region `[lo, hi)` in place, leaving the rest of the vector
/// untouched.
#[verifier::rlimit(100)]
fn qsort(v: &mut Vec<u64>, lo: usize, hi: usize)
    requires
        lo <= hi,
        hi <= old(v).len(),
    ensures
        final(v).len() == old(v).len(),
        forall|p: int| 0 <= p < lo ==> final(v)@[p] == old(v)@[p],
        forall|p: int| hi <= p < old(v)@.len() ==> final(v)@[p] == old(v)@[p],
        final(v)@.subrange(lo as int, hi as int).to_multiset() == old(v)@.subrange(
            lo as int,
            hi as int,
        ).to_multiset(),
        sorted(final(v)@.subrange(lo as int, hi as int)),
    decreases hi - lo,
{
    if hi - lo <= 1 {
        return;
    }
    let pivot = v[lo];
    let mut m = lo;
    let mut j = lo + 1;
    while j < hi
        invariant
            lo <= m < j <= hi,
            hi <= v.len(),
            v.len() == old(v).len(),
            v@[lo as int] == pivot,
            forall|p: int| lo < p <= m ==> v@[p] <= pivot,
            forall|p: int| m < p < j ==> v@[p] > pivot,
            forall|p: int| 0 <= p < lo ==> v@[p] == old(v)@[p],
            forall|p: int| hi <= p < v@.len() ==> v@[p] == old(v)@[p],
            v@.subrange(lo as int, hi as int).to_multiset() == old(v)@.subrange(
                lo as int,
                hi as int,
            ).to_multiset(),
        decreases hi - j,
    {
        if v[j] <= pivot {
            m = m + 1;
            let ghost before = v@;
            swap_at(v, m, j);
            proof {
                let sub = before.subrange(lo as int, hi as int);
                assert(v@.subrange(lo as int, hi as int) =~= sub.update(
                    m as int - lo,
                    sub[j as int - lo],
                ).update(j as int - lo, sub[m as int - lo]));
                lemma_swap_multiset(sub, m as int - lo, j as int - lo);
            }
        }
        j = j + 1;
    }
    let ghost before = v@;
    swap_at(v, lo, m);
    let ghost part = v@;
    proof {
        let sub = before.subrange(lo as int, hi as int);
        assert(part.subrange(lo as int, hi as int) =~= sub.update(0, sub[m as int - lo]).update(
            m as int - lo,
            sub[0],
        ));
        lemma_swap_multiset(sub, 0, m as int - lo);
        assert(part[m as int] == pivot);
        assert(forall|p: int| lo <= p < m ==> part[p] <= pivot);
        assert(forall|p: int| m < p < hi ==> part[p] > pivot);
    }
    qsort(v, lo, m);
    let ghost left_done = v@;
    proof {
        assert(left_done.subrange(m as int, hi as int) =~= part.subrange(m as int, hi as int));
        assert(left_done[m as int] == pivot);
        assert forall|p: int| lo <= p < m implies left_done[p] <= pivot by {
            let ls = left_done.subrange(lo as int, m as int);
            let x = ls[p - lo];
            assert(ls.contains(x));
            vstd::seq_lib::to_multiset_contains(ls, x);
            vstd::seq_lib::to_multiset_contains(part.subrange(lo as int, m as int), x);
            assert(part.subrange(lo as int, m as int).contains(x));
            let w = choose|w: int|
                #![trigger part.subrange(lo as int, m as int)[w]]
                0 <= w < m - lo && part.subrange(lo as int, m as int)[w] == x;
            assert(part[lo + w] == x);
        }
    }
    qsort(v, m + 1, hi);
    proof {
        let fin = v@;
        assert(fin.subrange(lo as int, m as int + 1) =~= left_done.subrange(
            lo as int,
            m as int + 1,
        ));
        assert(fin[m as int] == pivot);
        assert forall|p: int| lo <= p < m implies fin[p] <= pivot by {
            assert(fin[p] == left_done[p]);
        }
        assert forall|p: int| m < p < hi implies fin[p] > pivot by {
            let rs = fin.subrange(m as int + 1, hi as int);
            let x = rs[p - m - 1];
            assert(rs.contains(x));
            vstd::seq_lib::to_multiset_contains(rs, x);
            vstd::seq_lib::to_multiset_contains(left_done.subrange(m as int + 1, hi as int), x);
            assert(left_done.subrange(m as int + 1, hi as int).contains(x));
            let w = choose|w: int|
                #![trigger left_done.subrange(m as int + 1, hi as int)[w]]
                0 <= w < hi - m - 1 && left_done.subrange(m as int + 1, hi as int)[w] == x;
            assert(left_done[m + 1 + w] == x);
            assert(left_done[m + 1 + w] == part[m + 1 + w]);
        }
        assert forall|p: int, q: int| lo <= p < q < hi implies fin[p] <= fin[q] by {
            let ls = fin.subrange(lo as int, m as int);
            let rs = fin.subrange(m as int + 1, hi as int);
            if p < m && q < m {
                assert(ls[p - lo] <= ls[q - lo]);
            } else if p > m && q > m {
                assert(rs[p - m - 1] <= rs[q - m - 1]);
            }
        }
        assert forall|i: int, j2: int|
            0 <= i < j2 < hi - lo implies fin.subrange(lo as int, hi as int)[i]
            <= fin.subrange(lo as int, hi as int)[j2] by {
            assert(fin[lo + i] <= fin[lo + j2]);
        }
        assert(fin.subrange(lo as int, hi as int) =~= fin.subrange(lo as int, m as int) + seq![
            fin[m as int],
        ] + fin.subrange(m as int + 1, hi as int));
        assert(part.subrange(lo as int, hi as int) =~= part.subrange(lo as int, m as int)
            + seq![part[m as int]] + part.subrange(m as int + 1, hi as int));
        lemma_multiset_commutative(fin.subrange(lo as int, m as int), seq![fin[m as int]]);
        lemma_multiset_commutative(
            fin.subrange(lo as int, m as int) + seq![fin[m as int]],
            fin.subrange(m as int + 1, hi as int),
        );
        lemma_multiset_commutative(part.subrange(lo as int, m as int), seq![part[m as int]]);
        lemma_multiset_commutative(
            part.subrange(lo as int, m as int) + seq![part[m as int]],
            part.subrange(m as int + 1, hi as int),
        );
        assert(fin.subrange(lo as int, m as int).to_multiset() == part.subrange(
            lo as int,
            m as int,
        ).to_multiset()) by {
            assert(fin.subrange(lo as int, m as int) =~= left_done.subrange(lo as int, m as int));
        }
        assert(fin.subrange(m as int + 1, hi as int).to_multiset() == part.subrange(
            m as int + 1,
            hi as int,
        ).to_multiset()) by {
            assert(left_done.subrange(m as int + 1, hi as int) =~= part.subrange(
                m as int + 1,
                hi as int,
            ));
        }
        assert(fin.subrange(lo as int, hi as int).to_multiset() == part.subrange(
            lo as int,
            hi as int,
        ).to_multiset());
    }
}

/// Sorts the vector in place.
pub fn sort(v: &mut Vec<u64>)
    ensures
        sorted(final(v)@),
        final(v)@.to_multiset() == old(v)@.to_multiset(),
{
    let n = v.len();
    qsort(v, 0, n);
    proof {
        assert(v@.subrange(0, n as int) =~= v@);
        assert(old(v)@.subrange(0, n as int) =~= old(v)@);
    }
}

impl Sorter for QuickSort {
    fn sort(&self, v: &mut Vec<u64>) {
        sort(v);
    }
}

} // verus!
