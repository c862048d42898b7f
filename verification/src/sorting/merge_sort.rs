//! Merge sort: split the slice in half, sort each half, and merge the two
//! sorted halves into a fresh buffer that replaces the original contents.

use crate::sorting::sorted;
use crate::sorting::Sorter;
use vstd::multiset::Multiset;
use vstd::prelude::*;
use vstd::seq_lib::lemma_multiset_commutative;

verus! {

broadcast use vstd::seq_lib::group_to_multiset_ensures;

pub struct MergeSort {}

/// Merges two sorted vectors into one sorted vector holding the elements
/// of both.
fn merge(a: &Vec<u64>, b: &Vec<u64>) -> (out: Vec<u64>)
    requires
        sorted(a@),
        sorted(b@),
    ensures
        sorted(out@),
        out@.to_multiset() == a@.to_multiset().add(b@.to_multiset()),
{
    let mut out: Vec<u64> = Vec::new();
    let mut i: usize = 0;
    let mut j: usize = 0;
    proof {
        assert(out@.to_multiset() =~= a@.take(0).to_multiset().add(b@.take(0).to_multiset()))
            by {
            broadcast use vstd::multiset::group_multiset_axioms;

            assert(a@.take(0) =~= Seq::<u64>::empty());
            assert(b@.take(0) =~= Seq::<u64>::empty());
            assert(Seq::<u64>::empty().to_multiset() =~= Multiset::<u64>::empty());
        }
    }
    while i < a.len() || j < b.len()
        invariant
            i <= a.len(),
            j <= b.len(),
            sorted(a@),
            sorted(b@),
            sorted(out@),
            out@.to_multiset() == a@.take(i as int).to_multiset().add(
                b@.take(j as int).to_multiset(),
            ),
            forall|k: int, q: int|
                #![trigger out@[k], a@[q]]
                0 <= k < out@.len() && i <= q < a@.len() ==> out@[k] <= a@[q],
            forall|k: int, q: int|
                #![trigger out@[k], b@[q]]
                0 <= k < out@.len() && j <= q < b@.len() ==> out@[k] <= b@[q],
        decreases a.len() - i + b.len() - j,
    {
        let ghost out0 = out@;
        if i < a.len() && (j >= b.len() || a[i] <= b[j]) {
            let x = a[i];
            out.push(x);
            i = i + 1;
            proof {
                assert(a@.take(i as int) =~= a@.take(i as int - 1).push(x));
                assert(out@.to_multiset() =~= a@.take(i as int).to_multiset().add(
                    b@.take(j as int).to_multiset(),
                )) by {
                    broadcast use vstd::multiset::group_multiset_axioms;

                }
                assert forall|k: int, q: int|
                    #![trigger out@[k], a@[q]]
                    0 <= k < out@.len() && i <= q < a@.len() implies out@[k] <= a@[q] by {
                    if k == out@.len() - 1 {
                        assert(out@[k] == a@[i as int - 1]);
                        assert(a@[i as int - 1] <= a@[q]);
                    } else {
                        assert(out@[k] == out0[k]);
                    }
                }
                assert forall|k: int, q: int|
                    #![trigger out@[k], b@[q]]
                    0 <= k < out@.len() && j <= q < b@.len() implies out@[k] <= b@[q] by {
                    if k == out@.len() - 1 {
                        assert(out@[k] == a@[i as int - 1]);
                        assert(a@[i as int - 1] <= b@[j as int]);
                        assert(b@[j as int] <= b@[q]);
                    } else {
                        assert(out@[k] == out0[k]);
                    }
                }
                assert forall|k: int, q: int|
                    0 <= k < q < out@.len() implies out@[k] <= out@[q] by {
                    if q == out@.len() - 1 {
                        assert(out0[k] <= a@[i as int - 1]);
                    } else {
                        assert(out0[k] <= out0[q]);
                    }
                }
            }
        } else {
            let x = b[j];
            out.push(x);
            j = j + 1;
            proof {
                assert(b@.take(j as int) =~= b@.take(j as int - 1).push(x));
                assert(out@.to_multiset() =~= a@.take(i as int).to_multiset().add(
                    b@.take(j as int).to_multiset(),
                )) by {
                    broadcast use vstd::multiset::group_multiset_axioms;

                }
                assert forall|k: int, q: int|
                    #![trigger out@[k], b@[q]]
                    0 <= k < out@.len() && j <= q < b@.len() implies out@[k] <= b@[q] by {
                    if k == out@.len() - 1 {
                        assert(out@[k] == b@[j as int - 1]);
                        assert(b@[j as int - 1] <= b@[q]);
                    } else {
                        assert(out@[k] == out0[k]);
                    }
                }
                assert forall|k: int, q: int|
                    #![trigger out@[k], a@[q]]
                    0 <= k < out@.len() && i <= q < a@.len() implies out@[k] <= a@[q] by {
                    if k == out@.len() - 1 {
                        assert(out@[k] == b@[j as int - 1]);
                        assert(b@[j as int - 1] < a@[i as int]);
                        assert(a@[i as int] <= a@[q]);
                    } else {
                        assert(out@[k] == out0[k]);
                    }
                }
                assert forall|k: int, q: int|
                    0 <= k < q < out@.len() implies out@[k] <= out@[q] by {
                    if q == out@.len() - 1 {
                        assert(out0[k] <= b@[j as int - 1]);
                    } else {
                        assert(out0[k] <= out0[q]);
                    }
                }
            }
        }
    }
    proof {
        assert(a@.take(a@.len() as int) =~= a@);
        assert(b@.take(b@.len() as int) =~= b@);
    }
    out
}

/// Sorts the vector in place.
pub fn sort(v: &mut Vec<u64>)
    ensures
        sorted(final(v)@),
        final(v)@.to_multiset() == old(v)@.to_multiset(),
    decreases old(v)@.len(),
{
    let n = v.len();
    if n <= 1 {
        return;
    }
    let mid = n / 2;
    let mut left: Vec<u64> = Vec::new();
    let mut i: usize = 0;
    while i < mid
        invariant
            i <= mid,
            mid < n,
            n == v.len(),
            left@ == v@.subrange(0, i as int),
        decreases mid - i,
    {
        let x = v[i];
        left.push(x);
        i = i + 1;
        proof {
            assert(v@.subrange(0, i as int) =~= v@.subrange(0, i as int - 1).push(x));
        }
    }
    let mut right: Vec<u64> = Vec::new();
    let mut j: usize = mid;
    while j < n
        invariant
            mid <= j <= n,
            n == v.len(),
            right@ == v@.subrange(mid as int, j as int),
        decreases n - j,
    {
        let x = v[j];
        right.push(x);
        j = j + 1;
        proof {
            assert(v@.subrange(mid as int, j as int) =~= v@.subrange(
                mid as int,
                j as int - 1,
            ).push(x));
        }
    }
    sort(&mut left);
    sort(&mut right);
    let merged = merge(&left, &right);
    proof {
        assert(v@ =~= v@.subrange(0, mid as int) + v@.subrange(mid as int, n as int));
        lemma_multiset_commutative(
            v@.subrange(0, mid as int),
            v@.subrange(mid as int, n as int),
        );
    }
    *v = merged;
}

impl Sorter for MergeSort {
    fn sort(&self, v: &mut Vec<u64>) {
        sort(v);
    }
}

} // verus!
