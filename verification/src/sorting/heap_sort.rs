//! Heap sort: arrange the slice as a max-heap, then repeatedly move the
//! root to the end of a shrinking heap region and sift the new root down.

use crate::sorting::sorted;
use crate::sorting::swap_at;
use crate::sorting::Sorter;
use vstd::prelude::*;
use vstd::seq_lib::lemma_multiset_commutative;

verus! {

broadcast use vstd::seq_lib::group_to_multiset_ensures;

pub struct HeapSort;

/// The max-heap ordering on the region below `end`, for parents at `lo` or
/// deeper: each such parent is at least as large as its children.
spec fn heap_le(s: Seq<u64>, lo: int, end: int) -> bool {
    forall|p: int, c: int|
        #![trigger s[p], s[c]]
        lo <= p && (c == 2 * p + 1 || c == 2 * p + 2) && c < end ==> s[p] >= s[c]
}

/// Whether `q` lies in the subtree rooted at `r`, following parent links.
spec fn in_subtree(q: int, r: int) -> bool
    decreases q,
{
    if q == r {
        true
    } else if q > r && r >= 0 {
        in_subtree((q - 1) / 2, r)
    } else {
        false
    }
}

/// Positions in the subtree of `r` never lie above `r`.
proof fn lemma_in_subtree_ge(q: int, r: int)
    ensures
        in_subtree(q, r) ==> q >= r,
    decreases q,
{
    if q > r && r >= 0 {
        lemma_in_subtree_ge((q - 1) / 2, r);
    }
}

/// Subtree membership is transitive along parent links.
proof fn lemma_in_subtree_trans(q: int, m: int, r: int)
    requires
        in_subtree(q, m),
        in_subtree(m, r),
    ensures
        in_subtree(q, r),
    decreases q - m,
{
    if q != m {
        lemma_in_subtree_ge((q - 1) / 2, m);
        lemma_in_subtree_trans((q - 1) / 2, m, r);
        lemma_in_subtree_ge(m, r);
    }
}

/// In a heap region the root holds the largest element.
proof fn lemma_heap_root_max(s: Seq<u64>, end: int, q: int)
    requires
        heap_le(s, 0, end),
        0 <= q < end,
        end <= s.len(),
    ensures
        s[0] >= s[q],
    decreases q,
{
    if q > 0 {
        let p = (q - 1) / 2;
        assert(q == 2 * p + 1 || q == 2 * p + 2);
        assert(s[p] >= s[q]);
        lemma_heap_root_max(s, end, p);
    }
}

/// Sifts the element at `root` down until the subtree below it satisfies
/// the heap ordering again; everything above and beside that subtree is
/// untouched.
#[verifier::rlimit(100)]
fn heapify(v: &mut Vec<u64>, root: usize, end: usize)
    requires
        root < end,
        end <= old(v).len(),
        heap_le(old(v)@, root as int + 1, end as int),
    ensures
        final(v).len() == old(v).len(),
        forall|q: int|
            0 <= q < final(v)@.len() && !in_subtree(q, root as int) ==> final(v)@[q] == old(
                v,
            )@[q],
        forall|q: int| end <= q < final(v)@.len() ==> final(v)@[q] == old(v)@[q],
        final(v)@.subrange(0, end as int).to_multiset() == old(v)@.subrange(
            0,
            end as int,
        ).to_multiset(),
        heap_le(final(v)@, root as int, end as int),
        final(v)@[root as int] == old(v)@[root as int]
            || (2 * root + 1 < end && final(v)@[root as int] == old(v)@[2 * root + 1])
            || (2 * root + 2 < end && final(v)@[root as int] == old(v)@[2 * root + 2]),
    decreases end - root,
{
    if root >= end / 2 {
        proof {
            assert(2 * (root as int) + 1 >= end as int);
        }
        return;
    }
    let left = 2 * root + 1;
    let mut largest = root;
    if v[left] > v[largest] {
        largest = left;
    }
    let right = left + 1;
    if right < end && v[right] > v[largest] {
        largest = right;
    }
    if largest == root {
        return;
    }
    let ghost pre = v@;
    swap_at(v, root, largest);
    let ghost mid = v@;
    proof {
        assert(mid.subrange(0, end as int) =~= pre.subrange(0, end as int).update(
            root as int,
            pre[largest as int],
        ).update(largest as int, pre[root as int]));
        assert(heap_le(mid, largest as int + 1, end as int));
        lemma_in_subtree_ge(root as int, largest as int);
    }
    heapify(v, largest, end);
    proof {
        assert(v@[root as int] == mid[root as int]);
        assert(mid.subrange(0, end as int).to_multiset() == pre.subrange(
            0,
            end as int,
        ).to_multiset());
        assert(in_subtree(largest as int, root as int)) by {
            assert(in_subtree(root as int, root as int));
            assert((largest as int - 1) / 2 == root as int);
        }
        assert forall|q: int|
            0 <= q < v@.len() && !in_subtree(q, root as int) implies v@[q] == pre[q] by {
            if in_subtree(q, largest as int) {
                lemma_in_subtree_trans(q, largest as int, root as int);
            }
        }
        assert forall|q: int| 0 <= q < end as int && !in_subtree(q, largest as int)
            implies v@[q] == mid[q] by {}
        assert(v@.subrange(0, end as int).to_multiset() == mid.subrange(
            0,
            end as int,
        ).to_multiset());
        assert forall|p: int, c: int|
            #![trigger v@[p], v@[c]]
            root as int <= p && (c == 2 * p + 1 || c == 2 * p + 2) && c < end as int
            implies v@[p] >= v@[c] by {
            if p >= largest as int {
            } else if p == root as int {
                if c == largest as int {
                    assert(v@[root as int] == pre[largest as int]);
                    assert(mid[largest as int] == pre[root as int]);
                    assert(2 * (largest as int) + 1 < end as int ==> mid[2 * (largest as int)
                        + 1] == pre[2 * (largest as int) + 1]);
                    assert(2 * (largest as int) + 2 < end as int ==> mid[2 * (largest as int)
                        + 2] == pre[2 * (largest as int) + 2]);
                    assert(v@[c] <= pre[largest as int]);
                } else {
                    assert(!in_subtree(c, largest as int));
                    assert(v@[c] == mid[c]);
                }
            } else {
                assert(!in_subtree(p, largest as int)) by {
                    lemma_in_subtree_ge(p, largest as int);
                }
                assert(!in_subtree(c, largest as int)) by {
                    if in_subtree(c, largest as int) {
                        lemma_in_subtree_ge(c, largest as int);
                        assert(c != largest as int);
                        assert(in_subtree((c - 1) / 2, largest as int));
                        assert((c - 1) / 2 == p);
                        lemma_in_subtree_ge(p, largest as int);
                    }
                }
                assert(v@[p] == mid[p] && v@[c] == mid[c]);
                assert(mid[p] == pre[p] && mid[c] == pre[c]);
            }
        }
    }
}

/// Sorts the vector in place.
pub fn sort(v: &mut Vec<u64>)
    ensures
        sorted(final(v)@),
        final(v)@.to_multiset() == old(v)@.to_multiset(),
{
    let n = v.len();
    if n <= 1 {
        return;
    }
    let mut i: usize = n / 2;
    while i > 0
        invariant
            i <= n / 2,
            n == v.len(),
            v@.to_multiset() == old(v)@.to_multiset(),
            heap_le(v@, i as int, n as int),
        decreases i,
    {
        i = i - 1;
        let ghost before = v@;
        heapify(v, i, n);
        proof {
            assert(v@.subrange(0, n as int) =~= v@);
            assert(before.subrange(0, n as int) =~= before);
        }
    }
    let mut end = n;
    while end > 1
        invariant
            1 <= end <= n,
            n == v.len(),
            v@.to_multiset() == old(v)@.to_multiset(),
            heap_le(v@, 0, end as int),
            forall|p: int, q: int|
                #![trigger v@[p], v@[q]]
                0 <= p < q < n && q >= end ==> v@[p] <= v@[q],
        decreases end,
    {
        end = end - 1;
        let ghost pre = v@;
        proof {
            assert forall|q: int| 0 <= q < end as int + 1 implies pre[0] >= #[trigger] pre[q] by {
                lemma_heap_root_max(pre, end as int + 1, q);
            }
        }
        swap_at(v, 0, end);
        let ghost mid = v@;
        heapify(v, 0, end);
        proof {
            assert forall|q: int| end as int <= q < n as int implies v@[q] == mid[q] by {}
            assert(v@.subrange(end as int, n as int) =~= mid.subrange(end as int, n as int));
            assert(v@ =~= v@.subrange(0, end as int) + v@.subrange(end as int, n as int));
            assert(mid =~= mid.subrange(0, end as int) + mid.subrange(end as int, n as int));
            lemma_multiset_commutative(v@.subrange(0, end as int), v@.subrange(end as int,
                n as int));
            lemma_multiset_commutative(mid.subrange(0, end as int), mid.subrange(end as int,
                n as int));
            assert(v@.to_multiset() == mid.to_multiset());
            assert forall|p: int, q: int|
                #![trigger v@[p], v@[q]]
                0 <= p < q < n && q >= end as int implies v@[p] <= v@[q] by {
                if p < end as int {
                    let x = v@[p];
                    assert(v@.subrange(0, end as int)[p] == x);
                    assert(v@.subrange(0, end as int).to_multiset().count(x) > 0) by {
                        vstd::seq_lib::to_multiset_contains(v@.subrange(0, end as int), x);
                        assert(v@.subrange(0, end as int).contains(x));
                    }
                    assert(mid.subrange(0, end as int).contains(x)) by {
                        vstd::seq_lib::to_multiset_contains(mid.subrange(0, end as int), x);
                    }
                    let w = choose|w: int|
                        0 <= w < end as int && mid.subrange(0, end as int)[w] == x;
                    assert(mid[w] == x);
                    assert(mid[w] <= v@[q]) by {
                        if w == 0 {
                            assert(mid[0] == pre[end as int]);
                            if q == end as int {
                                assert(v@[q] == mid[end as int]);
                                assert(mid[end as int] == pre[0]);
                            } else {
                                assert(v@[q] == pre[q]);
                                assert(pre[end as int] <= pre[q]);
                            }
                        } else if w == end as int {
                            assert(false);
                        } else {
                            assert(mid[w] == pre[w]);
                            if q == end as int {
                                assert(v@[q] == mid[end as int]);
                                assert(mid[end as int] == pre[0]);
                                assert(pre[0] >= pre[w]);
                            } else {
                                assert(v@[q] == pre[q]);
                                assert(pre[w] <= pre[q]);
                            }
                        }
                    }
                } else {
                    assert(v@[p] == mid[p] && v@[q] == mid[q]);
                    assert(mid[p] == pre[p] || p == end as int);
                    assert(mid[q] == pre[q]);
                }
            }
        }
    }
    proof {
        assert forall|p: int, q: int| 0 <= p < q < v@.len() implies v@[p] <= v@[q] by {
            assert(q >= 1);
        }
    }
}

impl Sorter for HeapSort {
    fn sort(&self, v: &mut Vec<u64>) {
        sort(v);
    }
}

} // verus!
