//! Six elementary in-place sorting routines behind one shared contract:
//! the slice afterwards is sorted and holds the same elements, counted with
//! multiplicity, as before.

use vstd::prelude::*;

pub mod bubble_sort;
pub mod heap_sort;
pub mod merge_sort;
pub mod quick_sort;
pub mod insertion_sort;
pub mod selection_sort;

verus! {

broadcast use vstd::seq_lib::group_to_multiset_ensures;

/// Ascending order over the whole sequence.
pub open spec fn sorted(s: Seq<u64>) -> bool {
    forall|i: int, j: int| #![trigger s[i], s[j]] 0 <= i < j < s.len() ==> s[i] <= s[j]
}

/// The one contract all six routines share: sort in place, keep the
/// elements.
pub trait Sorter {
    fn sort(&self, v: &mut Vec<u64>)
        ensures
            sorted(final(v)@),
            final(v)@.to_multiset() == old(v)@.to_multiset(),
    ;
}

/// Exchanging two positions of a sequence leaves its multiset unchanged.
pub(crate) proof fn lemma_swap_multiset(s: Seq<u64>, i: int, j: int)
    requires
        0 <= i < s.len(),
        0 <= j < s.len(),
    ensures
        s.update(i, s[j]).update(j, s[i]).to_multiset() == s.to_multiset(),
{
    if i == j {
        assert(s.update(i, s[j]).update(j, s[i]) =~= s);
    } else {
        let s1 = s.update(i, s[j]);
        assert(s1[j] == s[j]);
        assert(s1.to_multiset() == s.to_multiset().insert(s[j]).remove(s[i]));
        assert(s1.update(j, s[i]).to_multiset() == s1.to_multiset().insert(s[i]).remove(s1[j]));
        assert(s.update(i, s[j]).update(j, s[i]).to_multiset() =~= s.to_multiset()) by {
            broadcast use vstd::multiset::group_multiset_axioms;

            vstd::seq_lib::to_multiset_contains(s, s[i]);
            vstd::seq_lib::to_multiset_contains(s, s[j]);
            assert(s.contains(s[i]));
            assert(s.contains(s[j]));
        }
    }
}

/// Exchanges the elements at `i` and `j`.
pub(crate) fn swap_at(v: &mut Vec<u64>, i: usize, j: usize)
    requires
        i < old(v).len(),
        j < old(v).len(),
    ensures
        final(v).len() == old(v).len(),
        final(v)@ == old(v)@.update(i as int, old(v)@[j as int]).update(
            j as int,
            old(v)@[i as int],
        ),
        final(v)@.to_multiset() == old(v)@.to_multiset(),
{
    let a = v[i];
    let b = v[j];
    v[i] = b;
    v[j] = a;
    proof {
        let s = old(v)@;
        if i == j {
            assert(v@ =~= s);
        } else {
            let s1 = s.update(i as int, s[j as int]);
            assert(s1[i as int] == s[j as int]);
            assert(s1[j as int] == s[j as int]);
            assert(v@ =~= s.update(i as int, s[j as int]).update(j as int, s[i as int]));
            assert(s1.to_multiset() == s.to_multiset().insert(s[j as int]).remove(s[i as int]));
            assert(v@.to_multiset() == s1.to_multiset().insert(s[i as int]).remove(s1[j as int]));
            assert(v@.to_multiset() =~= s.to_multiset()) by {
                broadcast use vstd::multiset::group_multiset_axioms;

                vstd::seq_lib::to_multiset_contains(s, s[i as int]);
                vstd::seq_lib::to_multiset_contains(s, s[j as int]);
                assert(s.contains(s[i as int]));
                assert(s.contains(s[j as int]));
            }
        }
    }
}

} // verus!
