//! The comparison sort that finishes small bins: insertion sort, in place.

use vstd::prelude::*;
use vstd::seq_lib::*;
use vstd::multiset::*;
use crate::order::{is_sorting_of, same_elements, sorted};

verus! {

/// `s` with the values at positions `i` and `j` exchanged.
pub open spec fn swapped(s: Seq<i32>, i: int, j: int) -> Seq<i32> {
    s.update(i, s[j]).update(j, s[i])
}

/// Exchanging two values of a sequence keeps its elements.
pub proof fn lemma_swap_same_elements(s: Seq<i32>, i: int, j: int)
    requires
        0 <= i < s.len(),
        0 <= j < s.len(),
    ensures
        same_elements(swapped(s, i, j), s),
{
    broadcast use group_to_multiset_ensures;
    broadcast use group_multiset_axioms;

    let mid = s.update(i, s[j]);
    assert(mid.to_multiset() == s.to_multiset().insert(s[j]).remove(s[i]));
    assert(mid[j] == if i == j { s[j] } else { s[j] });
    assert(swapped(s, i, j).to_multiset() == mid.to_multiset().insert(s[i]).remove(s[j]));
    assert(s.to_multiset().count(s[i]) > 0) by {
        assert(s.contains(s[i]));
    }
    assert(s.to_multiset().count(s[j]) > 0) by {
        assert(s.contains(s[j]));
    }
    assert(swapped(s, i, j).to_multiset() =~= s.to_multiset());
}

/// Sorts `a` in place into non-decreasing order.
pub fn direct_sort(a: &mut [i32])
    ensures
        is_sorting_of(final(a)@, old(a)@),
{
    let n = a.len();
    let mut i: usize = 1;
    while i < n
        invariant
            a@.len() == n,
            1 <= i,
            i <= n || n == 0,
            sorted(a@.subrange(0, if n == 0 { 0 } else { i as int })),
            same_elements(a@, old(a)@),
        decreases n - i,
    {
        let mut j: usize = i;
        proof {
            let prefix = a@.subrange(0, i as int);
            assert forall|p: int, q: int| 0 <= p <= q < i implies a@[p] <= a@[q] by {
                assert(prefix[p] <= prefix[q]);
            }
        }
        while j > 0 && a[j - 1] > a[j]
            invariant
                a@.len() == n,
                j <= i < n,
                same_elements(a@, old(a)@),
                forall|p: int, q: int| 0 <= p <= q <= i && p != j && q != j ==> a@[p] <= a@[q],
                forall|q: int| j < q <= i ==> a@[j as int] <= a@[q],
            decreases j,
        {
            let ghost before = a@;
            let left = a[j - 1];
            let right = a[j];
            a[j - 1] = right;
            a[j] = left;
            proof {
                assert(a@ == swapped(before, j - 1, j as int));
                lemma_swap_same_elements(before, j - 1, j as int);
            }
            j -= 1;
        }
        proof {
            let prefix = a@.subrange(0, i + 1);
            assert forall|p: int, q: int| 0 <= p <= q < prefix.len() implies prefix[p] <= prefix[q] by {
                if p != j && q != j {
                } else if p == j && q == j {
                } else if p == j {
                } else {
                    if p == j - 1 {
                    } else if j >= 1 {
                        assert(a@[p] <= a@[j - 1]);
                    }
                }
            }
        }
        i += 1;
    }
    proof {
        if n == 0 {
            assert(a@.subrange(0, 0) =~= a@);
        } else {
            assert(a@.subrange(0, n as int) =~= a@);
        }
    }
}

} // verus!
