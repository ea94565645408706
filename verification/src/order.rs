//! What it means for a sequence to be sorted, and for one sequence to be a
//! rearrangement of another.

use vstd::prelude::*;
use vstd::seq_lib::*;

verus! {

/// `s` is in non-decreasing order.
pub open spec fn sorted(s: Seq<i32>) -> bool {
    forall|i: int, j: int| 0 <= i <= j < s.len() ==> s[i] <= s[j]
}

/// `a` and `b` hold the same values, each as often in one as in the other.
pub open spec fn same_elements(a: Seq<i32>, b: Seq<i32>) -> bool {
    a.to_multiset() == b.to_multiset()
}

/// `out` is `input` put in non-decreasing order.
pub open spec fn is_sorting_of(out: Seq<i32>, input: Seq<i32>) -> bool {
    sorted(out) && same_elements(out, input)
}

/// Every element of `a` is at most every element of `b`.
pub open spec fn all_at_most(a: Seq<i32>, b: Seq<i32>) -> bool {
    forall|i: int, j: int| 0 <= i < a.len() && 0 <= j < b.len() ==> a[i] <= b[j]
}

/// Two sorted sequences with the same elements are the same sequence.
pub proof fn lemma_sorted_same_elements_equal(a: Seq<i32>, b: Seq<i32>)
    requires
        sorted(a),
        sorted(b),
        same_elements(a, b),
    ensures
        a == b,
    decreases a.len(),
{
    broadcast use group_to_multiset_ensures;

    assert(a.len() == b.len()) by {
        assert(a.to_multiset().len() == b.to_multiset().len());
    }
    if a.len() > 0 {
        let x = a.last();
        let y = b.last();
        assert(a.contains(x));
        assert(b.contains(y));
        assert(b.to_multiset().count(x) > 0);
        assert(a.to_multiset().count(y) > 0);
        assert(b.contains(x));
        assert(a.contains(y));
        let j = choose|j: int| 0 <= j < b.len() && b[j] == x;
        let i = choose|i: int| 0 <= i < a.len() && a[i] == y;
        assert(b[j] <= y);
        assert(a[i] <= x);
        assert(x == y);
        assert(a.drop_last() =~= a.remove(a.len() - 1));
        assert(b.drop_last() =~= b.remove(b.len() - 1));
        assert(a.drop_last().to_multiset() == b.drop_last().to_multiset());
        assert(sorted(a.drop_last()));
        assert(sorted(b.drop_last()));
        lemma_sorted_same_elements_equal(a.drop_last(), b.drop_last());
        assert(a =~= a.drop_last().push(x));
        assert(b =~= b.drop_last().push(y));
    } else {
        assert(a =~= b);
    }
}

/// There is one way to sort a sequence: any two sortings of `input` are equal.
pub proof fn lemma_sorting_is_unique(a: Seq<i32>, b: Seq<i32>, input: Seq<i32>)
    requires
        is_sorting_of(a, input),
        is_sorting_of(b, input),
    ensures
        a == b,
{
    lemma_sorted_same_elements_equal(a, b);
}

/// Sorting what is already sorted changes nothing.
pub proof fn lemma_sorting_sorted_is_identity(out: Seq<i32>, input: Seq<i32>)
    requires
        sorted(input),
        is_sorting_of(out, input),
    ensures
        out == input,
{
    lemma_sorted_same_elements_equal(out, input);
}

/// Appending a sorted sequence to a sorted sequence none of whose elements is
/// larger gives a sorted sequence.
pub proof fn lemma_sorted_concat(a: Seq<i32>, b: Seq<i32>)
    requires
        sorted(a),
        sorted(b),
        all_at_most(a, b),
    ensures
        sorted(a + b),
{
    let c = a + b;
    assert forall|i: int, j: int| 0 <= i <= j < c.len() implies c[i] <= c[j] by {
        if j < a.len() {
            assert(c[i] == a[i] && c[j] == a[j]);
        } else if i < a.len() {
            assert(c[i] == a[i] && c[j] == b[j - a.len()]);
        } else {
            assert(c[i] == b[i - a.len()] && c[j] == b[j - a.len()]);
        }
    }
}

} // verus!
