//! Sampling the pivots of a region.

use vstd::prelude::*;
use crate::direct::direct_sort;
use crate::order::{is_sorting_of, sorted};
use crate::source::{index_from_word, index_of_word, RandomSource};

verus! {

/// The values that the random words `words` pick from `region`, in the order
/// of the draws: word `k` picks the element at its remainder by the region's
/// length. A value may be picked more than once.
pub open spec fn picks(region: Seq<i32>, words: Seq<usize>) -> Seq<i32> {
    Seq::new(words.len(), |k: int| region[index_of_word(words[k], region.len())])
}

/// The pivots that the draws `words` give for the region `arr[l..=r]`: the
/// values they pick, sorted.
pub fn pivots_from_words(arr: &[i32], l: usize, r: usize, words: &Vec<usize>) -> (pivots: Vec<i32>)
    requires
        l <= r < arr@.len(),
    ensures
        is_sorting_of(pivots@, picks(arr@.subrange(l as int, r + 1), words@)),
{
    let ghost region = arr@.subrange(l as int, r + 1);
    let len: usize = arr.len();
    let n: usize = r - l + 1;
    let mut pivots: Vec<i32> = Vec::new();
    let mut k: usize = 0;
    while k < words.len()
        invariant
            k <= words@.len(),
            l <= r < arr@.len() == len,
            n == r - l + 1,
            region == arr@.subrange(l as int, r + 1),
            pivots@ == picks(region, words@.take(k as int)),
        decreases words@.len() - k,
    {
        let index: usize = index_from_word(words[k], n);
        pivots.push(arr[l + index]);
        proof {
            let before = picks(region, words@.take(k as int));
            let after = picks(region, words@.take(k + 1));
            assert(region[index as int] == arr@[l + index]);
            assert(after =~= before.push(arr@[l + index]));
        }
        k = k + 1;
    }
    proof {
        assert(words@.take(k as int) =~= words@);
    }
    direct_sort(pivots.as_mut_slice());
    pivots
}

/// Samples `tree_size` pivots, and one where `tree_size` is 0, from the region
/// `arr[l..=r]`: values drawn from it at random, with replacement, and sorted.
/// Which values they are rests with `source`; they are what
/// `pivots_from_words` gives for the words that it draws.
pub fn sample(arr: &[i32], l: usize, r: usize, tree_size: usize, source: &mut RandomSource) -> (pivots:
    Vec<i32>)
    requires
        l <= r < arr@.len(),
    ensures
        pivots@.len() == if tree_size == 0 { 1 } else { tree_size as int },
        sorted(pivots@),
        forall|k: int|
            0 <= k < pivots@.len() ==> arr@.subrange(l as int, r + 1).contains(#[trigger] pivots@[k]),
        exists|words: Seq<usize>|
            words.len() == pivots@.len() && is_sorting_of(
                pivots@,
                #[trigger] picks(arr@.subrange(l as int, r + 1), words),
            ),
{
    let count: usize = if tree_size == 0 {
        1
    } else {
        tree_size
    };
    let words: Vec<usize> = source.words(count);
    let pivots: Vec<i32> = pivots_from_words(arr, l, r, &words);
    proof {
        lemma_pivots_come_from_region(arr@.subrange(l as int, r + 1), words@, pivots@);
    }
    pivots
}

/// Pivots made from draws are as many as the draws, and each is an element of
/// the region.
pub proof fn lemma_pivots_come_from_region(region: Seq<i32>, words: Seq<usize>, pivots: Seq<i32>)
    requires
        0 < region.len(),
        is_sorting_of(pivots, picks(region, words)),
    ensures
        pivots.len() == words.len(),
        forall|k: int| 0 <= k < pivots.len() ==> region.contains(#[trigger] pivots[k]),
{
    broadcast use vstd::seq_lib::group_to_multiset_ensures;

    let picked = picks(region, words);
    assert(pivots.to_multiset().len() == picked.to_multiset().len());
    assert forall|k: int| 0 <= k < pivots.len() implies region.contains(#[trigger] pivots[k]) by {
        assert(pivots.contains(pivots[k]));
        assert(picked.to_multiset().count(pivots[k]) > 0);
        assert(picked.contains(pivots[k]));
        let at = choose|at: int| 0 <= at < picked.len() && picked[at] == pivots[k];
        let index = index_of_word(words[at], region.len());
        assert(0 <= index < region.len());
        assert(region[index] == pivots[k]);
    }
}

} // verus!
