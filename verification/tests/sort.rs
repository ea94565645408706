use rand::rngs::StdRng;
use rand::{Rng, SeedableRng};
use tbsort::{tbsort, tbsort_with, RandomSource, SortError};

fn sort_whole(values: &mut [i32]) -> Result<(), SortError> {
    let last = values.len() as isize - 1;
    tbsort(values, 0, last)
}

fn random_values(seed: u64, len: usize, low: i32, high: i32) -> Vec<i32> {
    let mut rng = StdRng::seed_from_u64(seed);
    let mut values = Vec::with_capacity(len);
    for _ in 0..len {
        values.push(rng.gen_range(low..=high));
    }
    values
}

fn is_sorted(values: &[i32]) -> bool {
    values.windows(2).all(|pair| pair[0] <= pair[1])
}

#[test]
fn sorts_the_demonstration_array() {
    let mut values = [12, 11, 13, 5, 6, 7, 1, 4, 17, 3, 5, 20, 22, 2];
    assert_eq!(sort_whole(&mut values), Ok(()));
    assert_eq!(values, [1, 2, 3, 4, 5, 5, 6, 7, 11, 12, 13, 17, 20, 22]);
}

#[test]
fn empty_array_stays_empty() {
    let mut values: Vec<i32> = Vec::new();
    assert_eq!(tbsort(&mut values, 0, -1), Ok(()));
    assert_eq!(values, Vec::<i32>::new());
}

#[test]
fn single_element_stays() {
    let mut values = [7];
    assert_eq!(tbsort(&mut values, 0, 0), Ok(()));
    assert_eq!(values, [7]);
}

#[test]
fn all_threes_stay() {
    let mut values = [3, 3, 3, 3, 3];
    assert_eq!(sort_whole(&mut values), Ok(()));
    assert_eq!(values, [3, 3, 3, 3, 3]);
}

#[test]
fn all_fives_stay() {
    let mut values = [5, 5, 5, 5];
    assert_eq!(sort_whole(&mut values), Ok(()));
    assert_eq!(values, [5, 5, 5, 5]);
}

#[test]
fn two_elements_in_either_order() {
    let mut rising = [1, 2];
    assert_eq!(sort_whole(&mut rising), Ok(()));
    assert_eq!(rising, [1, 2]);
    let mut falling = [2, 1];
    assert_eq!(sort_whole(&mut falling), Ok(()));
    assert_eq!(falling, [1, 2]);
}

#[test]
fn sorted_input_is_left_unchanged() {
    let mut values: Vec<i32> = (0..500).map(|k| k * 3 - 700).collect();
    let before = values.clone();
    assert_eq!(sort_whole(&mut values), Ok(()));
    assert_eq!(values, before);
}

#[test]
fn sorting_twice_changes_nothing_more() {
    let mut values = random_values(11, 3000, -1000, 1000);
    assert_eq!(sort_whole(&mut values), Ok(()));
    let once = values.clone();
    assert_eq!(sort_whole(&mut values), Ok(()));
    assert_eq!(values, once);
}

#[test]
fn reversed_input_is_sorted() {
    let mut values: Vec<i32> = (0..1000).rev().collect();
    assert_eq!(sort_whole(&mut values), Ok(()));
    let expected: Vec<i32> = (0..1000).collect();
    assert_eq!(values, expected);
}

#[test]
fn random_arrays_come_out_sorted_with_the_same_values() {
    for (seed, len) in [(1u64, 2usize), (2, 3), (3, 8), (4, 51), (5, 100), (6, 777), (7, 2546), (8, 5000)] {
        let mut values = random_values(seed, len, -50_000, 50_000);
        let mut expected = values.clone();
        expected.sort();
        assert_eq!(sort_whole(&mut values), Ok(()));
        assert!(is_sorted(&values));
        assert_eq!(values, expected);
    }
}

#[test]
fn arrays_with_many_duplicates_are_sorted() {
    for (seed, high) in [(21u64, 1), (22, 2), (23, 5), (24, 40)] {
        let mut values = random_values(seed, 4000, 0, high);
        let mut expected = values.clone();
        expected.sort();
        assert_eq!(sort_whole(&mut values), Ok(()));
        assert_eq!(values, expected);
    }
}

#[test]
fn one_outlier_among_equal_values_is_sorted() {
    let mut values = vec![9; 2000];
    values[1234] = -4;
    values[77] = 1_000_000;
    let mut expected = values.clone();
    expected.sort();
    assert_eq!(sort_whole(&mut values), Ok(()));
    assert_eq!(values, expected);
}

#[test]
fn the_extreme_values_are_sorted() {
    let mut values = vec![i32::MAX, 0, i32::MIN, -1, 1, i32::MAX, i32::MIN, 17, i32::MIN + 1, i32::MAX - 1];
    let mut expected = values.clone();
    expected.sort();
    assert_eq!(sort_whole(&mut values), Ok(()));
    assert_eq!(values, expected);
}

#[test]
fn values_over_the_whole_range_are_sorted() {
    let mut values = random_values(31, 6000, i32::MIN, i32::MAX);
    let mut expected = values.clone();
    expected.sort();
    assert_eq!(sort_whole(&mut values), Ok(()));
    assert_eq!(values, expected);
}

#[test]
fn large_random_array_is_sorted() {
    let mut values = random_values(41, 10_000, -1_000_000, 1_000_000);
    let mut expected = values.clone();
    expected.sort();
    assert_eq!(sort_whole(&mut values), Ok(()));
    assert_eq!(values, expected);
}

#[test]
fn larger_random_array_is_sorted() {
    let mut values = random_values(42, 200_000, -5_000, 5_000);
    let mut expected = values.clone();
    expected.sort();
    assert_eq!(sort_whole(&mut values), Ok(()));
    assert_eq!(values, expected);
}

#[test]
fn only_the_range_is_sorted() {
    let mut values = [9, 8, 7, 6, 5, 4, 3, 2, 1, 0];
    assert_eq!(tbsort(&mut values, 2, 6), Ok(()));
    assert_eq!(values, [9, 8, 3, 4, 5, 6, 7, 2, 1, 0]);
}

#[test]
fn range_of_one_element_changes_nothing() {
    let mut values = [3, 2, 1];
    assert_eq!(tbsort(&mut values, 1, 1), Ok(()));
    assert_eq!(values, [3, 2, 1]);
}

#[test]
fn empty_range_within_the_array_changes_nothing() {
    let mut values = [3, 2, 1];
    assert_eq!(tbsort(&mut values, 2, 1), Ok(()));
    assert_eq!(values, [3, 2, 1]);
    assert_eq!(tbsort(&mut values, 0, -1), Ok(()));
    assert_eq!(values, [3, 2, 1]);
    assert_eq!(tbsort(&mut values, 3, 2), Ok(()));
    assert_eq!(values, [3, 2, 1]);
}

#[test]
fn left_end_far_past_the_right_end_is_refused() {
    let mut values = [3, 2, 1];
    assert_eq!(tbsort(&mut values, 2, 0), Err(SortError::InvalidRange));
    assert_eq!(values, [3, 2, 1]);
}

#[test]
fn right_end_past_the_array_is_refused() {
    let mut values = [3, 2, 1];
    assert_eq!(tbsort(&mut values, 0, 3), Err(SortError::InvalidRange));
    assert_eq!(values, [3, 2, 1]);
    assert_eq!(tbsort(&mut values, 4, 3), Err(SortError::InvalidRange));
    assert_eq!(tbsort(&mut values, 0, isize::MAX), Err(SortError::InvalidRange));
    assert_eq!(values, [3, 2, 1]);
}

#[test]
fn negative_left_end_is_refused() {
    let mut values = [3, 2, 1];
    assert_eq!(tbsort(&mut values, -1, 2), Err(SortError::InvalidRange));
    assert_eq!(tbsort(&mut values, -1, -2), Err(SortError::InvalidRange));
    assert_eq!(tbsort(&mut values, isize::MIN, 0), Err(SortError::InvalidRange));
    assert_eq!(values, [3, 2, 1]);
}

#[test]
fn any_range_on_an_empty_array_but_the_empty_one_is_refused() {
    let mut values: [i32; 0] = [];
    assert_eq!(tbsort(&mut values, 0, 0), Err(SortError::InvalidRange));
    assert_eq!(tbsort(&mut values, 1, 0), Err(SortError::InvalidRange));
    assert_eq!(tbsort(&mut values, 0, -1), Ok(()));
}

#[test]
fn the_result_does_not_depend_on_the_source() {
    let values = random_values(51, 3000, -300, 300);
    let mut expected = values.clone();
    expected.sort();
    for seed in [0u64, 1, 2, 99, u64::MAX] {
        let mut source = RandomSource::seeded(seed);
        let mut sorted = values.clone();
        assert_eq!(tbsort_with(&mut sorted, 0, 2999, &mut source), Ok(()));
        assert_eq!(sorted, expected);
    }
    let mut source = RandomSource::ambient();
    let mut sorted = values.clone();
    assert_eq!(tbsort_with(&mut sorted, 0, 2999, &mut source), Ok(()));
    assert_eq!(sorted, expected);
}

#[test]
fn one_source_serves_many_sorts() {
    let mut source = RandomSource::seeded(7);
    for seed in 0..20u64 {
        let mut values = random_values(seed, 300, -20, 20);
        let mut expected = values.clone();
        expected.sort();
        assert_eq!(tbsort_with(&mut values, 0, 299, &mut source), Ok(()));
        assert_eq!(values, expected);
    }
}

#[test]
fn invalid_range_is_refused_with_a_source_too() {
    let mut source = RandomSource::seeded(7);
    let mut values = [2, 1];
    assert_eq!(tbsort_with(&mut values, 0, 2, &mut source), Err(SortError::InvalidRange));
    assert_eq!(values, [2, 1]);
}
