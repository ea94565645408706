use tbsort::sampler::{pivots_from_words, sample};
use tbsort::source::index_from_word;
use tbsort::RandomSource;

#[test]
fn words_pick_by_their_remainder() {
    let values = [12, 11, 13, 5, 6];
    let words = vec![7usize, 0, 13, 4];
    assert_eq!(pivots_from_words(&values, 0, 4, &words), vec![5, 6, 12, 13]);
}

#[test]
fn words_pick_within_the_region_only() {
    let values = [100, 12, 11, 13, 200];
    let words = vec![0usize, 1, 2, 3, 4, 5];
    assert_eq!(pivots_from_words(&values, 1, 3, &words), vec![11, 11, 12, 12, 13, 13]);
}

#[test]
fn a_value_may_be_picked_more_than_once() {
    let values = [4, 8];
    let words = vec![1usize, 1, 3, 0];
    assert_eq!(pivots_from_words(&values, 0, 1, &words), vec![4, 8, 8, 8]);
}

#[test]
fn no_words_give_no_pivots() {
    let values = [4, 8];
    let words: Vec<usize> = Vec::new();
    assert_eq!(pivots_from_words(&values, 0, 1, &words), Vec::<i32>::new());
}

#[test]
fn index_from_word_is_the_remainder() {
    assert_eq!(index_from_word(0, 5), 0);
    assert_eq!(index_from_word(4, 5), 4);
    assert_eq!(index_from_word(5, 5), 0);
    assert_eq!(index_from_word(13, 5), 3);
    assert_eq!(index_from_word(usize::MAX, 1), 0);
    assert_eq!(index_from_word(usize::MAX, 10), usize::MAX % 10);
}

#[test]
fn sample_is_sorted_and_drawn_from_the_region() {
    let values = [50, 3, 9, 27, 81, 1, 60];
    let mut source = RandomSource::seeded(3);
    for tree_size in [1usize, 2, 4, 8, 64] {
        let pivots = sample(&values, 1, 5, tree_size, &mut source);
        assert_eq!(pivots.len(), tree_size);
        assert!(pivots.windows(2).all(|pair| pair[0] <= pair[1]));
        assert!(pivots.iter().all(|pivot| values[1..=5].contains(pivot)));
    }
}

#[test]
fn sample_of_size_zero_holds_one_pivot() {
    let values = [50, 3, 9];
    let mut source = RandomSource::ambient();
    let pivots = sample(&values, 0, 2, 0, &mut source);
    assert_eq!(pivots.len(), 1);
    assert!(values.contains(&pivots[0]));
}

#[test]
fn sample_of_a_single_element_repeats_it() {
    let values = [50, 3, 9];
    let mut source = RandomSource::ambient();
    assert_eq!(sample(&values, 1, 1, 4, &mut source), vec![3, 3, 3, 3]);
}

#[test]
fn words_are_as_many_as_asked_for() {
    let mut source = RandomSource::seeded(17);
    assert_eq!(source.words(0).len(), 0);
    assert_eq!(source.words(1).len(), 1);
    assert_eq!(source.words(33).len(), 33);
}

#[test]
fn the_same_seed_gives_the_same_words() {
    let mut first = RandomSource::seeded(123);
    let mut second = RandomSource::seeded(123);
    assert_eq!(first.words(50), second.words(50));
}

#[test]
fn a_source_does_not_repeat_one_word() {
    let mut seeded = RandomSource::seeded(1);
    let words = seeded.words(50);
    assert!(words.iter().any(|word| *word != words[0]));
    let mut ambient = RandomSource::ambient();
    let words = ambient.words(50);
    assert!(words.iter().any(|word| *word != words[0]));
}
