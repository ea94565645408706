use tbsort::mapper::{calibrate, Calibration};

fn table(pivots: &[i32], bins: usize) -> Calibration {
    calibrate(pivots, bins)
}

#[test]
fn evenly_spaced_pivots_give_one_line() {
    let pivots = [10, 20, 30];
    let t = table(&pivots, 10);
    assert_eq!(t.target_bin, vec![0, 2, 4, 6, 9]);
    assert_eq!(t.slope_rise, vec![2, 2, 2, 2, 2]);
    assert_eq!(t.slope_run, vec![10, 10, 10, 10, 10]);
    assert_eq!(t.offset, vec![0, 0, 0, 0, 0]);
    assert_eq!(t.bin_of(&pivots, 10, 10), 2);
    assert_eq!(t.bin_of(&pivots, 10, 20), 4);
    assert_eq!(t.bin_of(&pivots, 10, 25), 5);
    assert_eq!(t.bin_of(&pivots, 10, 26), 5);
    assert_eq!(t.bin_of(&pivots, 10, 30), 6);
    assert_eq!(t.bin_of(&pivots, 10, 4), 0);
    assert_eq!(t.bin_of(&pivots, 10, 5), 1);
}

#[test]
fn estimates_outside_the_bins_are_clamped() {
    let pivots = [10, 20, 30];
    let t = table(&pivots, 10);
    assert_eq!(t.bin_of(&pivots, 10, -5), 0);
    assert_eq!(t.bin_of(&pivots, 10, i32::MIN), 0);
    assert_eq!(t.bin_of(&pivots, 10, 44), 8);
    assert_eq!(t.bin_of(&pivots, 10, 45), 9);
    assert_eq!(t.bin_of(&pivots, 10, 100), 9);
    assert_eq!(t.bin_of(&pivots, 10, i32::MAX), 9);
}

#[test]
fn two_pivots_extend_their_line_to_both_sides() {
    let pivots = [0, 100];
    let t = table(&pivots, 8);
    assert_eq!(t.target_bin, vec![0, 2, 4, 7]);
    assert_eq!(t.slope_rise, vec![2, 2, 2, 2]);
    assert_eq!(t.slope_run, vec![100, 100, 100, 100]);
    assert_eq!(t.offset, vec![200, 200, 200, 200]);
    assert_eq!(t.bin_of(&pivots, 8, 0), 2);
    assert_eq!(t.bin_of(&pivots, 8, 50), 3);
    assert_eq!(t.bin_of(&pivots, 8, 99), 3);
    assert_eq!(t.bin_of(&pivots, 8, 100), 4);
    assert_eq!(t.bin_of(&pivots, 8, -50), 1);
    assert_eq!(t.bin_of(&pivots, 8, -120), 0);
    assert_eq!(t.bin_of(&pivots, 8, -150), 0);
    assert_eq!(t.bin_of(&pivots, 8, 249), 6);
    assert_eq!(t.bin_of(&pivots, 8, 300), 7);
}

#[test]
fn equal_neighbours_take_the_slope_of_the_nearest_interval() {
    let pivots = [5, 5, 9];
    let t = table(&pivots, 5);
    assert_eq!(t.target_bin, vec![0, 1, 2, 3, 4]);
    assert_eq!(t.slope_rise, vec![1, 1, 1, 1, 1]);
    assert_eq!(t.slope_run, vec![4, 4, 4, 4, 4]);
    assert_eq!(t.offset, vec![-1, -1, 3, 3, 3]);
    assert_eq!(t.bin_of(&pivots, 5, 1), 0);
    assert_eq!(t.bin_of(&pivots, 5, 5), 1);
    assert_eq!(t.bin_of(&pivots, 5, 6), 2);
    assert_eq!(t.bin_of(&pivots, 5, 7), 2);
    assert_eq!(t.bin_of(&pivots, 5, 9), 3);
    assert_eq!(t.bin_of(&pivots, 5, 13), 4);
    assert_eq!(t.bin_of(&pivots, 5, 100), 4);
}

#[test]
fn slope_is_lent_from_below_before_above() {
    let pivots = [0, 10, 10, 40];
    let t = table(&pivots, 12);
    assert_eq!(t.target_bin, vec![0, 2, 4, 6, 8, 11]);
    assert_eq!(t.slope_rise, vec![2, 2, 2, 2, 2, 2]);
    assert_eq!(t.slope_run, vec![10, 10, 10, 30, 30, 30]);
    assert_eq!(t.offset, vec![20, 20, 20, 160, 160, 160]);
    assert_eq!(t.bin_of(&pivots, 12, 0), 2);
    assert_eq!(t.bin_of(&pivots, 12, 10), 4);
    assert_eq!(t.bin_of(&pivots, 12, 25), 7);
    assert_eq!(t.bin_of(&pivots, 12, 40), 8);
}

#[test]
fn equal_pivots_give_slope_one_and_offset_zero() {
    let pivots = [7, 7];
    let t = table(&pivots, 4);
    assert_eq!(t.target_bin, vec![0, 1, 2, 3]);
    assert_eq!(t.slope_rise, vec![1, 1, 1, 1]);
    assert_eq!(t.slope_run, vec![1, 1, 1, 1]);
    assert_eq!(t.offset, vec![0, 0, 0, 0]);
    assert_eq!(t.bin_of(&pivots, 4, -3), 0);
    assert_eq!(t.bin_of(&pivots, 4, 0), 0);
    assert_eq!(t.bin_of(&pivots, 4, 2), 2);
    assert_eq!(t.bin_of(&pivots, 4, 7), 3);
}

#[test]
fn a_single_pivot_gives_slope_one_and_offset_zero() {
    let pivots = [1];
    let t = table(&pivots, 3);
    assert_eq!(t.target_bin, vec![0, 1, 2]);
    assert_eq!(t.slope_rise, vec![1, 1, 1]);
    assert_eq!(t.slope_run, vec![1, 1, 1]);
    assert_eq!(t.offset, vec![0, 0, 0]);
    assert_eq!(t.bin_of(&pivots, 3, 1), 1);
    assert_eq!(t.bin_of(&pivots, 3, 5), 2);
}

#[test]
fn pivots_at_the_ends_of_the_range_do_not_overflow() {
    let pivots = [i32::MIN, i32::MAX];
    let bins = usize::MAX;
    let t = table(&pivots, bins);
    assert_eq!(t.slope_run, vec![4294967295i128; 4]);
    assert_eq!(t.bin_of(&pivots, bins, i32::MIN), bins / 4);
    assert_eq!(t.bin_of(&pivots, bins, i32::MAX), bins / 2);
    assert!(t.bin_of(&pivots, bins, 0) >= bins / 4);
    assert!(t.bin_of(&pivots, bins, 0) <= bins / 2);
}

#[test]
fn bins_never_decrease_as_the_value_grows() {
    let cases: [(&[i32], usize); 5] = [
        (&[10, 20, 30], 10),
        (&[5, 5, 9], 5),
        (&[0, 10, 10, 40], 12),
        (&[7, 7], 4),
        (&[-100, -3, -3, 0, 2, 2, 2, 90], 37),
    ];
    for (pivots, bins) in cases {
        let t = table(pivots, bins);
        let mut previous = 0usize;
        for v in -300..=300 {
            let bin = t.bin_of(pivots, bins, v);
            assert!(bin < bins);
            assert!(previous <= bin, "value {} went back from bin {} to {}", v, previous, bin);
            previous = bin;
        }
    }
}
