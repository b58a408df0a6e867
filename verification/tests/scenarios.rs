use interval_merge::merge;

#[test]
fn disjoint_sorted_intervals_stay_as_they_are() {
    assert_eq!(merge(vec![1..2, 3..6, 8..12]), vec![1..2, 3..6, 8..12]);
}

#[test]
fn an_overlapping_chain_given_out_of_order_becomes_one() {
    assert_eq!(merge(vec![25..30, 2..19, 14..23, 4..8]), vec![2..23, 25..30]);
}

#[test]
fn a_late_interval_over_everything_absorbs_everything() {
    assert_eq!(merge(vec![25..30, 2..19, 14..23, 4..8, 0..40]), vec![0..40]);
}

#[test]
fn a_late_interval_bridges_three_earlier_ones() {
    assert_eq!(merge(vec![0..2, 20..22, 3..5, 7..8, 1..8]), vec![0..8, 20..22]);
}

#[test]
fn negative_bounds_merge_like_positive_ones() {
    assert_eq!(merge(vec![-4..0, -1..2]), vec![-4..2]);
}

#[test]
fn the_first_three_of_the_overlapping_example_merge_to_one() {
    assert_eq!(merge(vec![0..4, 2..6, 0..2]), vec![0..6]);
}

#[test]
fn touching_intervals_stay_apart() {
    assert_eq!(merge(vec![0..2, 2..4]), vec![0..2, 2..4]);
    assert_eq!(merge(vec![2..4, 0..2]), vec![0..2, 2..4]);
    assert_eq!(merge(vec!['a'..'c', 'c'..'e']), vec!['a'..'c', 'c'..'e']);
}

#[test]
fn an_interval_over_the_seam_joins_touching_intervals() {
    assert_eq!(merge(vec![0..2, 2..4, 1..3]), vec![0..4]);
    assert_eq!(merge(vec![1..3, 0..2, 2..4]), vec![0..4]);
    assert_eq!(merge(vec![0..2, 2..4, 0..4]), vec![0..4]);
}

#[test]
fn an_empty_interval_inside_an_entry_leaves_it_unchanged() {
    assert_eq!(merge(vec![0..10, 5..5]), vec![0..10]);
    assert_eq!(merge(vec![0..10, 7..3]), vec![0..10]);
}

#[test]
fn an_empty_interval_outside_every_entry_is_kept() {
    assert_eq!(merge(vec![5..10, 3..3]), vec![3..3, 5..10]);
    assert_eq!(merge(vec![5..10, 12..12]), vec![5..10, 12..12]);
    assert_eq!(merge(vec![5..10, 5..5]), vec![5..5, 5..10]);
}

#[test]
fn a_reversed_interval_goes_where_its_end_puts_it() {
    assert_eq!(merge(vec![5..10, 20..3]), vec![20..3, 5..10]);
    assert_eq!(merge(vec![20..3, 5..10]), vec![5..10, 20..3]);
}

#[test]
fn reversed_intervals_can_leave_overlapping_neighbours() {
    assert_eq!(merge(vec![15..50, 40..5, 20..3, 10..30]), vec![10..50, 40..5]);
}

#[test]
fn reversed_intervals_can_cost_points() {
    assert_eq!(merge(vec![5..10, 20..3, 0..6, 8..25]), vec![0..6, 8..25]);
}

#[test]
fn bounds_of_other_ordered_types_merge_too() {
    assert_eq!(merge(vec![10u8..20, 0..5, 4..11]), vec![0u8..20]);
    assert_eq!(
        merge(vec![(1, 'a')..(1, 'k'), (0, 'z')..(1, 'b'), (2, 'a')..(2, 'b')]),
        vec![(0, 'z')..(1, 'k'), (2, 'a')..(2, 'b')]
    );
    assert_eq!(merge(vec![false..true, false..true]), vec![false..true]);
    assert_eq!(
        merge(vec![i64::MIN..0, -1..i64::MAX]),
        vec![i64::MIN..i64::MAX]
    );
}
