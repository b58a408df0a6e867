use interval_merge::interval::holds;
use interval_merge::merger::fold_in;
use interval_merge::order::{at_most, larger, smaller};
use interval_merge::rollup::rollup;
use std::ops::Range;

#[test]
fn rollup_absorbs_what_the_bound_reaches() {
    assert_eq!(rollup(vec![0..10, 3..5, 7..12, 14..20], 0, 0..10), vec![0..12, 14..20]);
}

#[test]
fn rollup_widens_as_it_goes() {
    assert_eq!(
        rollup(vec![0..5, 3..8, 7..10, 20..30], 0, 0..5),
        vec![0..10, 20..30]
    );
}

#[test]
fn rollup_keeps_an_entry_that_starts_where_the_bound_ends() {
    assert_eq!(rollup(vec![0..5, 5..8, 9..10], 0, 0..5), vec![0..5, 5..8, 9..10]);
}

#[test]
fn rollup_leaves_the_entries_in_front_alone() {
    assert_eq!(
        rollup(vec![-9..-5, -3..-1, 0..7, 2..3, 6..9, 12..13], 2, 0..7),
        vec![-9..-5, -3..-1, 0..9, 12..13]
    );
}

#[test]
fn rollup_at_the_last_entry_takes_the_end_of_the_bound() {
    assert_eq!(rollup(vec![0..1, 4..6], 1, 4..9), vec![0..1, 4..9]);
    assert_eq!(rollup(vec![4..6], 0, 4..6), vec![4..6]);
}

#[test]
fn rollup_keeps_the_start_of_the_entry_and_tests_with_the_bound() {
    assert_eq!(rollup(vec![1..2, 5..6], 0, 0..10), vec![1..10]);
    assert_eq!(rollup(vec![1..2, 5..6], 0, 6..10), vec![1..10]);
    assert_eq!(rollup(vec![1..2, 5..6], 0, 7..10), vec![1..10, 5..6]);
}

#[test]
fn rollup_absorbs_an_entry_of_which_it_holds_only_the_end() {
    assert_eq!(rollup(vec![4..10, 2..5, 11..12], 0, 4..10), vec![4..10, 11..12]);
    assert_eq!(rollup(vec![4..10, 2..10, 11..12], 0, 4..10), vec![4..10, 2..10, 11..12]);
}

#[test]
fn rollup_keeps_the_order_of_what_it_keeps() {
    assert_eq!(
        rollup(vec![0..3, 9..10, 1..2, 30..31, 20..21], 0, 0..3),
        vec![0..3, 9..10, 30..31, 20..21]
    );
}

#[test]
fn folding_into_nothing_gives_the_interval() {
    assert_eq!(fold_in(Vec::<Range<i32>>::new(), 3..4), vec![3..4]);
}

#[test]
fn folding_an_interval_that_ends_before_an_entry_puts_it_in_front() {
    assert_eq!(fold_in(vec![0..2, 8..9], 3..5), vec![0..2, 3..5, 8..9]);
    assert_eq!(fold_in(vec![0..2, 8..9], 3..8), vec![0..2, 3..8, 8..9]);
    assert_eq!(fold_in(vec![5..6], 1..2), vec![1..2, 5..6]);
}

#[test]
fn folding_an_interval_that_starts_in_an_entry_widens_it_to_the_right() {
    assert_eq!(fold_in(vec![0..4, 6..8, 10..12], 3..7), vec![0..8, 10..12]);
    assert_eq!(fold_in(vec![0..4, 6..8, 10..12], 0..11), vec![0..12]);
    assert_eq!(fold_in(vec![0..4, 6..8], 1..2), vec![0..4, 6..8]);
    assert_eq!(fold_in(vec![0..4, 6..8], 3..6), vec![0..6, 6..8]);
}

#[test]
fn folding_an_interval_that_ends_in_an_entry_widens_it_to_the_left() {
    assert_eq!(fold_in(vec![0..2, 6..9], 4..7), vec![0..2, 4..9]);
    assert_eq!(fold_in(vec![0..2, 6..9], 2..7), vec![0..2, 2..9]);
}

#[test]
fn folding_an_interval_over_an_entry_puts_it_in_its_place() {
    assert_eq!(fold_in(vec![0..2, 5..6, 8..9, 20..21], 3..10), vec![0..2, 3..10, 20..21]);
    assert_eq!(fold_in(vec![5..6], 3..6), vec![3..6]);
    assert_eq!(fold_in(vec![5..6, 7..9], 3..8), vec![3..9]);
}

#[test]
fn folding_an_interval_behind_every_entry_puts_it_last() {
    assert_eq!(fold_in(vec![0..2, 5..6], 6..7), vec![0..2, 5..6, 6..7]);
    assert_eq!(fold_in(vec![0..2, 5..6], 9..11), vec![0..2, 5..6, 9..11]);
}

#[test]
fn an_interval_holds_its_start_and_not_its_end() {
    assert!(holds(&(2..5), 2));
    assert!(holds(&(2..5), 4));
    assert!(!holds(&(2..5), 5));
    assert!(!holds(&(2..5), 1));
    assert!(!holds(&(5..2), 3));
    assert!(!holds(&(3..3), 3));
    assert!(holds(&('a'..'c'), 'b'));
}

#[test]
fn bounds_compare_as_their_type_orders_them() {
    assert!(at_most(1, 2));
    assert!(at_most(2, 2));
    assert!(!at_most(3, 2));
    assert_eq!(larger(-3, 7), 7);
    assert_eq!(larger(7, -3), 7);
    assert_eq!(smaller(-3, 7), -3);
    assert_eq!(smaller(7, -3), -3);
    assert_eq!(larger('x', 'b'), 'x');
    assert_eq!(smaller((1, 9), (2, 0)), (1, 9));
}
