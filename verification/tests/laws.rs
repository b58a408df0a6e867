use interval_merge::merge;
use std::ops::Range;

fn sample() -> Vec<Range<i32>> {
    vec![25..30, 2..19, 14..23, 4..8, 40..41, 41..45, 44..50, -7..-3]
}

fn permutations(items: &[Range<i32>]) -> Vec<Vec<Range<i32>>> {
    if items.len() <= 1 {
        return vec![items.to_vec()];
    }
    let mut all = Vec::new();
    for i in 0..items.len() {
        let mut rest = items.to_vec();
        let picked = rest.remove(i);
        for mut tail in permutations(&rest) {
            tail.insert(0, picked.clone());
            all.push(tail);
        }
    }
    all
}

fn covered(intervals: &[Range<i32>], p: i32) -> bool {
    intervals.iter().any(|r| r.start <= p && p < r.end)
}

#[test]
fn merging_a_merge_changes_nothing() {
    let once = merge(sample());
    assert_eq!(once, vec![-7..-3, 2..23, 25..30, 40..41, 41..50]);
    assert_eq!(merge(once.clone()), once);
}

#[test]
fn every_order_of_the_same_intervals_merges_alike() {
    let items = vec![0..2, 20..22, 3..5, 7..8, 1..8];
    let all = permutations(&items);
    assert_eq!(all.len(), 120);
    for order in all {
        assert_eq!(merge(order), vec![0..8, 20..22]);
    }
}

#[test]
fn every_order_of_touching_and_nested_intervals_merges_alike() {
    let items = vec![0..4, 4..6, 5..9, 1..2, 9..12, 4..5];
    let expected = vec![0..4, 4..9, 9..12];
    for order in permutations(&items) {
        assert_eq!(merge(order), expected);
    }
}

#[test]
fn a_repeated_interval_counts_once() {
    assert_eq!(merge(vec![1..3, 1..3]), vec![1..3]);
    assert_eq!(merge(vec![1..3, 5..6, 1..3, 5..6]), vec![1..3, 5..6]);
}

#[test]
fn the_merge_holds_the_points_of_the_input() {
    let input = sample();
    let result = merge(input.clone());
    for p in -20..60 {
        assert_eq!(covered(&input, p), covered(&result, p), "point {}", p);
    }
}

#[test]
fn no_entry_reaches_past_the_start_of_the_next() {
    let result = merge(sample());
    for pair in result.windows(2) {
        assert!(pair[0].end <= pair[1].start);
    }
}

#[test]
fn entries_start_in_strictly_ascending_order() {
    let result = merge(sample());
    for pair in result.windows(2) {
        assert!(pair[0].start < pair[1].start);
    }
}

#[test]
fn no_intervals_merge_to_none() {
    assert_eq!(merge(Vec::<Range<i32>>::new()), Vec::<Range<i32>>::new());
    assert_eq!(merge(Vec::<Range<char>>::new()), Vec::<Range<char>>::new());
}

#[test]
fn a_single_interval_merges_to_itself() {
    assert_eq!(merge(vec![0..1]), vec![0..1]);
    assert_eq!(merge(vec![-9..9]), vec![-9..9]);
    assert_eq!(merge(vec![7..7]), vec![7..7]);
    assert_eq!(merge(vec![9..2]), vec![9..2]);
}
