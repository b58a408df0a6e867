use interval_merge::merge;

#[test]
fn test_integer_ranges() {
    let table = vec![
        // empty
        (vec![], vec![]),
        // one
        (vec![0..1], vec![0..1]),
        // Ranges which do not overlap
        (vec![1..2, 3..6, 8..12], vec![1..2, 3..6, 8..12]),
        // example
        (vec![25..30, 2..19, 14..23, 4..8], vec![2..23, 25..30]),
        // example with a range at the end which includes all ranges before it
        (vec![25..30, 2..19, 14..23, 4..8, 0..40], vec![0..40]),
        // Range at the end merges multiple previous ranges
        (vec![0..2, 20..22, 3..5, 7..8, 1..8], vec![0..8, 20..22]),
        // negative ranges
        (vec![-4..0, -1..2], vec![-4..2]),
    ];
    for row in table {
        let res = merge(row.0.clone());
        assert_eq!(
            res, row.1,
            "expected merge {:?} to be {:?} but got {:?}",
            row.0, row.1, res
        );
    }
}

#[test]
fn test_char_ranges() {
    let table = vec![
        // empty
        (vec![], vec![]),
        // one
        (vec!['a'..'b'], vec!['a'..'b']),
        // Ranges which do not overlap
        (
            vec!['a'..'b', 'c'..'d', 'f'..'g'],
            vec!['a'..'b', 'c'..'d', 'f'..'g'],
        ),
        // Overlapping
        (vec!['a'..'d', 'c'..'d', 'a'..'g'], vec!['a'..'g']),
    ];
    for row in table {
        let res = merge(row.0.clone());
        assert_eq!(
            res, row.1,
            "expected merge {:?} to be {:?} but got {:?}",
            row.0, row.1, res
        );
    }
}
