use json_redact::merge;

#[test]
fn merge_sorts_and_fuses() {
    let ranges = vec![[5, 7], [0, 2], [2, 3], [6, 10], [20, 21], [12, 12]];
    assert_eq!(merge(ranges), vec![[0, 3], [5, 10], [12, 12], [20, 21]]);
}

#[test]
fn merge_fuses_touching_ranges() {
    assert_eq!(merge(vec![[0, 2], [2, 4]]), vec![[0, 4]]);
    assert_eq!(merge(vec![[2, 4], [0, 2]]), vec![[0, 4]]);
}

#[test]
fn merge_keeps_ranges_one_apart() {
    assert_eq!(merge(vec![[0, 2], [3, 4]]), vec![[0, 2], [3, 4]]);
}

#[test]
fn merge_swallows_contained_ranges() {
    assert_eq!(merge(vec![[0, 5], [1, 2], [5, 5], [7, 9], [7, 8], [10, 11]]), vec![[0, 5], [7, 9], [10, 11]]);
}

#[test]
fn merge_of_equal_starts_takes_the_longer() {
    assert_eq!(merge(vec![[3, 4], [3, 9], [3, 6]]), vec![[3, 9]]);
    assert_eq!(merge(vec![[3, 9], [3, 4]]), vec![[3, 9]]);
}

#[test]
fn merge_of_duplicates() {
    assert_eq!(merge(vec![[1, 2], [1, 2], [1, 2]]), vec![[1, 2]]);
}

#[test]
fn merge_of_nothing_and_of_one() {
    assert_eq!(merge(vec![]), Vec::<[usize; 2]>::new());
    assert_eq!(merge(vec![[3, 3]]), vec![[3, 3]]);
    assert_eq!(merge(vec![[3, 8]]), vec![[3, 8]]);
}

#[test]
fn merge_is_idempotent() {
    let inputs = vec![
        vec![[5, 7], [0, 2], [2, 3], [6, 10], [20, 21], [12, 12]],
        vec![[0, 5], [1, 2], [5, 5], [7, 9], [7, 8], [10, 11]],
        vec![[9, 10], [8, 9], [7, 8], [0, 1]],
        vec![],
        vec![[4, 4], [4, 4]],
    ];
    for input in inputs {
        let once = merge(input);
        let twice = merge(once.clone());
        assert_eq!(twice, once);
    }
}

#[test]
fn merged_ranges_neither_touch_nor_overlap() {
    let merged = merge(vec![[9, 12], [0, 3], [3, 4], [14, 15], [13, 14], [30, 31], [2, 8]]);
    assert_eq!(merged, vec![[0, 8], [9, 12], [13, 15], [30, 31]]);
    for pair in merged.windows(2) {
        assert!(pair[0][1] < pair[1][0]);
        assert!(pair[0][0] < pair[1][0]);
    }
}

#[test]
fn merge_covers_what_the_input_covers() {
    let input = vec![[9, 12], [0, 3], [3, 4], [14, 15], [13, 14], [30, 31], [2, 8]];
    let merged = merge(input.clone());
    for x in 0..40usize {
        let before = input.iter().any(|r| r[0] <= x && x < r[1]);
        let after = merged.iter().any(|r| r[0] <= x && x < r[1]);
        assert_eq!(before, after);
    }
}
