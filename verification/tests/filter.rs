use seqhist::filter::{apply_filter, FilterRange};

#[test]
fn unbounded_filter_keeps_everything() {
    let raw = vec![5, 150, 300, 999, 1000, 0, usize::MAX];
    assert_eq!(apply_filter(&raw, &FilterRange::unbounded()), raw);
    assert_eq!(apply_filter(&raw, &FilterRange::new(0, usize::MAX)), raw);
    assert_eq!(apply_filter(&raw, &FilterRange::default()), raw);
}

#[test]
fn unbounded_filter_of_nothing_is_nothing() {
    let raw: Vec<usize> = vec![];
    assert_eq!(apply_filter(&raw, &FilterRange::unbounded()), raw);
}

#[test]
fn filter_keeps_lengths_inside_the_range_in_order() {
    let raw = vec![700, 5, 150, 300, 150, 999, 1000, 100, 500];
    let kept = apply_filter(&raw, &FilterRange::new(100, 500));
    assert_eq!(kept, vec![150, 300, 150, 100, 500]);
}

#[test]
fn filter_bounds_are_inclusive() {
    let raw = vec![99, 100, 101, 499, 500, 501];
    assert_eq!(apply_filter(&raw, &FilterRange::new(100, 500)), vec![100, 101, 499, 500]);
}

#[test]
fn inverted_range_keeps_nothing() {
    let raw = vec![5, 150, 300];
    assert_eq!(apply_filter(&raw, &FilterRange::new(500, 100)), Vec::<usize>::new());
}

#[test]
fn filter_leaves_the_raw_lengths_alone() {
    let raw = vec![5, 150, 300, 999, 1000];
    let narrow = apply_filter(&raw, &FilterRange::new(100, 200));
    assert_eq!(narrow, vec![150]);
    assert_eq!(raw, vec![5, 150, 300, 999, 1000]);
    let wide = apply_filter(&raw, &FilterRange::new(0, 1000));
    assert_eq!(wide, raw);
}

#[test]
fn filtered_lengths_are_a_subsequence() {
    let raw = vec![9, 3, 7, 3, 12, 0, 8, 3];
    let range = FilterRange::new(3, 8);
    let kept = apply_filter(&raw, &range);
    let mut at = 0;
    for length in &raw {
        if range.contains(*length) {
            assert_eq!(kept[at], *length);
            at += 1;
        }
    }
    assert_eq!(at, kept.len());
}

#[test]
fn range_contains_its_bounds() {
    let range = FilterRange::new(10, 20);
    assert!(!range.contains(9));
    assert!(range.contains(10));
    assert!(range.contains(20));
    assert!(!range.contains(21));
}

#[test]
fn upper_bound_is_none_only_without_bound() {
    assert_eq!(FilterRange::unbounded().upper_bound(), None);
    assert_eq!(FilterRange::new(3, usize::MAX).upper_bound(), None);
    assert_eq!(FilterRange::new(3, 10000).upper_bound(), Some(10000));
    assert_eq!(FilterRange::new(0, 0).upper_bound(), Some(0));
}
