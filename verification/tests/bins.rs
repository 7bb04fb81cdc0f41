use seqhist::bins::{bar_heights, compute_bins, Bin};

fn labels(bins: &[Bin]) -> Vec<String> {
    bins.iter().map(|b| b.label.clone()).collect()
}

fn counts(bins: &[Bin]) -> Vec<u64> {
    bins.iter().map(|b| b.count).collect()
}

#[test]
fn no_lengths_give_no_bins() {
    assert_eq!(compute_bins(&vec![]), Vec::<Bin>::new());
}

#[test]
fn worked_example_with_largest_length_1000() {
    let bins = compute_bins(&vec![5, 150, 300, 999, 1000]);
    assert_eq!(bins.len(), 11);
    assert_eq!(
        labels(&bins),
        vec![
            "0-99", "100-199", "200-299", "300-399", "400-499", "500-599", "600-699", "700-799",
            "800-899", "900-999", "1000-1099"
        ]
    );
    assert_eq!(counts(&bins), vec![1, 1, 0, 1, 0, 0, 0, 0, 0, 1, 1]);
    assert_eq!(bins[10], Bin { label: "1000-1099".to_string(), count: 1 });
    assert_eq!(bins[0], Bin { label: "0-99".to_string(), count: 1 });
}

#[test]
fn single_length_gives_proper_bins() {
    let bins = compute_bins(&vec![7]);
    // width 1, 7 / 1 + 1 = 8 bins, the length in the last of them
    assert_eq!(bins.len(), 8);
    assert_eq!(labels(&bins), vec!["0-0", "1-1", "2-2", "3-3", "4-4", "5-5", "6-6", "7-7"]);
    assert_eq!(counts(&bins), vec![0, 0, 0, 0, 0, 0, 0, 1]);
}

#[test]
fn lengths_of_zero_share_one_bin() {
    let bins = compute_bins(&vec![0, 0, 0]);
    assert_eq!(bins, vec![Bin { label: "0-0".to_string(), count: 3 }]);
}

#[test]
fn width_is_a_tenth_rounded_up() {
    // largest 15: width 2, ceil(15 / 2) + 1 = 9 bins
    let bins = compute_bins(&vec![15, 1, 2, 14]);
    assert_eq!(bins.len(), 9);
    assert_eq!(
        labels(&bins),
        vec!["0-1", "2-3", "4-5", "6-7", "8-9", "10-11", "12-13", "14-15", "16-17"]
    );
    assert_eq!(counts(&bins), vec![1, 1, 0, 0, 0, 0, 0, 2, 0]);
}

#[test]
fn largest_length_on_a_boundary_gets_the_extra_bin() {
    // largest 20: width 2, ceil(20 / 2) + 1 = 11 bins, 20 falls in bin 10
    let bins = compute_bins(&vec![20, 19]);
    assert_eq!(bins.len(), 11);
    assert_eq!(bins[10], Bin { label: "20-21".to_string(), count: 1 });
    assert_eq!(bins[9], Bin { label: "18-19".to_string(), count: 1 });
}

#[test]
fn largest_length_below_ten() {
    // largest 9: width 1, ten bins
    let bins = compute_bins(&vec![9, 0, 9, 4]);
    assert_eq!(bins.len(), 10);
    assert_eq!(counts(&bins), vec![1, 0, 0, 0, 1, 0, 0, 0, 0, 2]);
    assert_eq!(bins[9].label, "9-9");
}

#[test]
fn counts_add_up_to_the_number_of_lengths() {
    let inputs: Vec<Vec<usize>> = vec![
        vec![1],
        vec![0],
        vec![5, 150, 300, 999, 1000],
        vec![3, 3, 3, 3],
        vec![1, 2, 3, 4, 5, 6, 7, 8, 9, 10, 11, 12, 13],
        vec![usize::MAX, 0, usize::MAX / 2],
        (0..1000).map(|i| (i * 7919) % 10007).collect(),
    ];
    for lengths in inputs {
        let bins = compute_bins(&lengths);
        let total: u64 = bins.iter().map(|b| b.count).sum();
        assert_eq!(total, lengths.len() as u64);
    }
}

#[test]
fn computing_twice_gives_the_same_bins() {
    let lengths = vec![12, 900, 44, 44, 1001, 3];
    assert_eq!(compute_bins(&lengths), compute_bins(&lengths));
}

#[test]
fn largest_possible_length_does_not_overflow() {
    let bins = compute_bins(&vec![usize::MAX, 1]);
    let width = (usize::MAX as u128 + 9) / 10;
    assert_eq!(bins.len(), 11);
    assert_eq!(bins[0].label, format!("0-{}", width - 1));
    assert_eq!(bins[0].count, 1);
    assert_eq!(bins[10].label, format!("{}-{}", 10 * width, 11 * width - 1));
    assert_eq!(bins[9].count, 1);
    assert_eq!(bins[10].count, 0);
}

#[test]
fn bars_are_scaled_to_the_fullest_bin() {
    let bins = vec![
        Bin { label: "0-9".to_string(), count: 4 },
        Bin { label: "10-19".to_string(), count: 1 },
        Bin { label: "20-29".to_string(), count: 0 },
        Bin { label: "30-39".to_string(), count: 3 },
    ];
    assert_eq!(bar_heights(&bins, 50), vec![50, 12, 0, 37]);
}

#[test]
fn bars_of_empty_bins_have_no_height() {
    let bins = vec![
        Bin { label: "0-0".to_string(), count: 0 },
        Bin { label: "1-1".to_string(), count: 0 },
    ];
    assert_eq!(bar_heights(&bins, 50), vec![0, 0]);
    assert_eq!(bar_heights(&vec![], 50), Vec::<u64>::new());
}

#[test]
fn bars_of_huge_counts_do_not_overflow() {
    let bins = vec![
        Bin { label: "a".to_string(), count: u64::MAX },
        Bin { label: "b".to_string(), count: u64::MAX / 2 },
    ];
    assert_eq!(bar_heights(&bins, u64::MAX), vec![u64::MAX, u64::MAX / 2]);
}
