use unit_bpe::fit_batch_ids_representable;
use unit_bpe::fit_ids_representable;
use unit_bpe::get_counts;
use unit_bpe::merge;
use unit_bpe::pairs::pick_top;

#[test]
fn counts_exact_values() {
    let units = vec![0, 1, 0, 1, 2];
    let counts = get_counts(&units);
    assert_eq!(counts, vec![((0, 1), 2), ((1, 0), 1), ((1, 2), 1)]);
}

#[test]
fn counts_overlapping_pairs() {
    let units = vec![7, 7, 7];
    let counts = get_counts(&units);
    assert_eq!(counts, vec![((7, 7), 2)]);
}

#[test]
fn counts_empty_and_single() {
    assert!(get_counts(&vec![]).is_empty());
    assert!(get_counts(&vec![5]).is_empty());
}

#[test]
fn merge_replaces_left_to_right() {
    let units = vec![0, 1, 2, 0, 1];
    assert_eq!(merge(&units, (0, 1), 5), vec![5, 2, 5]);
}

#[test]
fn merge_is_greedy_non_overlapping() {
    let units = vec![1, 1, 1];
    assert_eq!(merge(&units, (1, 1), 9), vec![9, 1]);
}

#[test]
fn merge_without_occurrence_is_identity() {
    let units = vec![3, 4, 5];
    assert_eq!(merge(&units, (9, 9), 10), vec![3, 4, 5]);
}

#[test]
fn id_range_checks_decide_fit_preconditions() {
    assert!(fit_ids_representable(&vec![0, 1, 2], 10));
    assert!(!fit_ids_representable(&vec![i32::MAX, 0], 5));
    assert!(fit_ids_representable(&vec![i32::MAX, 0], 2));
    assert!(fit_batch_ids_representable(&vec![vec![0, 1], vec![2]], 10));
    assert!(!fit_batch_ids_representable(&vec![vec![i32::MAX, 0]], 5));
}

#[test]
fn pick_top_prefers_count_then_smaller_pair() {
    let counts = vec![((4, 5), 2), ((1, 2), 3), ((0, 9), 3)];
    assert_eq!(pick_top(&counts), Some((0, 9)));
    let empty: Vec<((i32, i32), usize)> = Vec::new();
    assert_eq!(pick_top(&empty), None);
}
