use irr::ranges::{create_ranges, get_amendment_splits, usize_to_range};

#[test]
fn usize_to_range_pairs_neighbours() {
    let r = usize_to_range(vec![0, 3, 5, 9]);
    assert_eq!(r, vec![0..3, 3..5, 5..9]);
}

#[test]
fn usize_to_range_of_short_lists_is_empty() {
    assert!(usize_to_range(vec![]).is_empty());
    assert!(usize_to_range(vec![4]).is_empty());
}

#[test]
fn amendment_splits_follow_date_changes() {
    let dates = [100, 100, 100, 200, 200, 300];
    let splits = get_amendment_splits(&dates).unwrap();
    assert_eq!(splits, vec![0..3, 3..5, 5..6]);
}

#[test]
fn amendment_splits_of_a_single_date() {
    assert_eq!(get_amendment_splits(&[7]).unwrap(), vec![0..1]);
}

#[test]
fn amendment_splits_repeat_a_date_that_returns() {
    let dates = [1, 2, 1];
    assert_eq!(get_amendment_splits(&dates).unwrap(), vec![0..1, 1..2, 2..3]);
}

#[test]
fn create_ranges_splits_by_loan() {
    let ids: Vec<String> = ["A", "A", "B", "C", "C", "C"].iter().map(|s| s.to_string()).collect();
    assert_eq!(create_ranges(&ids, 5).unwrap(), vec![0..2, 2..3, 3..6]);
}

#[test]
fn amendment_splits_partition_the_rows() {
    let dates = [5, 5, 9, 9, 9, 5, 7];
    let splits = get_amendment_splits(&dates).unwrap();
    assert_eq!(splits[0].start, 0);
    assert_eq!(splits[splits.len() - 1].end, dates.len());
    for w in splits.windows(2) {
        assert_eq!(w[0].end, w[1].start);
        assert_ne!(dates[w[0].end - 1], dates[w[1].start]);
    }
    for r in &splits {
        assert!(r.start < r.end);
        for j in r.clone() {
            assert_eq!(dates[j], dates[r.start]);
        }
    }
    assert_eq!(splits, vec![0..2, 2..5, 5..6, 6..7]);
}

#[test]
fn create_ranges_of_a_single_row() {
    let ids = vec!["L1".to_string()];
    assert_eq!(create_ranges(&ids, 0).unwrap(), vec![0..1]);
}
