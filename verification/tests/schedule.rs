use irr::schedule::{day_offsets, padding_slots, window_capacity};

#[test]
fn window_counts_both_ends() {
    assert_eq!(window_capacity(100, 150), Some(51));
    assert_eq!(window_capacity(7, 7), Some(1));
    assert_eq!(window_capacity(-10, -5), Some(6));
    assert_eq!(window_capacity(-1, 5), Some(7));
    assert_eq!(window_capacity(-5, 5), Some(11));
}

#[test]
fn window_ending_the_day_before_it_starts_is_empty() {
    assert_eq!(window_capacity(8, 7), Some(0));
    assert_eq!(window_capacity(0, -1), Some(0));
}

#[test]
fn window_without_days() {
    assert_eq!(window_capacity(150, 100), None);
    assert_eq!(window_capacity(5, -5), None);
    assert_eq!(window_capacity(8, 6), None);
}

#[test]
fn slots_are_distances_from_the_start() {
    assert_eq!(padding_slots(&[100, 130, 160], 100, 91), Some(vec![0, 30, 60]));
}

#[test]
fn slots_stop_at_the_first_date_outside() {
    assert_eq!(padding_slots(&[5, 3, 20, 4], 0, 10), Some(vec![5, 3]));
    assert_eq!(padding_slots(&[5, -1, 2], 0, 10), Some(vec![5]));
    assert_eq!(padding_slots(&[], 0, 10), Some(vec![]));
}

#[test]
fn slots_fail_on_an_overflowing_distance() {
    assert_eq!(padding_slots(&[i32::MIN], 1, 10), None);
    assert_eq!(padding_slots(&[20, i32::MIN], 1, 10), Some(vec![]));
}

#[test]
fn offsets_from_a_reference_date() {
    assert_eq!(day_offsets(&[110, 120], 100, 1), Some(vec![9, 19]));
    assert_eq!(day_offsets(&[90], 100, 0), Some(vec![-10]));
}

#[test]
fn offsets_fail_on_overflow() {
    assert_eq!(day_offsets(&[i32::MIN], 1, 0), None);
    assert_eq!(day_offsets(&[i32::MIN], 0, 0), None);
    assert_eq!(day_offsets(&[i32::MIN + 1], 0, 1), None);
    assert_eq!(day_offsets(&[i32::MIN + 2], 0, 1), Some(vec![i32::MIN + 1]));
}
