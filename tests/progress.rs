use vegepoly::progress::{RowOutcome, VegetationProcessingState};

#[test]
fn new_state_is_blank() {
    let s = VegetationProcessingState::new();
    assert_eq!(s.processed_rows, 0);
    assert_eq!(s.total_rows, 0);
    assert_eq!(s.created_items, 0);
    assert!(s.errors.is_empty());
    assert_eq!(s.start_time, None);
    assert!(!s.is_finished());
    assert_eq!(s.elapsed_seconds(5000), None);
    assert_eq!(s.estimated_remaining_seconds(5000), None);
}

#[test]
fn run_counts_and_timing() {
    let mut s = VegetationProcessingState::default();
    s.add_error("old".to_string());
    s.initialize(10, 1_000);
    assert!(s.errors.is_empty());
    assert_eq!(s.total_rows, 10);
    s.update_processed_rows(4);
    s.update_created_items(120);
    s.add_error("Error at row 2".to_string());
    assert_eq!(s.errors, vec!["Error at row 2".to_string()]);
    assert_eq!(s.created_items, 120);
    // 4 rows in 8 s: the 6 left take 12 s.
    assert_eq!(s.elapsed_seconds(9_000), Some(8));
    assert_eq!(s.estimated_remaining_seconds(9_000), Some(12));
    assert!(!s.is_finished());
    s.update_processed_rows(10);
    assert!(s.is_finished());
    assert_eq!(s.estimated_remaining_seconds(9_000), None);
    s.set_finished(21_500);
    assert_eq!(s.elapsed_seconds(99_000), Some(20));
    assert!(s.is_finished());
}

#[test]
fn clock_going_back_counts_as_zero() {
    let mut s = VegetationProcessingState::new();
    s.initialize(3, 10_000);
    s.update_processed_rows(1);
    assert_eq!(s.elapsed_seconds(5_000), Some(0));
    assert_eq!(s.estimated_remaining_seconds(5_000), Some(0));
}

#[test]
fn rows_are_booked() {
    let mut s = VegetationProcessingState::new();
    s.initialize(3, 0);
    s.record_row(RowOutcome::Points(12));
    s.record_row(RowOutcome::Failed("Error at row 1: x".to_string()));
    s.record_row(RowOutcome::Points(3));
    assert_eq!(s.processed_rows, 3);
    assert_eq!(s.created_items, 15);
    assert_eq!(s.errors, vec!["Error at row 1: x".to_string()]);
    assert!(s.is_finished());
}
