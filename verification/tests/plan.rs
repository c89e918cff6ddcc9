use irr::plan::{plan_loan, LoanPlan, Segment};

#[test]
fn single_amendment_loan() {
    let plan = plan_loan(&[100, 100, 100], &[130, 160, 190], &[100], &[100]).unwrap();
    assert_eq!(
        plan,
        LoanPlan {
            grid_days: 91,
            first_date: 100,
            segments: vec![Segment {
                payments: 0..3,
                disbursements: Some(0..1),
                start_date: 100,
                cutoff: 190,
                offset: 0,
                window: 91,
                opening_date: 0,
                payment_slots: vec![30, 60, 90],
                disbursement_slots: vec![0],
            }],
        }
    );
}

#[test]
fn amendment_with_its_own_disbursement() {
    let plan = plan_loan(&[100, 100, 150, 150], &[130, 140, 160, 190], &[100, 150], &[100, 150]).unwrap();
    assert_eq!(plan.grid_days, 91);
    assert_eq!(plan.segments.len(), 2);
    let s0 = &plan.segments[0];
    assert_eq!((s0.start_date, s0.cutoff, s0.offset, s0.window, s0.opening_date), (100, 150, 0, 51, 0));
    assert_eq!(s0.payment_slots, vec![30, 40]);
    assert_eq!(s0.disbursement_slots, vec![0]);
    let s1 = &plan.segments[1];
    assert_eq!(s1.payments, 2..4);
    assert_eq!(s1.disbursements, Some(1..2));
    assert_eq!((s1.start_date, s1.cutoff, s1.offset, s1.window, s1.opening_date), (150, 190, 50, 41, 150));
    assert_eq!(s1.payment_slots, vec![10, 40]);
    assert_eq!(s1.disbursement_slots, vec![0]);
    assert_eq!(s0.cutoff, s1.opening_date);
}

#[test]
fn amendment_without_disbursement_opens_on_its_date() {
    let plan = plan_loan(&[100, 150], &[120, 180], &[100], &[100]).unwrap();
    assert_eq!(plan.grid_days, 81);
    let s1 = &plan.segments[1];
    assert_eq!(s1.disbursements, None);
    assert_eq!((s1.start_date, s1.cutoff, s1.offset, s1.window), (150, 180, 50, 31));
    assert_eq!(s1.payment_slots, vec![30]);
    assert_eq!(s1.disbursement_slots, vec![0]);
}

#[test]
fn disbursement_matches_the_first_run_with_the_amendment_date() {
    let plan = plan_loan(&[10, 20], &[15, 40], &[20, 10, 20], &[20, 10, 25]).unwrap();
    assert_eq!(plan.grid_days, 21);
    assert_eq!(plan.segments[0].disbursements, Some(0..1));
    assert_eq!(plan.segments[0].payment_slots, Vec::<usize>::new());
    assert_eq!(plan.segments[1].disbursements, Some(0..1));
    assert_eq!((plan.segments[1].start_date, plan.segments[1].offset, plan.segments[1].window), (20, 0, 21));
    assert_eq!(plan.segments[1].payment_slots, vec![20]);
}

#[test]
fn payments_before_the_first_disbursement_leave_no_grid() {
    assert_eq!(plan_loan(&[100], &[50], &[100], &[100]), None);
}

#[test]
fn amendment_before_the_first_disbursement_cannot_be_placed() {
    assert_eq!(plan_loan(&[100, 90], &[120, 180], &[100], &[100]), None);
}

#[test]
fn disbursement_dated_before_its_amendment_pushes_the_window_off_the_grid() {
    assert_eq!(plan_loan(&[10, 20], &[15, 40], &[20, 10, 20], &[12, 10, 25]), None);
}

#[test]
fn window_past_the_grid_cannot_be_placed() {
    // the second amendment starts on its own disbursement date, 5 days before
    // its amendment date, so its window would run past the last grid day
    assert_eq!(plan_loan(&[100, 150], &[120, 180], &[100, 150], &[100, 145]), None);
}

#[test]
fn slots_stay_inside_the_grid() {
    let plan = plan_loan(&[100, 100, 150, 150], &[130, 140, 160, 190], &[100, 150], &[100, 150]).unwrap();
    for s in &plan.segments {
        assert!(s.offset + s.window <= plan.grid_days);
        for &slot in s.payment_slots.iter().chain(s.disbursement_slots.iter()) {
            assert!(slot < s.window);
            assert!(s.offset + slot < plan.grid_days);
        }
    }
}

#[test]
fn loan_that_starts_before_1970() {
    let plan = plan_loan(&[-10], &[5], &[-10], &[-10]).unwrap();
    assert_eq!(plan.grid_days, 16);
    let s0 = &plan.segments[0];
    assert_eq!((s0.start_date, s0.cutoff, s0.window), (-10, 5, 16));
    assert_eq!(s0.payment_slots, vec![15]);
    assert_eq!(s0.disbursement_slots, vec![0]);
}

#[test]
fn amendment_whose_window_ends_the_day_before_it_starts() {
    let plan = plan_loan(&[100, 150], &[120, 160], &[100, 150], &[100, 161]).unwrap();
    assert_eq!(plan.grid_days, 61);
    let s1 = &plan.segments[1];
    assert_eq!((s1.start_date, s1.cutoff, s1.offset, s1.window), (161, 160, 50, 0));
    assert!(s1.payment_slots.is_empty());
    assert!(s1.disbursement_slots.is_empty());
}
