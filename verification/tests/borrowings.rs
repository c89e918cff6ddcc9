use irr::borrowings::{Borrowings, DisbursementTable, PaymentTable};

fn names(v: &[&str]) -> Vec<String> {
    v.iter().map(|s| s.to_string()).collect()
}

fn sample() -> Borrowings {
    let payments = PaymentTable {
        loan_ids: names(&["A", "A", "B", "B", "C"]),
        dates: vec![130, 160, 230, 260, 500],
        amendment_dates: vec![100, 100, 200, 200, 400],
    };
    let disbursements = DisbursementTable {
        loan_ids: names(&["A", "B", "D"]),
        dates: vec![100, 200, 300],
        amendment_dates: vec![100, 200, 300],
        locations: names(&["Pune", "Delhi", "Goa"]),
        capitalization_dates: vec![110, 210, 310],
    };
    Borrowings::new(payments, disbursements).unwrap()
}

#[test]
fn borrowings_keep_the_common_loans() {
    let b = sample();
    assert_eq!(b.ids().to_vec(), names(&["A", "B"]));
    assert_eq!(b.locations().to_vec(), names(&["Pune", "Delhi"]));
    assert_eq!(b.capitalization_dates().to_vec(), vec![110, 210]);
    assert_eq!(b.payment_rows().to_vec(), vec![0, 1, 2, 3]);
    assert_eq!(b.disbursement_rows().to_vec(), vec![0, 1]);
    assert_eq!(b.date_payments().to_vec(), vec![130, 160, 230, 260]);
    assert_eq!(b.payment_amendment_dates().to_vec(), vec![100, 100, 200, 200]);
    assert_eq!(b.date_disbursements().to_vec(), vec![100, 200]);
    assert_eq!(b.disbursement_amendment_dates().to_vec(), vec![100, 200]);
    assert_eq!(b.payments_ranges().to_vec(), vec![0..2, 2..4]);
    assert_eq!(b.disbursements_ranges().to_vec(), vec![0..1, 1..2]);
}

#[test]
fn loan_headers_come_from_the_first_disbursement_row() {
    let payments = PaymentTable {
        loan_ids: names(&["B", "A"]),
        dates: vec![10, 20],
        amendment_dates: vec![1, 2],
    };
    let disbursements = DisbursementTable {
        loan_ids: names(&["B", "B", "A"]),
        dates: vec![1, 2, 3],
        amendment_dates: vec![1, 1, 2],
        locations: names(&["first", "second", "third"]),
        capitalization_dates: vec![7, 8, 9],
    };
    let b = Borrowings::new(payments, disbursements).unwrap();
    assert_eq!(b.ids().to_vec(), names(&["B", "A"]));
    assert_eq!(b.locations().to_vec(), names(&["first", "third"]));
    assert_eq!(b.capitalization_dates().to_vec(), vec![7, 9]);
    assert_eq!(b.disbursements_ranges().to_vec(), vec![0..2, 2..3]);
}

#[test]
fn aligned_files_give_each_loan_its_own_rows() {
    let b = sample();
    let ids = b.ids();
    let payment_ids = names(&["A", "A", "B", "B", "C"]);
    for (i, r) in b.payments_ranges().iter().enumerate() {
        for j in r.clone() {
            assert_eq!(payment_ids[b.payment_rows()[j]], ids[i]);
        }
    }
}

#[test]
fn process_plans_every_loan() {
    let b = sample();
    let plans = b.process();
    assert_eq!(plans.len(), 2);
    let a = plans[0].as_ref().unwrap();
    assert_eq!((a.grid_days, a.first_date), (61, 100));
    assert_eq!(a.segments[0].payment_slots, vec![30, 60]);
    let bb = plans[1].as_ref().unwrap();
    assert_eq!((bb.grid_days, bb.first_date), (61, 200));
    assert_eq!(bb.segments[0].disbursement_slots, vec![0]);
}

#[test]
fn process_pairs_loans_with_runs_by_position() {
    // payments of loans A and B interleave, so the payments file yields more
    // runs than there are loans and the loans are paired with the wrong runs
    let payments = PaymentTable {
        loan_ids: names(&["A", "B", "A"]),
        dates: vec![10, 20, 30],
        amendment_dates: vec![1, 1, 1],
    };
    let disbursements = DisbursementTable {
        loan_ids: names(&["A", "B"]),
        dates: vec![5, 15],
        amendment_dates: vec![1, 1],
        locations: names(&["x", "y"]),
        capitalization_dates: vec![0, 0],
    };
    let b = Borrowings::new(payments, disbursements).unwrap();
    assert_eq!(b.payments_ranges().to_vec(), vec![0..1, 1..2, 2..3]);
    let plans = b.process();
    assert_eq!(plans.len(), 2);
    assert_eq!(plans[0].as_ref().unwrap().grid_days, 6);
    assert_eq!(plans[1].as_ref().unwrap().grid_days, 6);
}

#[test]
fn files_meeting_loans_in_different_orders_pair_loans_with_the_wrong_rows() {
    let payments = PaymentTable {
        loan_ids: names(&["B", "B", "A"]),
        dates: vec![10, 20, 30],
        amendment_dates: vec![1, 1, 1],
    };
    let disbursements = DisbursementTable {
        loan_ids: names(&["A", "B"]),
        dates: vec![5, 15],
        amendment_dates: vec![1, 1],
        locations: names(&["x", "y"]),
        capitalization_dates: vec![0, 0],
    };
    let b = Borrowings::new(payments, disbursements).unwrap();
    assert_eq!(b.ids().to_vec(), names(&["A", "B"]));
    // payment range 0 holds the rows of loan B, although loan 0 is A
    assert_eq!(b.payments_ranges().to_vec(), vec![0..2, 2..3]);
    assert_eq!(b.date_payments()[0], 10);
}
