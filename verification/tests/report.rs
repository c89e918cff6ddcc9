use irr::report::period_groups;

#[test]
fn periods_split_at_month_payment_disbursement_and_rate() {
    // days:        0      1      2      3      4      5      6
    let months = [0, 0, 0, 0, 31, 31, 31];
    let paid = [false, true, false, false, false, false, false];
    let disbursed = [true, false, false, false, false, true, false];
    let rate_changed = [true, false, false, true, false, false, false];
    // day 0 opens (disbursed, rate), day 2 opens (paid on day 1), day 3 opens (rate),
    // day 4 opens (month), day 5 opens (disbursed)
    assert_eq!(
        period_groups(&months, &paid, &disbursed, &rate_changed),
        vec![1, 1, 2, 3, 4, 5, 5]
    );
}

#[test]
fn quiet_days_share_their_period() {
    let months = [0, 0, 0];
    let no = [false, false, false];
    assert_eq!(period_groups(&months, &no, &no, &no), vec![0, 0, 0]);
    assert!(period_groups(&[], &[], &[], &[]).is_empty());
}

#[test]
fn a_payment_on_the_last_day_opens_nothing() {
    let months = [0, 0];
    let paid = [false, true];
    let no = [false, false];
    assert_eq!(period_groups(&months, &paid, &no, &no), vec![0, 0]);
}

