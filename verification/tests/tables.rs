use irr::tables::{first_occurrences, semi_joins, shares_a_loan, unique_loan_ids};

fn names(v: &[&str]) -> Vec<String> {
    v.iter().map(|s| s.to_string()).collect()
}

#[test]
fn semi_join_keeps_rows_of_loans_in_the_other_table() {
    let ids = names(&["A", "A", "B", "C", "C", "A"]);
    let other = names(&["C", "A"]);
    assert_eq!(semi_joins(&ids, &other), vec![0, 1, 3, 4, 5]);
}

#[test]
fn semi_join_with_nothing_in_common_keeps_nothing() {
    let ids = names(&["A", "B"]);
    let other = names(&["Z"]);
    assert!(semi_joins(&ids, &other).is_empty());
    assert!(semi_joins(&ids, &[]).is_empty());
}

#[test]
fn unique_ids_in_order_of_first_appearance() {
    let ids = names(&["B", "B", "A", "B", "C", "A"]);
    assert_eq!(unique_loan_ids(&ids), names(&["B", "A", "C"]));
    assert_eq!(first_occurrences(&ids), vec![0, 2, 4]);
}

#[test]
fn unique_ids_of_an_empty_table() {
    assert!(unique_loan_ids(&[]).is_empty());
}

#[test]
fn tables_sharing_a_loan() {
    let p = names(&["A", "B"]);
    assert!(shares_a_loan(&p, &names(&["C", "B"])));
    assert!(!shares_a_loan(&p, &names(&["C", "D"])));
    assert!(!shares_a_loan(&[], &p));
}

#[test]
fn joining_both_ways_keeps_the_common_loans() {
    let p = names(&["A", "A", "B", "E"]);
    let d = names(&["B", "A", "D"]);
    let kept_p = semi_joins(&p, &unique_loan_ids(&d));
    let kept_d = semi_joins(&d, &unique_loan_ids(&p));
    let mut from_p: Vec<&String> = kept_p.iter().map(|&r| &p[r]).collect();
    let mut from_d: Vec<&String> = kept_d.iter().map(|&r| &d[r]).collect();
    from_p.dedup();
    from_p.sort();
    from_d.sort();
    assert_eq!(from_p, from_d);
    assert_eq!(kept_p, vec![0, 1, 2]);
    assert_eq!(kept_d, vec![0, 1]);
}
