//! The borrowings: the loans common to the payments and disbursements files,
//! their rows, and the planning of every loan.

use std::ops::Range;
use vstd::prelude::*;

use crate::errors::BorrowingError;
use crate::plan::{
    lemma_plan_disbursements, lemma_plan_stays_on_grid, loan_plan, plan_loan,
    segment_takes_its_disbursements, LoanPlan, LoanPlanView,
};
use crate::ranges::{
    create_ranges, id_views, lemma_run_is_maximal, lemma_runs_in_bounds, lemma_runs_partition, runs,
};
use crate::tables::{
    lemma_first_rows_cover, common_order, gather_ids, lemma_kept_loans_in_file_order, grouped, lemma_grouped_runs_follow_distinct_values, distinct_values, first_occurrences, first_rows, lemma_distinct_values,
    lemma_joined_tables_hold_common_loans, lemma_semi_join_keeps_matching_rows, semi_join_rows,
    semi_joins, shares_an_id, unique_loan_ids,
};

verus! {

/// The payments file, one entry per row, as the schedule reads it: the loan
/// each row belongs to, its payment date and its amendment date (dates are
/// days since 1970-01-01).
pub struct PaymentTable {
    pub loan_ids: Vec<String>,
    pub dates: Vec<i32>,
    pub amendment_dates: Vec<i32>,
}

/// The disbursements file, one entry per row, as the schedule reads it.
pub struct DisbursementTable {
    pub loan_ids: Vec<String>,
    pub dates: Vec<i32>,
    pub amendment_dates: Vec<i32>,
    pub locations: Vec<String>,
    pub capitalization_dates: Vec<i32>,
}

impl PaymentTable {
    /// All columns have one entry per row.
    pub open spec fn wf(&self) -> bool {
        &&& self.dates@.len() == self.loan_ids@.len()
        &&& self.amendment_dates@.len() == self.loan_ids@.len()
    }
}

impl DisbursementTable {
    /// All columns have one entry per row.
    pub open spec fn wf(&self) -> bool {
        &&& self.dates@.len() == self.loan_ids@.len()
        &&& self.amendment_dates@.len() == self.loan_ids@.len()
        &&& self.locations@.len() == self.loan_ids@.len()
        &&& self.capitalization_dates@.len() == self.loan_ids@.len()
    }
}

/// The entries of `col` at the positions `rows`, in that order.
pub open spec fn gather<T>(col: Seq<T>, rows: Seq<usize>) -> Seq<T> {
    rows.map_values(|r: usize| col[r as int])
}

/// The loans of both files, aligned: one identifier, location and
/// capitalisation date per loan, the columns of the rows kept from each file,
/// the positions those rows had in their file, and each loan's range of kept
/// rows in each file.
pub struct Borrowings {
    ids: Vec<String>,
    locations: Vec<String>,
    capitalization_dates: Vec<i32>,
    payment_amendment_dates: Vec<i32>,
    disbursement_amendment_dates: Vec<i32>,
    date_payments: Vec<i32>,
    date_disbursements: Vec<i32>,
    payment_rows: Vec<usize>,
    disbursement_rows: Vec<usize>,
    payments_ranges: Vec<Range<usize>>,
    disbursements_ranges: Vec<Range<usize>>,
}

/// What a `Borrowings` holds.
pub struct BorrowingsView {
    pub ids: Seq<Seq<char>>,
    pub locations: Seq<Seq<char>>,
    pub capitalization_dates: Seq<i32>,
    pub payment_amendment_dates: Seq<i32>,
    pub disbursement_amendment_dates: Seq<i32>,
    pub date_payments: Seq<i32>,
    pub date_disbursements: Seq<i32>,
    pub payment_rows: Seq<usize>,
    pub disbursement_rows: Seq<usize>,
    pub payments_ranges: Seq<Range<usize>>,
    pub disbursements_ranges: Seq<Range<usize>>,
}

impl Borrowings {
    /// The column pairs have one entry per kept row, and every loan range is a
    /// non-empty range of kept rows.
    #[verifier::type_invariant]
    spec fn inv(self) -> bool {
        &&& self.payment_amendment_dates@.len() == self.date_payments@.len()
        &&& self.disbursement_amendment_dates@.len() == self.date_disbursements@.len()
        &&& forall|i: int|
            0 <= i < self.payments_ranges@.len() ==> #[trigger] self.payments_ranges@[i].start
                < self.payments_ranges@[i].end <= self.date_payments@.len()
        &&& forall|i: int|
            0 <= i < self.disbursements_ranges@.len() ==> #[trigger] self.disbursements_ranges@[i].start
                < self.disbursements_ranges@[i].end <= self.date_disbursements@.len()
    }
}

impl View for Borrowings {
    type V = BorrowingsView;

    closed spec fn view(&self) -> BorrowingsView {
        BorrowingsView {
            ids: id_views(self.ids@),
            locations: id_views(self.locations@),
            capitalization_dates: self.capitalization_dates@,
            payment_amendment_dates: self.payment_amendment_dates@,
            disbursement_amendment_dates: self.disbursement_amendment_dates@,
            date_payments: self.date_payments@,
            date_disbursements: self.date_disbursements@,
            payment_rows: self.payment_rows@,
            disbursement_rows: self.disbursement_rows@,
            payments_ranges: self.payments_ranges@,
            disbursements_ranges: self.disbursements_ranges@,
        }
    }
}

/// The payment rows that are kept: those of loans that also have disbursements.
pub open spec fn kept_payment_rows(p: Seq<Seq<char>>, d: Seq<Seq<char>>) -> Seq<usize> {
    semi_join_rows(p, distinct_values(d))
}

/// The disbursement rows that are kept: those of loans that also have payments.
pub open spec fn kept_disbursement_rows(p: Seq<Seq<char>>, d: Seq<Seq<char>>) -> Seq<usize> {
    semi_join_rows(d, distinct_values(p))
}

/// The borrowings that the two files describe.
pub open spec fn borrowings_of(payments: PaymentTable, disbursements: DisbursementTable) -> BorrowingsView {
    let p = id_views(payments.loan_ids@);
    let d = id_views(disbursements.loan_ids@);
    let kp = kept_payment_rows(p, d);
    let kd = kept_disbursement_rows(p, d);
    let kept_d = gather(d, kd);
    let groups = first_rows(kept_d);
    BorrowingsView {
        ids: gather(kept_d, groups),
        locations: gather(gather(id_views(disbursements.locations@), kd), groups),
        capitalization_dates: gather(gather(disbursements.capitalization_dates@, kd), groups),
        payment_amendment_dates: gather(payments.amendment_dates@, kp),
        disbursement_amendment_dates: gather(disbursements.amendment_dates@, kd),
        date_payments: gather(payments.dates@, kp),
        date_disbursements: gather(disbursements.dates@, kd),
        payment_rows: kp,
        disbursement_rows: kd,
        payments_ranges: runs(gather(p, kp)),
        disbursements_ranges: runs(kept_d),
    }
}

/// The plan of loan `i` of the borrowings `b`: built from the loan's ranges of
/// payment and disbursement rows; none when the loan has no such ranges or
/// cannot be planned.
pub open spec fn loan_plan_of(b: BorrowingsView, i: int) -> Option<LoanPlanView> {
    if i < b.payments_ranges.len() && i < b.disbursements_ranges.len() {
        let pr = b.payments_ranges[i];
        let dr = b.disbursements_ranges[i];
        loan_plan(
            b.payment_amendment_dates.subrange(pr.start as int, pr.end as int),
            b.date_payments.subrange(pr.start as int, pr.end as int),
            b.disbursement_amendment_dates.subrange(dr.start as int, dr.end as int),
            b.date_disbursements.subrange(dr.start as int, dr.end as int),
        )
    } else {
        None
    }
}

/// Every row of range `i` of `ranges` holds identifier `i` of `ids`, where row
/// `j` stands for position `rows[j]` of the column `col`; one range per identifier.
pub open spec fn ranges_hold_ids(
    ids: Seq<Seq<char>>,
    ranges: Seq<Range<usize>>,
    rows: Seq<usize>,
    col: Seq<Seq<char>>,
) -> bool {
    &&& ranges.len() == ids.len()
    &&& forall|i: int, j: int|
        #![trigger ranges[i], rows[j]]
        0 <= i < ids.len() && ranges[i].start <= j < ranges[i].end ==> col[rows[j] as int] == ids[i]
}

/// Law: when each file lists the rows of a loan together and both files meet
/// their common loans in the same order, the borrowings hold one payment range
/// and one disbursement range per loan, and every row of the ranges of loan
/// `i` belongs to loan `i`.
pub proof fn lemma_loans_align(payments: PaymentTable, disbursements: DisbursementTable)
    requires
        payments.wf(),
        disbursements.wf(),
        shares_an_id(id_views(payments.loan_ids@), id_views(disbursements.loan_ids@)),
        grouped(
            gather(
                id_views(payments.loan_ids@),
                kept_payment_rows(id_views(payments.loan_ids@), id_views(disbursements.loan_ids@)),
            ),
        ),
        grouped(
            gather(
                id_views(disbursements.loan_ids@),
                kept_disbursement_rows(id_views(payments.loan_ids@), id_views(disbursements.loan_ids@)),
            ),
        ),
        distinct_values(
            gather(
                id_views(payments.loan_ids@),
                kept_payment_rows(id_views(payments.loan_ids@), id_views(disbursements.loan_ids@)),
            ),
        ) == distinct_values(
            gather(
                id_views(disbursements.loan_ids@),
                kept_disbursement_rows(id_views(payments.loan_ids@), id_views(disbursements.loan_ids@)),
            ),
        ),
    ensures
        ranges_hold_ids(
            borrowings_of(payments, disbursements).ids,
            borrowings_of(payments, disbursements).payments_ranges,
            borrowings_of(payments, disbursements).payment_rows,
            id_views(payments.loan_ids@),
        ),
        ranges_hold_ids(
            borrowings_of(payments, disbursements).ids,
            borrowings_of(payments, disbursements).disbursements_ranges,
            borrowings_of(payments, disbursements).disbursement_rows,
            id_views(disbursements.loan_ids@),
        ),
{
    let p = id_views(payments.loan_ids@);
    let d = id_views(disbursements.loan_ids@);
    let kp = kept_payment_rows(p, d);
    let kd = kept_disbursement_rows(p, d);
    let b = borrowings_of(payments, disbursements);
    assert(payments.loan_ids.len() == p.len());
    assert(disbursements.loan_ids.len() == d.len());
    lemma_semi_join_keeps_matching_rows(p, distinct_values(d));
    lemma_semi_join_keeps_matching_rows(d, distinct_values(p));
    let i0 = choose|i: int| 0 <= i < p.len() && d.contains(p[i]);
    lemma_joined_tables_hold_common_loans(p, d, p[i0]);
    let gp = gather(p, kp);
    let gd = gather(d, kd);
    assert(gp.len() >= 1);
    assert(gd.len() >= 1);
    lemma_grouped_runs_follow_distinct_values(gp);
    lemma_grouped_runs_follow_distinct_values(gd);
    lemma_runs_in_bounds(gp);
    lemma_runs_in_bounds(gd);
    assert(b.ids =~= distinct_values(gd));
    assert forall|i: int, j: int|
        #![trigger b.payments_ranges[i], b.payment_rows[j]]
        0 <= i < b.ids.len() && b.payments_ranges[i].start <= j < b.payments_ranges[i].end implies p[b.payment_rows[j] as int]
            == b.ids[i] by {
        assert(gp[j] == distinct_values(gp)[i]);
    }
    assert forall|i: int, j: int|
        #![trigger b.disbursements_ranges[i], b.disbursement_rows[j]]
        0 <= i < b.ids.len() && b.disbursements_ranges[i].start <= j < b.disbursements_ranges[i].end implies d[b.disbursement_rows[j] as int]
            == b.ids[i] by {
        assert(gd[j] == distinct_values(gd)[i]);
    }
}

/// `ranges` cut the positions `0..n` into consecutive, non-empty ranges.
pub open spec fn ranges_partition(ranges: Seq<Range<usize>>, n: int) -> bool {
    &&& ranges.len() >= 1
    &&& ranges[0].start == 0
    &&& ranges[ranges.len() - 1].end == n
    &&& forall|i: int| 0 <= i < ranges.len() ==> #[trigger] ranges[i].start < ranges[i].end
    &&& forall|i: int| 0 <= i < ranges.len() - 1 ==> #[trigger] ranges[i].end == ranges[i + 1].start
}

/// Rows picked in increasing order from a column whose equal values stand
/// together still have their equal values together.
pub proof fn lemma_picked_rows_stay_grouped(col: Seq<Seq<char>>, rows: Seq<usize>)
    requires
        grouped(col),
        forall|k: int| 0 <= k < rows.len() ==> #[trigger] rows[k] < col.len(),
        forall|a: int, b: int| 0 <= a < b < rows.len() ==> rows[a] < rows[b],
    ensures
        grouped(gather(col, rows)),
{
    let g = gather(col, rows);
    assert forall|a: int, b: int, c: int|
        0 <= a < b < c < g.len() && #[trigger] g[a] == #[trigger] g[c] implies #[trigger] g[b] == g[a] by {
        assert(rows[a] < rows[b] < rows[c]);
        assert(col[rows[a] as int] == g[a]);
        assert(col[rows[b] as int] == g[b]);
        assert(col[rows[c] as int] == g[c]);
    }
}

/// Law: when each file lists the rows of every loan together, and both files
/// first mention their common loans in the same order, the borrowings hold one payment
/// range and one disbursement range per loan, and every row of the ranges of
/// loan `i` belongs to loan `i`.
pub proof fn lemma_loans_align_in_files(payments: PaymentTable, disbursements: DisbursementTable)
    requires
        payments.wf(),
        disbursements.wf(),
        shares_an_id(id_views(payments.loan_ids@), id_views(disbursements.loan_ids@)),
        grouped(id_views(payments.loan_ids@)),
        grouped(id_views(disbursements.loan_ids@)),
        common_order(id_views(payments.loan_ids@), id_views(disbursements.loan_ids@)) == common_order(
            id_views(disbursements.loan_ids@),
            id_views(payments.loan_ids@),
        ),
    ensures
        ranges_hold_ids(
            borrowings_of(payments, disbursements).ids,
            borrowings_of(payments, disbursements).payments_ranges,
            borrowings_of(payments, disbursements).payment_rows,
            id_views(payments.loan_ids@),
        ),
        ranges_hold_ids(
            borrowings_of(payments, disbursements).ids,
            borrowings_of(payments, disbursements).disbursements_ranges,
            borrowings_of(payments, disbursements).disbursement_rows,
            id_views(disbursements.loan_ids@),
        ),
        ranges_partition(
            borrowings_of(payments, disbursements).payments_ranges,
            borrowings_of(payments, disbursements).payment_rows.len() as int,
        ),
        ranges_partition(
            borrowings_of(payments, disbursements).disbursements_ranges,
            borrowings_of(payments, disbursements).disbursement_rows.len() as int,
        ),
{
    let p = id_views(payments.loan_ids@);
    let d = id_views(disbursements.loan_ids@);
    assert(payments.loan_ids.len() == p.len());
    assert(disbursements.loan_ids.len() == d.len());
    lemma_semi_join_keeps_matching_rows(p, distinct_values(d));
    lemma_semi_join_keeps_matching_rows(d, distinct_values(p));
    lemma_picked_rows_stay_grouped(p, kept_payment_rows(p, d));
    lemma_picked_rows_stay_grouped(d, kept_disbursement_rows(p, d));
    lemma_kept_loans_in_file_order(p, d);
    lemma_kept_loans_in_file_order(d, p);
    assert(gather(p, kept_payment_rows(p, d)) =~= gather_ids(p, kept_payment_rows(p, d)));
    assert(gather(d, kept_disbursement_rows(p, d)) =~= gather_ids(d, kept_disbursement_rows(p, d)));
    lemma_loans_align(payments, disbursements);
    let i0 = choose|i: int| 0 <= i < p.len() && d.contains(p[i]);
    lemma_joined_tables_hold_common_loans(p, d, p[i0]);
    lemma_runs_partition(gather(p, kept_payment_rows(p, d)));
    lemma_runs_partition(gather(d, kept_disbursement_rows(p, d)));
}

/// Law: the borrowings list exactly the loans found in both files, each once;
/// and the location and capitalisation date of each loan are those of the
/// first row of the disbursements file that belongs to it.
pub proof fn lemma_loan_headers(payments: PaymentTable, disbursements: DisbursementTable)
    requires
        payments.wf(),
        disbursements.wf(),
    ensures
        borrowings_of(payments, disbursements).locations.len() == borrowings_of(payments, disbursements).ids.len(),
        borrowings_of(payments, disbursements).capitalization_dates.len() == borrowings_of(
            payments,
            disbursements,
        ).ids.len(),
        forall|a: int, c: int|
            0 <= a < c < borrowings_of(payments, disbursements).ids.len() ==> borrowings_of(
                payments,
                disbursements,
            ).ids[a] != borrowings_of(payments, disbursements).ids[c],
        forall|x: Seq<char>|
            #[trigger] borrowings_of(payments, disbursements).ids.contains(x) <==> (id_views(
                payments.loan_ids@,
            ).contains(x) && id_views(disbursements.loan_ids@).contains(x)),
        forall|i: int|
            #![trigger borrowings_of(payments, disbursements).ids[i]]
            0 <= i < borrowings_of(payments, disbursements).ids.len() ==> exists|r: int|
                0 <= r < disbursements.loan_ids@.len() && #[trigger] id_views(disbursements.loan_ids@)[r]
                    == borrowings_of(payments, disbursements).ids[i]
                    && borrowings_of(payments, disbursements).locations[i] == id_views(
                    disbursements.locations@,
                )[r] && borrowings_of(payments, disbursements).capitalization_dates[i]
                    == disbursements.capitalization_dates@[r] && forall|q: int|
                    0 <= q < r ==> #[trigger] id_views(disbursements.loan_ids@)[q]
                        != borrowings_of(payments, disbursements).ids[i],
{
    let p = id_views(payments.loan_ids@);
    let d = id_views(disbursements.loan_ids@);
    let b = borrowings_of(payments, disbursements);
    assert(payments.loan_ids.len() == p.len());
    assert(disbursements.loan_ids.len() == d.len());
    let kd = kept_disbursement_rows(p, d);
    let kp = kept_payment_rows(p, d);
    let kept_d = gather(d, kd);
    let groups = first_rows(kept_d);
    lemma_semi_join_keeps_matching_rows(d, distinct_values(p));
    lemma_semi_join_keeps_matching_rows(p, distinct_values(d));
    lemma_distinct_values(p);
    lemma_distinct_values(d);
    lemma_first_rows_cover(kept_d, kept_d.len() as int);
    lemma_distinct_values(kept_d);
    assert(b.ids =~= distinct_values(kept_d));
    assert forall|x: Seq<char>| #[trigger] b.ids.contains(x) <==> (p.contains(x) && d.contains(x)) by {
        lemma_joined_tables_hold_common_loans(p, d, x);
        if b.ids.contains(x) {
            assert(kept_d.contains(x));
            let k = choose|k: int| 0 <= k < kept_d.len() && kept_d[k] == x;
            assert(d[kd[k] as int] == x);
        }
        if p.contains(x) && d.contains(x) {
            let k = choose|k: int| 0 <= k < kd.len() && d[#[trigger] kd[k] as int] == x;
            assert(kept_d[k] == x);
            assert(kept_d.contains(x));
        }
    }
    assert forall|i: int| #![trigger b.ids[i]] 0 <= i < b.ids.len() implies exists|r: int|
        0 <= r < disbursements.loan_ids@.len() && #[trigger] d[r] == b.ids[i] && b.locations[i] == id_views(
            disbursements.locations@,
        )[r] && b.capitalization_dates[i] == disbursements.capitalization_dates@[r] && forall|q: int|
            0 <= q < r ==> #[trigger] d[q] != b.ids[i] by {
        let g = groups[i] as int;
        let r = kd[g] as int;
        assert(d[r] == kept_d[g]);
        assert(b.ids[i] == kept_d[g]);
        assert forall|q: int| 0 <= q < r implies #[trigger] d[q] != b.ids[i] by {
            if d[q] == b.ids[i] {
                assert(distinct_values(p).contains(d[r]));
                let k = choose|k: int| 0 <= k < kd.len() && kd[k] == q;
                if k >= g {
                    if k > g {
                        assert(kd[g] < kd[k]);
                    }
                }
                assert(k < g);
                assert(kept_d[k] == d[q]);
            }
        }
    }
}

/// Law: in the plan of loan `i`, every segment's payment rows are a whole
/// maximal block of the loan's payment rows that share one payment amendment
/// date (the first block for the first segment), and every segment takes the
/// disbursements of its amendment from the loan's disbursement rows, grouped by
/// their disbursement amendment dates, as `segment_takes_its_disbursements`
/// describes.
pub proof fn lemma_process_follows_amendments(b: BorrowingsView, i: int)
    requires
        0 <= i < b.payments_ranges.len(),
        i < b.disbursements_ranges.len(),
        b.payment_amendment_dates.len() == b.date_payments.len(),
        b.date_payments.len() <= usize::MAX,
        b.disbursement_amendment_dates.len() == b.date_disbursements.len(),
        b.date_disbursements.len() <= usize::MAX,
        b.payments_ranges[i].start < b.payments_ranges[i].end <= b.date_payments.len(),
        b.disbursements_ranges[i].start < b.disbursements_ranges[i].end <= b.date_disbursements.len(),
    ensures
        loan_plan_of(b, i) matches Some(p) ==> {
            let pr = b.payments_ranges[i];
            let dr = b.disbursements_ranges[i];
            let pa = b.payment_amendment_dates.subrange(pr.start as int, pr.end as int);
            let da = b.disbursement_amendment_dates.subrange(dr.start as int, dr.end as int);
            let dd = b.date_disbursements.subrange(dr.start as int, dr.end as int);
            forall|k: int|
                0 <= k < p.segments.len() ==> {
                    let ps = (#[trigger] p.segments[k]).payments;
                    &&& ps.start < ps.end <= pa.len()
                    &&& forall|j: int| ps.start <= j < ps.end ==> #[trigger] pa[j] == pa[ps.start as int]
                    &&& (ps.start == 0 || pa[ps.start - 1] != pa[ps.start as int])
                    &&& (ps.end == pa.len() || pa[ps.end - 1] != pa[ps.end as int])
                    &&& (k == 0 ==> ps.start == 0)
                    &&& segment_takes_its_disbursements(pa, da, dd, p.segments[k], k)
                }
        },
{
    let pr = b.payments_ranges[i];
    let dr = b.disbursements_ranges[i];
    let pa = b.payment_amendment_dates.subrange(pr.start as int, pr.end as int);
    let pd = b.date_payments.subrange(pr.start as int, pr.end as int);
    let da = b.disbursement_amendment_dates.subrange(dr.start as int, dr.end as int);
    let dd = b.date_disbursements.subrange(dr.start as int, dr.end as int);
    assert(loan_plan_of(b, i) == loan_plan(pa, pd, da, dd));
    lemma_plan_follows_amendments(pa, pd, da, dd);
}

/// The segments of a loan plan follow the blocks of equal amendment dates.
proof fn lemma_plan_follows_amendments(pa: Seq<i32>, pd: Seq<i32>, da: Seq<i32>, dd: Seq<i32>)
    requires
        pa.len() == pd.len(),
        1 <= pa.len() <= usize::MAX,
        da.len() == dd.len(),
        1 <= da.len() <= usize::MAX,
    ensures
        loan_plan(pa, pd, da, dd) matches Some(p) ==> forall|k: int|
            0 <= k < p.segments.len() ==> {
                let ps = (#[trigger] p.segments[k]).payments;
                &&& ps.start < ps.end <= pa.len()
                &&& forall|j: int| ps.start <= j < ps.end ==> #[trigger] pa[j] == pa[ps.start as int]
                &&& (ps.start == 0 || pa[ps.start - 1] != pa[ps.start as int])
                &&& (ps.end == pa.len() || pa[ps.end - 1] != pa[ps.end as int])
                &&& (k == 0 ==> ps.start == 0)
                &&& segment_takes_its_disbursements(pa, da, dd, p.segments[k], k)
            },
{
    lemma_plan_stays_on_grid(pa, pd, da, dd);
    lemma_plan_disbursements(pa, pd, da, dd);
    if let Some(p) = loan_plan(pa, pd, da, dd) {
        assert forall|k: int| 0 <= k < p.segments.len() implies {
            let ps = (#[trigger] p.segments[k]).payments;
            &&& ps.start < ps.end <= pa.len()
            &&& forall|j: int| ps.start <= j < ps.end ==> #[trigger] pa[j] == pa[ps.start as int]
            &&& (ps.start == 0 || pa[ps.start - 1] != pa[ps.start as int])
            &&& (ps.end == pa.len() || pa[ps.end - 1] != pa[ps.end as int])
            &&& (k == 0 ==> ps.start == 0)
            &&& segment_takes_its_disbursements(pa, da, dd, p.segments[k], k)
        } by {
            lemma_run_is_maximal(pa, k);
            lemma_runs_partition(pa);
        }
    }
}

fn gather_dates(col: &[i32], rows: &[usize]) -> (out: Vec<i32>)
    requires
        forall|k: int| 0 <= k < rows@.len() ==> #[trigger] rows@[k] < col@.len(),
    ensures
        out@.len() == rows@.len(),
        out@ == gather(col@, rows@),
{
    let mut out: Vec<i32> = Vec::new();
    let mut k: usize = 0;
    while k < rows.len()
        invariant
            forall|m: int| 0 <= m < rows@.len() ==> #[trigger] rows@[m] < col@.len(),
            k <= rows@.len(),
            out@ =~= gather(col@, rows@.take(k as int)),
        decreases rows@.len() - k,
    {
        out.push(col[rows[k]]);
        k = k + 1;
        assert(out@ =~= gather(col@, rows@.take(k as int)));
    }
    assert(rows@.take(rows@.len() as int) =~= rows@);
    out
}

fn gather_names(col: &[String], rows: &[usize]) -> (out: Vec<String>)
    requires
        forall|k: int| 0 <= k < rows@.len() ==> #[trigger] rows@[k] < col@.len(),
    ensures
        out@.len() == rows@.len(),
        id_views(out@) == gather(id_views(col@), rows@),
{
    let mut out: Vec<String> = Vec::new();
    let mut k: usize = 0;
    while k < rows.len()
        invariant
            forall|m: int| 0 <= m < rows@.len() ==> #[trigger] rows@[m] < col@.len(),
            k <= rows@.len(),
            out@.len() == k,
            forall|m: int| 0 <= m < k ==> #[trigger] out@[m]@ == col@[rows@[m] as int]@,
        decreases rows@.len() - k,
    {
        out.push(col[rows[k]].clone());
        k = k + 1;
    }
    assert(id_views(out@) =~= gather(id_views(col@), rows@));
    out
}

impl Borrowings {
    /// Plans the schedule of every loan, in loan order: entry `i` is the plan
    /// of loan `i` built from its ranges of payment and disbursement rows, or
    /// `None` when the loan has no such ranges or cannot be planned.
    pub fn process(&self) -> (plans: Vec<Option<LoanPlan>>)
        ensures
            plans@.len() == self@.ids.len(),
            forall|i: int|
                0 <= i < plans@.len() ==> match #[trigger] loan_plan_of(self@, i) {
                    Some(v) => plans@[i] matches Some(p) && p@ == v,
                    None => plans@[i] is None,
                },
    {
        proof {
            use_type_invariant(self);
        }
        let count: usize = self.ids.len();
        let mut plans: Vec<Option<LoanPlan>> = Vec::new();
        let mut i: usize = 0;
        while i < count
            invariant
                count == self@.ids.len(),
                i <= count,
                plans@.len() == i,
                self.payment_amendment_dates@.len() == self.date_payments@.len(),
                self.disbursement_amendment_dates@.len() == self.date_disbursements@.len(),
                forall|j: int|
                    0 <= j < self.payments_ranges@.len() ==> #[trigger] self.payments_ranges@[j].start
                        < self.payments_ranges@[j].end <= self.date_payments@.len(),
                forall|j: int|
                    0 <= j < self.disbursements_ranges@.len() ==> #[trigger] self.disbursements_ranges@[j].start
                        < self.disbursements_ranges@[j].end <= self.date_disbursements@.len(),
                forall|j: int|
                    0 <= j < i ==> match #[trigger] loan_plan_of(self@, j) {
                        Some(v) => plans@[j] matches Some(p) && p@ == v,
                        None => plans@[j] is None,
                    },
            decreases count - i,
        {
            if i < self.payments_ranges.len() && i < self.disbursements_ranges.len() {
                let ps: usize = self.payments_ranges[i].start;
                let pe: usize = self.payments_ranges[i].end;
                let ds: usize = self.disbursements_ranges[i].start;
                let de: usize = self.disbursements_ranges[i].end;
                let plan = plan_loan(
                    &self.payment_amendment_dates.as_slice()[ps..pe],
                    &self.date_payments.as_slice()[ps..pe],
                    &self.disbursement_amendment_dates.as_slice()[ds..de],
                    &self.date_disbursements.as_slice()[ds..de],
                );
                plans.push(plan);
            } else {
                plans.push(None);
            }
            i = i + 1;
        }
        plans
    }

    /// Builds the borrowings from the two files: keeps the rows of the loans
    /// found in both files, lists each loan once, in the order in which the
    /// disbursements file first mentions it, with the location and
    /// capitalisation date of that first row, and splits the kept rows of each
    /// file into runs of one loan.
    pub fn new(payments_df: PaymentTable, disbursements_df: DisbursementTable) -> (b: Result<Borrowings, BorrowingError>)
        requires
            payments_df.wf(),
            disbursements_df.wf(),
            shares_an_id(id_views(payments_df.loan_ids@), id_views(disbursements_df.loan_ids@)),
        ensures
            b matches Ok(v) && v@ == borrowings_of(payments_df, disbursements_df),
    {
        proof {
            assert(payments_df.loan_ids.len() == payments_df.loan_ids@.len());
            assert(disbursements_df.loan_ids.len() == disbursements_df.loan_ids@.len());
        }
        let ghost p = id_views(payments_df.loan_ids@);
        let ghost d = id_views(disbursements_df.loan_ids@);
        let payment_ids = unique_loan_ids(&payments_df.loan_ids);
        let disbursement_ids = unique_loan_ids(&disbursements_df.loan_ids);
        let payment_rows = semi_joins(&payments_df.loan_ids, &disbursement_ids);
        let disbursement_rows = semi_joins(&disbursements_df.loan_ids, &payment_ids);
        proof {
            lemma_semi_join_keeps_matching_rows(p, distinct_values(d));
            lemma_semi_join_keeps_matching_rows(d, distinct_values(p));
            lemma_distinct_values(p);
            lemma_distinct_values(d);
            let i = choose|i: int| 0 <= i < p.len() && d.contains(p[i]);
            lemma_joined_tables_hold_common_loans(p, d, p[i]);
        }
        let kept_payment_ids = gather_names(&payments_df.loan_ids, &payment_rows);
        let kept_disbursement_ids = gather_names(&disbursements_df.loan_ids, &disbursement_rows);
        let kept_locations = gather_names(&disbursements_df.locations, &disbursement_rows);
        let kept_capitalization = gather_dates(&disbursements_df.capitalization_dates, &disbursement_rows);
        let groups = first_occurrences(&kept_disbursement_ids);
        proof {
            assert(kept_disbursement_ids.len() == kept_disbursement_ids@.len());
            crate::tables::lemma_first_rows_cover(id_views(kept_disbursement_ids@), kept_disbursement_ids@.len() as int);
        }
        let ids = gather_names(&kept_disbursement_ids, &groups);
        let locations = gather_names(&kept_locations, &groups);
        let capitalization_dates = gather_dates(&kept_capitalization, &groups);
        let payment_amendment_dates = gather_dates(&payments_df.amendment_dates, &payment_rows);
        let disbursement_amendment_dates = gather_dates(&disbursements_df.amendment_dates, &disbursement_rows);
        let date_payments = gather_dates(&payments_df.dates, &payment_rows);
        let date_disbursements = gather_dates(&disbursements_df.dates, &disbursement_rows);
        proof {
            assert(kept_payment_ids.len() == kept_payment_ids@.len());
            lemma_runs_in_bounds(id_views(kept_payment_ids@));
            lemma_runs_in_bounds(id_views(kept_disbursement_ids@));
        }
        let hint: usize = if ids.len() < usize::MAX - 2 { ids.len() + 2 } else { ids.len() };
        let payments_ranges = match create_ranges(&kept_payment_ids, hint) {
            Ok(v) => v,
            Err(e) => { return Err(e); },
        };
        let disbursements_ranges = match create_ranges(&kept_disbursement_ids, hint) {
            Ok(v) => v,
            Err(e) => { return Err(e); },
        };
        Ok(Borrowings {
            ids,
            locations,
            capitalization_dates,
            payment_amendment_dates,
            disbursement_amendment_dates,
            date_payments,
            date_disbursements,
            payment_rows,
            disbursement_rows,
            payments_ranges,
            disbursements_ranges,
        })
    }
}

impl Borrowings {
    /// The loan identifiers, one per loan.
    pub fn ids(&self) -> (r: &[String])
        ensures
            id_views(r@) == self@.ids,
    {
        self.ids.as_slice()
    }

    /// The location of each loan.
    pub fn locations(&self) -> (r: &[String])
        ensures
            id_views(r@) == self@.locations,
    {
        self.locations.as_slice()
    }

    /// The capitalisation date of each loan.
    pub fn capitalization_dates(&self) -> (r: &[i32])
        ensures
            r@ == self@.capitalization_dates,
    {
        self.capitalization_dates.as_slice()
    }

    /// The amendment date of each kept payment row.
    pub fn payment_amendment_dates(&self) -> (r: &[i32])
        ensures
            r@ == self@.payment_amendment_dates,
    {
        self.payment_amendment_dates.as_slice()
    }

    /// The amendment date of each kept disbursement row.
    pub fn disbursement_amendment_dates(&self) -> (r: &[i32])
        ensures
            r@ == self@.disbursement_amendment_dates,
    {
        self.disbursement_amendment_dates.as_slice()
    }

    /// The date of each kept payment row.
    pub fn date_payments(&self) -> (r: &[i32])
        ensures
            r@ == self@.date_payments,
    {
        self.date_payments.as_slice()
    }

    /// The date of each kept disbursement row.
    pub fn date_disbursements(&self) -> (r: &[i32])
        ensures
            r@ == self@.date_disbursements,
    {
        self.date_disbursements.as_slice()
    }

    /// The position in the payments file of each kept payment row.
    pub fn payment_rows(&self) -> (r: &[usize])
        ensures
            r@ == self@.payment_rows,
    {
        self.payment_rows.as_slice()
    }

    /// The position in the disbursements file of each kept disbursement row.
    pub fn disbursement_rows(&self) -> (r: &[usize])
        ensures
            r@ == self@.disbursement_rows,
    {
        self.disbursement_rows.as_slice()
    }

    /// Each loan's range of kept payment rows.
    pub fn payments_ranges(&self) -> (r: &[Range<usize>])
        ensures
            r@ == self@.payments_ranges,
    {
        self.payments_ranges.as_slice()
    }

    /// Each loan's range of kept disbursement rows.
    pub fn disbursements_ranges(&self) -> (r: &[Range<usize>])
        ensures
            r@ == self@.disbursements_ranges,
    {
        self.disbursements_ranges.as_slice()
    }
}

} // verus!
