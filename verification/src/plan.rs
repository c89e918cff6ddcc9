//! The schedule of one loan: its daily grid and each amendment's window on it.

use std::ops::Range;
use vstd::prelude::*;

use crate::ranges::{
    get_amendment_splits, lemma_position_in_run, lemma_run_in_bounds, lemma_run_is_maximal,
    lemma_runs_in_bounds, lemma_runs_partition, runs,
};
use crate::schedule::{
    fits_i32, lemma_window_slots, padding_slots, slots_from, window_capacity, window_days, window_slots,
};

verus! {

/// One amendment of a loan, placed on the loan's daily grid.
#[derive(Debug, PartialEq, Eq)]
pub struct Segment {
    /// The loan's payment rows of this amendment.
    pub payments: Range<usize>,
    /// The loan's disbursement rows of this amendment; `None` when the
    /// amendment has no disbursement of its own and a single zero disbursement
    /// on the amendment date stands for it.
    pub disbursements: Option<Range<usize>>,
    /// The first day of the amendment's window: the date of its first disbursement.
    pub start_date: i32,
    /// The last day of the window: the next amendment's date, or the last
    /// payment date of the last amendment.
    pub cutoff: i32,
    /// The grid slot where the window starts.
    pub offset: usize,
    /// The number of days of the window.
    pub window: usize,
    /// The date of the opening balance that the rate search uses (`0` for the
    /// first amendment, which opens with nothing).
    pub opening_date: i32,
    /// Window slots of the leading payments that fall inside the window.
    pub payment_slots: Vec<usize>,
    /// Window slots of the leading disbursements that fall inside the window.
    pub disbursement_slots: Vec<usize>,
}

/// What a `Segment` holds.
pub struct SegmentView {
    pub payments: Range<usize>,
    pub disbursements: Option<Range<usize>>,
    pub start_date: i32,
    pub cutoff: i32,
    pub offset: usize,
    pub window: usize,
    pub opening_date: i32,
    pub payment_slots: Seq<usize>,
    pub disbursement_slots: Seq<usize>,
}

impl View for Segment {
    type V = SegmentView;

    open spec fn view(&self) -> SegmentView {
        SegmentView {
            payments: self.payments,
            disbursements: self.disbursements,
            start_date: self.start_date,
            cutoff: self.cutoff,
            offset: self.offset,
            window: self.window,
            opening_date: self.opening_date,
            payment_slots: self.payment_slots@,
            disbursement_slots: self.disbursement_slots@,
        }
    }
}

/// The schedule of one loan: a daily grid from its first disbursement through
/// its last payment, and its amendments placed on that grid.
#[derive(Debug, PartialEq, Eq)]
pub struct LoanPlan {
    /// The number of days of the grid.
    pub grid_days: usize,
    /// The date of grid slot `0`: the loan's first disbursement date.
    pub first_date: i32,
    pub segments: Vec<Segment>,
}

/// What a `LoanPlan` holds.
pub struct LoanPlanView {
    pub grid_days: usize,
    pub first_date: i32,
    pub segments: Seq<SegmentView>,
}

impl View for LoanPlan {
    type V = LoanPlanView;

    open spec fn view(&self) -> LoanPlanView {
        LoanPlanView {
            grid_days: self.grid_days,
            first_date: self.first_date,
            segments: self.segments@.map_values(|s: Segment| s@),
        }
    }
}

/// The number of days from the first disbursement through the last payment,
/// both included; none when the span leaves `i32` or is negative.
pub open spec fn grid_span(payment_dates: Seq<i32>, disbursement_dates: Seq<i32>) -> Option<int> {
    let g = payment_dates.last() - disbursement_dates[0];
    if fits_i32(g) && fits_i32(g + 1) && g + 1 >= 0 {
        Some(g + 1)
    } else {
        None
    }
}

/// The first of the disbursement runs from `k` on whose amendment date is `date`.
pub open spec fn matching_run(
    disbursement_amendments: Seq<i32>,
    druns: Seq<Range<usize>>,
    date: i32,
    k: int,
) -> Option<Range<usize>>
    decreases druns.len() - k,
{
    if k < 0 || k >= druns.len() {
        None
    } else if disbursement_amendments[druns[k].start as int] == date {
        Some(druns[k])
    } else {
        matching_run(disbursement_amendments, druns, date, k + 1)
    }
}

/// The disbursement dates of a segment: those of its run, or the amendment
/// date alone when it has none.
pub open spec fn segment_disbursement_dates(
    disbursement_dates: Seq<i32>,
    run: Option<Range<usize>>,
    amendment_date: i32,
) -> Seq<i32> {
    match run {
        Some(r) => disbursement_dates.subrange(r.start as int, r.end as int),
        None => seq![amendment_date],
    }
}

/// Amendment `k` of a loan on a grid of `grid` days that starts on `first`,
/// or none when the schedule cannot place it: when its cutoff comes more than
/// a day before its start, when the window or the amendment's start leaves the grid, or
/// when a reached day distance leaves `i32`.
pub open spec fn segment_of(
    pa: Seq<i32>,
    pd: Seq<i32>,
    da: Seq<i32>,
    dd: Seq<i32>,
    k: int,
    grid: int,
    first: i32,
) -> Option<SegmentView> {
    let pruns = runs(pa);
    let druns = runs(da);
    let ps = pruns[k];
    let amendment = pa[ps.start as int];
    let run = if k == 0 {
        Some(druns[0])
    } else {
        matching_run(da, druns, amendment, 0)
    };
    let ddates = segment_disbursement_dates(dd, run, amendment);
    let start = ddates[0];
    let cutoff = if k + 1 < pruns.len() {
        pa[pruns[k + 1].start as int]
    } else {
        pd[ps.end - 1]
    };
    let offset: int = if k == 0 { 0 } else { amendment - first };
    let pdates = pd.subrange(ps.start as int, ps.end as int);
    if !(0 <= offset < grid) {
        None
    } else {
        match window_days(start, cutoff) {
            None => None,
            Some(w) => if offset + w > grid {
                None
            } else {
                match (window_slots(pdates, start, w), window_slots(ddates, start, w)) {
                    (Some(psl), Some(dsl)) => Some(
                        SegmentView {
                            payments: ps,
                            disbursements: run,
                            start_date: start,
                            cutoff,
                            offset: offset as usize,
                            window: w as usize,
                            opening_date: if k == 0 { 0 } else { amendment },
                            payment_slots: psl,
                            disbursement_slots: dsl,
                        },
                    ),
                    _ => None,
                }
            },
        }
    }
}

/// The schedule of one loan given its payment amendment dates `pa`, payment
/// dates `pd`, disbursement amendment dates `da` and disbursement dates `dd`;
/// none when the grid or one of the amendments cannot be placed.
pub open spec fn loan_plan(pa: Seq<i32>, pd: Seq<i32>, da: Seq<i32>, dd: Seq<i32>) -> Option<LoanPlanView> {
    match grid_span(pd, dd) {
        None => None,
        Some(grid) => {
            let n = runs(pa).len();
            if forall|k: int| 0 <= k < n ==> #[trigger] segment_of(pa, pd, da, dd, k, grid, dd[0]) is Some {
                Some(
                    LoanPlanView {
                        grid_days: grid as usize,
                        first_date: dd[0],
                        segments: Seq::new(
                            n,
                            |k: int| segment_of(pa, pd, da, dd, k, grid, dd[0])->Some_0,
                        ),
                    },
                )
            } else {
                None
            }
        },
    }
}

} // verus!

verus! {

/// The first disbursement run whose amendment date is `date`.
fn find_matching_run(da: &[i32], dsplits: &Vec<Range<usize>>, date: i32) -> (run: Option<Range<usize>>)
    requires
        da@.len() >= 1,
        dsplits@ == runs(da@),
    ensures
        run == matching_run(da@, runs(da@), date, 0),
{
    proof {
        assert(da.len() == da@.len());
        lemma_runs_in_bounds(da@);
    }
    let mut j: usize = 0;
    while j < dsplits.len()
        invariant
            da@.len() >= 1,
            dsplits@ == runs(da@),
            forall|i: int| 0 <= i < runs(da@).len() ==> #[trigger] runs(da@)[i].start < runs(da@)[i].end <= da@.len(),
            j <= dsplits@.len(),
            matching_run(da@, runs(da@), date, 0) == matching_run(da@, runs(da@), date, j as int),
        decreases dsplits@.len() - j,
    {
        let s: usize = dsplits[j].start;
        if da[s] == date {
            return Some(Range { start: dsplits[j].start, end: dsplits[j].end });
        }
        j = j + 1;
    }
    None
}

/// Places amendment `k` of a loan on the loan's grid.
fn plan_segment(
    pa: &[i32],
    pd: &[i32],
    da: &[i32],
    dd: &[i32],
    psplits: &Vec<Range<usize>>,
    dsplits: &Vec<Range<usize>>,
    k: usize,
    grid: usize,
) -> (segment: Option<Segment>)
    requires
        pa@.len() == pd@.len(),
        pa@.len() >= 1,
        da@.len() == dd@.len(),
        da@.len() >= 1,
        psplits@ == runs(pa@),
        dsplits@ == runs(da@),
        k < psplits@.len(),
        grid <= i32::MAX,
    ensures
        match segment_of(pa@, pd@, da@, dd@, k as int, grid as int, dd@[0]) {
            Some(v) => segment matches Some(s) && s@ == v,
            None => segment is None,
        },
{
    proof {
        assert(pa.len() == pa@.len());
        assert(da.len() == da@.len());
        lemma_run_in_bounds(pa@, k as int);
        if k + 1 < psplits@.len() {
            lemma_run_in_bounds(pa@, k + 1);
        }
        lemma_run_in_bounds(da@, 0);
    }
    let ps_start: usize = psplits[k].start;
    let ps_end: usize = psplits[k].end;
    let amendment: i32 = pa[ps_start];
    let run: Option<Range<usize>> = if k == 0 {
        Some(Range { start: dsplits[0].start, end: dsplits[0].end })
    } else {
        find_matching_run(da, dsplits, amendment)
    };
    proof {
        if k != 0 {
            lemma_matching_run_in(da@, runs(da@), amendment, 0);
            if run is Some {
                let r = run->Some_0;
                let j = choose|j: int| 0 <= j < runs(da@).len() && runs(da@)[j] == r;
                lemma_run_in_bounds(da@, j);
            }
        }
    }
    let synthetic: Vec<i32> = vec![amendment];
    let ddates: &[i32] = match &run {
        Some(r) => &dd[r.start..r.end],
        None => synthetic.as_slice(),
    };
    assert(ddates@ == crate::plan::segment_disbursement_dates(dd@, run, amendment));
    let start: i32 = ddates[0];
    let cutoff: i32 = if k < psplits.len() - 1 {
        pa[psplits[k + 1].start]
    } else {
        pd[ps_end - 1]
    };
    let offset: usize = if k == 0 {
        if grid == 0 {
            return None;
        }
        0
    } else {
        let o: i64 = amendment as i64 - dd[0] as i64;
        if o < 0 || o >= grid as i64 {
            return None;
        }
        o as usize
    };
    let window: usize = match window_capacity(start, cutoff) {
        Some(w) => w,
        None => {
            return None;
        },
    };
    if window > grid - offset {
        return None;
    }
    let payment_slots = match padding_slots(&pd[ps_start..ps_end], start, window) {
        Some(v) => v,
        None => {
            return None;
        },
    };
    let disbursement_slots = match padding_slots(ddates, start, window) {
        Some(v) => v,
        None => {
            return None;
        },
    };
    Some(
        Segment {
            payments: Range { start: ps_start, end: ps_end },
            disbursements: run,
            start_date: start,
            cutoff,
            offset,
            window,
            opening_date: if k == 0 { 0 } else { amendment },
            payment_slots,
            disbursement_slots,
        },
    )
}

/// A matching run is one of the runs.
proof fn lemma_matching_run_in(da: Seq<i32>, druns: Seq<Range<usize>>, date: i32, k: int)
    requires
        0 <= k,
    ensures
        matching_run(da, druns, date, k) matches Some(r) ==> exists|j: int|
            k <= j < druns.len() && druns[j] == r,
    decreases druns.len() - k,
{
    if k < druns.len() && da[druns[k].start as int] != date {
        lemma_matching_run_in(da, druns, date, k + 1);
    }
}

/// Plans the schedule of one loan from its payment amendment dates, payment
/// dates, disbursement amendment dates and disbursement dates: the daily grid
/// from the first disbursement through the last payment, and each amendment
/// with its disbursements, its window on the grid and the grid slots of its
/// transactions. `None` when the grid or an amendment cannot be placed.
pub fn plan_loan(pa: &[i32], pd: &[i32], da: &[i32], dd: &[i32]) -> (plan: Option<LoanPlan>)
    requires
        pa@.len() == pd@.len(),
        pa@.len() >= 1,
        da@.len() == dd@.len(),
        da@.len() >= 1,
    ensures
        match loan_plan(pa@, pd@, da@, dd@) {
            Some(v) => plan matches Some(p) && p@ == v,
            None => plan is None,
        },
{
    let psplits = match get_amendment_splits(pa) {
        Ok(v) => v,
        Err(_) => {
            return None;
        },
    };
    let dsplits = match get_amendment_splits(da) {
        Ok(v) => v,
        Err(_) => {
            return None;
        },
    };
    let first: i32 = dd[0];
    let last: i32 = pd[pd.len() - 1];
    let g: i64 = last as i64 - first as i64;
    if g < i32::MIN as i64 || g + 1 > i32::MAX as i64 || g + 1 < 0 {
        return None;
    }
    let grid: usize = (g + 1) as usize;
    let ghost n = runs(pa@).len();
    let mut segments: Vec<Segment> = Vec::new();
    let mut k: usize = 0;
    while k < psplits.len()
        invariant
            pa@.len() == pd@.len(),
            pa@.len() >= 1,
            da@.len() == dd@.len(),
            da@.len() >= 1,
            psplits@ == runs(pa@),
            dsplits@ == runs(da@),
            grid_span(pd@, dd@) == Some(grid as int),
            grid <= i32::MAX,
            first == dd@[0],
            k <= psplits@.len(),
            segments@.len() == k,
            forall|j: int|
                0 <= j < k ==> (#[trigger] segment_of(pa@, pd@, da@, dd@, j, grid as int, first) matches Some(
                    v,
                ) && segments@[j]@ == v),
        decreases psplits@.len() - k,
    {
        match plan_segment(pa, pd, da, dd, &psplits, &dsplits, k, grid) {
            Some(s) => {
                segments.push(s);
            },
            None => {
                return None;
            },
        }
        k = k + 1;
    }
    let plan = LoanPlan { grid_days: grid, first_date: first, segments };
    assert(plan@.segments =~= Seq::new(
        n,
        |j: int| segment_of(pa@, pd@, da@, dd@, j, grid as int, first)->Some_0,
    ));
    Some(plan)
}

} // verus!

verus! {

/// Law: a loan plan has one segment per payment amendment, holding that
/// amendment's payment rows; the first segment opens the grid with nothing,
/// every later one opens on its amendment date, which is its grid offset
/// from the first disbursement; each window ends on the day the next
/// amendment opens; and every placed payment and disbursement lands inside
/// both its window and the grid, at its distance from the window's start.
pub proof fn lemma_plan_stays_on_grid(pa: Seq<i32>, pd: Seq<i32>, da: Seq<i32>, dd: Seq<i32>)
    requires
        pa.len() == pd.len(),
        1 <= pa.len() <= usize::MAX,
        da.len() == dd.len(),
        1 <= da.len() <= usize::MAX,
    ensures
        loan_plan(pa, pd, da, dd) matches Some(p) ==> {
            &&& p.segments.len() == runs(pa).len()
            &&& p.first_date == dd[0]
            &&& p.segments[0].offset == 0
            &&& p.segments[0].opening_date == 0
            &&& forall|k: int|
                0 <= k < p.segments.len() ==> (#[trigger] p.segments[k]).payments == runs(pa)[k]
                    && p.segments[k].offset + p.segments[k].window <= p.grid_days
            &&& forall|k: int|
                0 < k < p.segments.len() ==> p.first_date + (#[trigger] p.segments[k]).offset
                    == p.segments[k].opening_date
            &&& forall|k: int|
                0 <= k < p.segments.len() - 1 ==> (#[trigger] p.segments[k]).cutoff == p.segments[k
                    + 1].opening_date
            &&& forall|k: int, j: int|
                0 <= k < p.segments.len() && 0 <= j < p.segments[k].payment_slots.len() ==> {
                    &&& #[trigger] p.segments[k].payment_slots[j] < p.segments[k].window
                    &&& p.segments[k].offset + p.segments[k].payment_slots[j] < p.grid_days
                    &&& p.segments[k].payment_slots[j] == pd[p.segments[k].payments.start + j]
                        - p.segments[k].start_date
                }
            &&& forall|k: int, j: int|
                0 <= k < p.segments.len() && 0 <= j < p.segments[k].disbursement_slots.len() ==> {
                    &&& #[trigger] p.segments[k].disbursement_slots[j] < p.segments[k].window
                    &&& p.segments[k].offset + p.segments[k].disbursement_slots[j] < p.grid_days
                }
            &&& p.grid_days == pd[pd.len() - 1] - dd[0] + 1
            &&& forall|k: int|
                0 <= k < p.segments.len() ==> {
                    let s = #[trigger] p.segments[k];
                    &&& s.window == s.cutoff - s.start_date + 1
                    &&& (k > 0 ==> s.opening_date == pa[s.payments.start as int])
                    &&& (k == p.segments.len() - 1 ==> s.cutoff == pd[s.payments.end - 1])
                    &&& s.payment_slots.len() <= s.payments.end - s.payments.start
                    &&& (s.payment_slots.len() < s.payments.end - s.payments.start ==> !(0 <= pd[s.payments.start
                        + s.payment_slots.len()] - s.start_date < s.window))
                }
        },
{
    if let Some(p) = loan_plan(pa, pd, da, dd) {
        let grid = grid_span(pd, dd)->Some_0;
        let n = runs(pa).len();
        assert forall|k: int| 0 <= k < n implies #[trigger] segment_of(pa, pd, da, dd, k, grid, dd[0]) is Some by {}
        assert forall|k: int| 0 <= k < n implies p.segments[k] == #[trigger] segment_of(pa, pd, da, dd, k, grid, dd[0])->Some_0 by {}
        assert(segment_of(pa, pd, da, dd, 0, grid, dd[0]) is Some);
        assert forall|k: int, j: int|
            0 <= k < p.segments.len() && 0 <= j < p.segments[k].payment_slots.len() implies {
                &&& #[trigger] p.segments[k].payment_slots[j] < p.segments[k].window
                &&& p.segments[k].offset + p.segments[k].payment_slots[j] < p.grid_days
                &&& p.segments[k].payment_slots[j] == pd[p.segments[k].payments.start + j]
                    - p.segments[k].start_date
            } by {
            let s = segment_of(pa, pd, da, dd, k, grid, dd[0]);
            assert(s is Some);
            let ps = runs(pa)[k];
            lemma_run_in_bounds(pa, k);
            let pdates = pd.subrange(ps.start as int, ps.end as int);
            lemma_window_slots(pdates, p.segments[k].start_date, p.segments[k].window as int);
            assert(pdates[j] == pd[ps.start + j]);
        }
        assert forall|k: int| 0 <= k < p.segments.len() implies {
            let s = #[trigger] p.segments[k];
            &&& s.window == s.cutoff - s.start_date + 1
            &&& (k > 0 ==> s.opening_date == pa[s.payments.start as int])
            &&& (k == p.segments.len() - 1 ==> s.cutoff == pd[s.payments.end - 1])
            &&& s.payment_slots.len() <= s.payments.end - s.payments.start
            &&& (s.payment_slots.len() < s.payments.end - s.payments.start ==> !(0 <= pd[s.payments.start
                + s.payment_slots.len()] - s.start_date < s.window))
        } by {
            assert(segment_of(pa, pd, da, dd, k, grid, dd[0]) is Some);
            let ps = runs(pa)[k];
            lemma_run_in_bounds(pa, k);
            let pdates = pd.subrange(ps.start as int, ps.end as int);
            let s = p.segments[k];
            lemma_window_slots(pdates, s.start_date, s.window as int);
            if s.payment_slots.len() < ps.end - ps.start {
                assert(pdates[s.payment_slots.len() as int] == pd[ps.start + s.payment_slots.len()]);
            }
        }
        assert forall|k: int, j: int|
            0 <= k < p.segments.len() && 0 <= j < p.segments[k].disbursement_slots.len() implies {
                &&& #[trigger] p.segments[k].disbursement_slots[j] < p.segments[k].window
                &&& p.segments[k].offset + p.segments[k].disbursement_slots[j] < p.grid_days
            } by {
            let s = segment_of(pa, pd, da, dd, k, grid, dd[0]);
            assert(s is Some);
            let ps = runs(pa)[k];
            let amendment = pa[ps.start as int];
            let druns = runs(da);
            let run = if k == 0 { Some(druns[0]) } else { matching_run(da, druns, amendment, 0) };
            let ddates = segment_disbursement_dates(dd, run, amendment);
            lemma_window_slots(ddates, p.segments[k].start_date, p.segments[k].window as int);
        }
    }
}

} // verus!

verus! {

proof fn lemma_matching_run_first(da: Seq<i32>, date: i32, k: int)
    requires
        1 <= da.len() <= usize::MAX,
        0 <= k,
    ensures
        match matching_run(da, runs(da), date, k) {
            Some(r) => exists|m: int|
                k <= m < runs(da).len() && #[trigger] runs(da)[m] == r && da[r.start as int] == date
                    && forall|q: int| k <= q < m ==> da[#[trigger] runs(da)[q].start as int] != date,
            None => forall|q: int| k <= q < runs(da).len() ==> da[#[trigger] runs(da)[q].start as int] != date,
        },
    decreases runs(da).len() - k,
{
    let dr = runs(da);
    if k < dr.len() {
        lemma_matching_run_first(da, date, k + 1);
        if da[dr[k].start as int] != date {
            if let Some(r) = matching_run(da, dr, date, k + 1) {
                let m = choose|m: int|
                    k + 1 <= m < dr.len() && #[trigger] dr[m] == r && da[r.start as int] == date
                        && forall|q: int| k + 1 <= q < m ==> da[#[trigger] dr[q].start as int] != date;
                assert(forall|q: int| k <= q < m ==> da[#[trigger] dr[q].start as int] != date);
            }
        }
    }
}

/// The run that an amendment takes is the first place where its date occurs
/// among the disbursement amendment dates; there is none exactly when the
/// date does not occur.
proof fn lemma_matching_run_rows(da: Seq<i32>, date: i32)
    requires
        1 <= da.len() <= usize::MAX,
    ensures
        match matching_run(da, runs(da), date, 0) {
            Some(r) => (exists|m: int| 0 <= m < runs(da).len() && #[trigger] runs(da)[m] == r)
                && da[r.start as int] == date && forall|j: int| 0 <= j < r.start ==> #[trigger] da[j] != date,
            None => forall|j: int| 0 <= j < da.len() ==> #[trigger] da[j] != date,
        },
{
    lemma_matching_run_first(da, date, 0);
    let dr = runs(da);
    lemma_runs_partition(da);
    match matching_run(da, dr, date, 0) {
        Some(r) => {
            let m = choose|m: int|
                0 <= m < dr.len() && #[trigger] dr[m] == r && da[r.start as int] == date
                    && forall|q: int| 0 <= q < m ==> da[#[trigger] dr[q].start as int] != date;
            assert forall|j: int| 0 <= j < r.start implies #[trigger] da[j] != date by {
                lemma_run_is_maximal(da, m);
                lemma_position_in_run(da, m, j);
                let q = choose|q: int| 0 <= q <= m && dr[q].start <= j < #[trigger] dr[q].end;
                lemma_run_is_maximal(da, q);
                assert(q != m);
                assert(da[j] == da[dr[q].start as int]);
            }
        },
        None => {
            assert forall|j: int| 0 <= j < da.len() implies #[trigger] da[j] != date by {
                let last = dr.len() - 1;
                lemma_position_in_run(da, last, j);
                let q = choose|q: int| 0 <= q <= last && dr[q].start <= j < #[trigger] dr[q].end;
                lemma_run_is_maximal(da, q);
                assert(da[j] == da[dr[q].start as int]);
            }
        },
    }
}

} // verus!

verus! {

/// Segment `k` of a loan with payment amendment dates `pa`, disbursement
/// amendment dates `da` and disbursement dates `dd` takes the disbursements of
/// its amendment: a whole maximal block of rows that share one disbursement
/// amendment date (the first rows for the first segment; for a later one, the
/// first rows dated with its amendment date, or a single zero disbursement on
/// that date when no row has it), starts its window on the first of them, and
/// places them at their distances from that start, stopping only at the end
/// of the block or at the first disbursement outside the window.
pub open spec fn segment_takes_its_disbursements(
    pa: Seq<i32>,
    da: Seq<i32>,
    dd: Seq<i32>,
    s: SegmentView,
    k: int,
) -> bool {
    let amendment = pa[s.payments.start as int];
    let slots = s.disbursement_slots;
    match s.disbursements {
        Some(r) => {
            &&& r.start < r.end <= da.len()
            &&& forall|j: int| r.start <= j < r.end ==> #[trigger] da[j] == da[r.start as int]
            &&& (r.start == 0 || da[r.start - 1] != da[r.start as int])
            &&& (r.end == da.len() || da[r.end - 1] != da[r.end as int])
            &&& (k == 0 ==> r.start == 0)
            &&& (k > 0 ==> da[r.start as int] == amendment && forall|j: int|
                0 <= j < r.start ==> #[trigger] da[j] != amendment)
            &&& s.start_date == dd[r.start as int]
            &&& slots.len() <= r.end - r.start
            &&& forall|j: int|
                0 <= j < slots.len() ==> #[trigger] slots[j] == dd[r.start + j] - s.start_date
            &&& (slots.len() < r.end - r.start ==> !(0 <= dd[r.start + slots.len()] - s.start_date
                < s.window))
        },
        None => {
            &&& k > 0
            &&& forall|j: int| 0 <= j < da.len() ==> #[trigger] da[j] != amendment
            &&& s.start_date == amendment
            &&& slots == (if s.window > 0 { seq![0usize] } else { Seq::<usize>::empty() })
        },
    }
}

/// Law: every segment of a loan plan takes the disbursements of its
/// amendment, as `segment_takes_its_disbursements` describes.
pub proof fn lemma_plan_disbursements(pa: Seq<i32>, pd: Seq<i32>, da: Seq<i32>, dd: Seq<i32>)
    requires
        pa.len() == pd.len(),
        1 <= pa.len() <= usize::MAX,
        da.len() == dd.len(),
        1 <= da.len() <= usize::MAX,
    ensures
        loan_plan(pa, pd, da, dd) matches Some(p) ==> forall|k: int|
            0 <= k < p.segments.len() ==> segment_takes_its_disbursements(
                pa,
                da,
                dd,
                #[trigger] p.segments[k],
                k,
            ),
{
    if let Some(p) = loan_plan(pa, pd, da, dd) {
        let grid = grid_span(pd, dd)->Some_0;
        let n = runs(pa).len();
        assert forall|k: int| 0 <= k < p.segments.len() implies segment_takes_its_disbursements(
            pa,
            da,
            dd,
            #[trigger] p.segments[k],
            k,
        ) by {
            assert(segment_of(pa, pd, da, dd, k, grid, dd[0]) is Some);
            let s = p.segments[k];
            assert(s == segment_of(pa, pd, da, dd, k, grid, dd[0])->Some_0);
            lemma_run_in_bounds(pa, k);
            let ps = runs(pa)[k];
            let amendment = pa[ps.start as int];
            let druns = runs(da);
            let run = if k == 0 { Some(druns[0]) } else { matching_run(da, druns, amendment, 0) };
            let ddates = segment_disbursement_dates(dd, run, amendment);
            assert(s.disbursements == run);
            assert(s.payments == ps);
            lemma_window_slots(ddates, s.start_date, s.window as int);
            assert(window_slots(ddates, s.start_date, s.window as int) == Some(s.disbursement_slots));
            if k == 0 {
                lemma_runs_partition(da);
                lemma_run_is_maximal(da, 0);
            } else {
                lemma_matching_run_rows(da, amendment);
                if let Some(r) = run {
                    let m = choose|m: int| 0 <= m < druns.len() && #[trigger] druns[m] == r;
                    lemma_run_is_maximal(da, m);
                }
            }
            match run {
                Some(r) => {
                    assert forall|j: int| 0 <= j < s.disbursement_slots.len() implies #[trigger] s.disbursement_slots[j]
                        == dd[r.start + j] - s.start_date by {
                        assert(ddates[j] == dd[r.start + j]);
                    }
                    if s.disbursement_slots.len() < r.end - r.start {
                        assert(ddates[s.disbursement_slots.len() as int] == dd[r.start + s.disbursement_slots.len()]);
                    }
                },
                None => {
                    assert(ddates == seq![amendment]);
                    assert(slots_from(ddates, s.start_date, s.window as int, 1) == Some(Seq::<usize>::empty()));
                    if s.window > 0 {
                        assert(seq![0usize] + Seq::<usize>::empty() =~= seq![0usize]);
                    }
                },
            }
        }
    }
}

} // verus!
