//! Day arithmetic of a daily schedule: window lengths, grid slots of dated
//! transactions, and day offsets from a reference date.

use vstd::prelude::*;

verus! {

/// `x` is a value of `i32`.
pub open spec fn fits_i32(x: int) -> bool {
    i32::MIN <= x <= i32::MAX
}

/// The number of days of a daily window that runs from `start_date` through
/// `cutoff`, both included: `cutoff - start_date + 1`, which is zero when the
/// cutoff is the day before the start. There is no such window when the cutoff
/// comes earlier still, or when the count does not fit in a `usize`.
pub open spec fn window_days(start_date: i32, cutoff: i32) -> Option<int> {
    let n = cutoff - start_date + 1;
    if 0 <= n <= usize::MAX {
        Some(n)
    } else {
        None
    }
}

/// Law: a window counts every day from its start through its cutoff, and
/// exists whenever that count is not negative and fits in a `usize`.
pub proof fn lemma_window_days(start_date: i32, cutoff: i32)
    ensures
        window_days(start_date, cutoff) matches Some(n) ==> n == cutoff - start_date + 1 && n >= 0,
        0 <= cutoff - start_date + 1 <= usize::MAX ==> window_days(start_date, cutoff) is Some,
{
}

/// The length of the daily window from `start_date` through `cutoff`.
pub fn window_capacity(start_date: i32, cutoff: i32) -> (days: Option<usize>)
    ensures
        match window_days(start_date, cutoff) {
            Some(n) => days matches Some(d) && d == n,
            None => days is None,
        },
{
    let span: i64 = cutoff as i64 - start_date as i64 + 1;
    if span < 0 || span as u64 > usize::MAX as u64 {
        None
    } else {
        Some(span as usize)
    }
}

/// Extends every outcome of `rest` with `front` in front.
pub open spec fn prepend(front: Seq<usize>, rest: Option<Seq<usize>>) -> Option<Seq<usize>> {
    match rest {
        Some(r) => Some(front + r),
        None => None,
    }
}

/// The grid slots of `dates[i..]` in a window of `window` days that starts on
/// `start`: each date's distance from the start, for the leading dates that
/// fall inside the window; the first date outside it ends the list. There is
/// no outcome when a distance that is reached does not fit in an `i32`.
pub open spec fn slots_from(dates: Seq<i32>, start: i32, window: int, i: int) -> Option<Seq<usize>>
    decreases dates.len() - i,
{
    if i < 0 || i >= dates.len() {
        Some(seq![])
    } else {
        let d = dates[i] - start;
        if !fits_i32(d) {
            None
        } else if 0 <= d < window {
            prepend(seq![d as usize], slots_from(dates, start, window, i + 1))
        } else {
            Some(seq![])
        }
    }
}

/// The grid slots that a window starting on `start` with `window` days gives
/// to the leading dates of `dates`.
pub open spec fn window_slots(dates: Seq<i32>, start: i32, window: int) -> Option<Seq<usize>> {
    slots_from(dates, start, window, 0)
}

proof fn lemma_prepend_assoc(a: Seq<usize>, x: usize, rest: Option<Seq<usize>>)
    ensures
        prepend(a, prepend(seq![x], rest)) == prepend(a.push(x), rest),
{
    if let Some(r) = rest {
        assert(a + (seq![x] + r) =~= a.push(x) + r);
    }
}

/// Places the leading dates of `dates` that fall in the window of `window`
/// days starting on `start_date` on that window's grid: slot `k` holds the
/// distance of `dates[k]` from the start. The first date outside the window
/// stops the placement; `None` when a distance that is reached overflows.
pub fn padding_slots(dates: &[i32], start_date: i32, window: usize) -> (slots: Option<Vec<usize>>)
    ensures
        match window_slots(dates@, start_date, window as int) {
            Some(s) => slots matches Some(v) && v@ == s,
            None => slots is None,
        },
{
    let mut acc: Vec<usize> = Vec::new();
    let mut i: usize = 0;
    while i < dates.len()
        invariant
            i <= dates@.len(),
            window_slots(dates@, start_date, window as int) == prepend(
                acc@,
                slots_from(dates@, start_date, window as int, i as int),
            ),
        decreases dates@.len() - i,
    {
        let d: i64 = dates[i] as i64 - start_date as i64;
        if d < i32::MIN as i64 || d > i32::MAX as i64 {
            return None;
        }
        if d < 0 || (d as u64) >= (window as u64) {
            assert(slots_from(dates@, start_date, window as int, i as int) == Some(Seq::<usize>::empty()));
            assert(acc@ + Seq::<usize>::empty() =~= acc@);
            return Some(acc);
        }
        proof {
            lemma_prepend_assoc(
                acc@,
                d as usize,
                slots_from(dates@, start_date, window as int, i + 1),
            );
        }
        acc.push(d as usize);
        i = i + 1;
    }
    assert(acc@ + Seq::<usize>::empty() =~= acc@);
    Some(acc)
}

/// The day offsets `date - ref_date - lag` of every date, computed in `i32`;
/// there is no outcome when one of the two subtractions, or the negation of
/// the result, leaves `i32`.
pub open spec fn offsets_defined(dates: Seq<i32>, ref_date: i32, lag: i32) -> bool {
    forall|j: int|
        0 <= j < dates.len() ==> {
            &&& fits_i32(#[trigger] dates[j] - ref_date)
            &&& fits_i32(dates[j] - ref_date - lag)
            &&& dates[j] - ref_date - lag != i32::MIN
        }
}

/// The number of days from `ref_date` (shifted by `lag`) to each date, the
/// exponents of the discount factors of the rate search.
pub fn day_offsets(dates: &[i32], ref_date: i32, lag: i32) -> (offsets: Option<Vec<i32>>)
    ensures
        offsets is Some <==> offsets_defined(dates@, ref_date, lag),
        offsets matches Some(v) ==> v@.len() == dates@.len() && forall|j: int|
            0 <= j < dates@.len() ==> #[trigger] v@[j] == dates@[j] - ref_date - lag,
{
    let mut out: Vec<i32> = Vec::new();
    let mut i: usize = 0;
    while i < dates.len()
        invariant
            i <= dates@.len(),
            out@.len() == i,
            forall|j: int| 0 <= j < i ==> #[trigger] out@[j] == dates@[j] - ref_date - lag,
            forall|j: int|
                0 <= j < i ==> {
                    &&& fits_i32(#[trigger] dates@[j] - ref_date)
                    &&& fits_i32(dates@[j] - ref_date - lag)
                    &&& dates@[j] - ref_date - lag != i32::MIN
                },
        decreases dates@.len() - i,
    {
        let first: i64 = dates[i] as i64 - ref_date as i64;
        if first < i32::MIN as i64 || first > i32::MAX as i64 {
            return None;
        }
        let t: i64 = first - lag as i64;
        if t <= i32::MIN as i64 || t > i32::MAX as i64 {
            return None;
        }
        out.push(t as i32);
        i = i + 1;
    }
    Some(out)
}

} // verus!

verus! {

proof fn lemma_slots_from(dates: Seq<i32>, start: i32, window: int, i: int)
    requires
        0 <= i <= dates.len(),
    ensures
        slots_from(dates, start, window, i) matches Some(v) ==> {
            &&& i + v.len() <= dates.len()
            &&& forall|j: int|
                0 <= j < v.len() ==> #[trigger] v[j] == dates[i + j] - start && v[j] < window
            &&& i + v.len() < dates.len() ==> !(0 <= dates[i + v.len()] - start < window)
        },
    decreases dates.len() - i,
{
    if i < dates.len() {
        lemma_slots_from(dates, start, window, i + 1);
        let d = dates[i] - start;
        if fits_i32(d) && 0 <= d < window {
            if let Some(rest) = slots_from(dates, start, window, i + 1) {
                let v = seq![d as usize] + rest;
                assert forall|j: int| 0 <= j < v.len() implies #[trigger] v[j] == dates[i + j] - start && v[j] < window by {
                    if j > 0 {
                        assert(v[j] == rest[j - 1]);
                        assert(i + j == (i + 1) + (j - 1));
                    }
                }
                assert(i + v.len() == (i + 1) + rest.len());
            }
        }
    }
}

/// Law: the slots that a window gives are the distances of the leading dates
/// from the window's start, each inside the window, and the placement stops
/// only at the end of the dates or at the first date outside the window.
pub proof fn lemma_window_slots(dates: Seq<i32>, start: i32, window: int)
    ensures
        window_slots(dates, start, window) matches Some(v) ==> {
            &&& v.len() <= dates.len()
            &&& forall|j: int|
                0 <= j < v.len() ==> #[trigger] v[j] == dates[j] - start && v[j] < window
            &&& v.len() < dates.len() ==> !(0 <= dates[v.len() as int] - start < window)
        },
{
    lemma_slots_from(dates, start, window, 0);
    if let Some(v) = window_slots(dates, start, window) {
        assert forall|j: int| 0 <= j < v.len() implies #[trigger] v[j] == dates[j] - start && v[j] < window by {
            assert(0 + j == j);
        }
    }
}

} // verus!
