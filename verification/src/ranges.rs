//! Splitting a table's rows into ranges: by loan, and a loan's rows by amendment.

use std::ops::Range;
use vstd::prelude::*;

use crate::errors::BorrowingError;

verus! {

/// The half-open ranges between consecutive entries of `bounds`:
/// `bounds[i]..bounds[i + 1]` for every `i`.
pub open spec fn windows_as_ranges(bounds: Seq<usize>) -> Seq<Range<usize>> {
    Seq::new(
        if bounds.len() == 0 { 0 } else { (bounds.len() - 1) as nat },
        |i: int| Range { start: bounds[i], end: bounds[i + 1] },
    )
}

/// The positions `j` in `1..n` where `s[j - 1]` and `s[j]` differ, in increasing order.
pub open spec fn change_points<T>(s: Seq<T>, n: int) -> Seq<usize>
    decreases n,
{
    if n <= 1 {
        seq![]
    } else {
        change_points(s, n - 1) + (if s[n - 2] != s[n - 1] {
            seq![(n - 1) as usize]
        } else {
            seq![]
        })
    }
}

/// The boundaries of the maximal runs of equal neighbours in `s`:
/// `0`, every change point, then `s.len()`.
pub open spec fn run_bounds<T>(s: Seq<T>) -> Seq<usize> {
    seq![0usize] + change_points(s, s.len() as int) + seq![s.len() as usize]
}

/// The maximal runs of equal neighbours in `s`, as ranges of positions.
pub open spec fn runs<T>(s: Seq<T>) -> Seq<Range<usize>> {
    windows_as_ranges(run_bounds(s))
}

/// What the identifiers hold, one character sequence per row.
pub open spec fn id_views(ids: Seq<String>) -> Seq<Seq<char>> {
    ids.map_values(|s: String| s@)
}

/// The change points below `n` lie in `1..n`, increase strictly, and are
/// exactly the positions where a value differs from its left neighbour.
proof fn lemma_change_points<T>(s: Seq<T>, n: int)
    requires
        0 <= n <= s.len(),
        s.len() <= usize::MAX,
    ensures
        forall|k: int|
            0 <= k < change_points(s, n).len() ==> 1 <= #[trigger] change_points(s, n)[k] < n,
        forall|a: int, b: int|
            0 <= a < b < change_points(s, n).len() ==> change_points(s, n)[a] < change_points(
                s,
                n,
            )[b],
        forall|j: int|
            #![trigger s[j]]
            1 <= j < n ==> (s[j - 1] != s[j] <==> exists|k: int|
                0 <= k < change_points(s, n).len() && #[trigger] change_points(s, n)[k] == j),
    decreases n,
{
    if n > 1 {
        lemma_change_points(s, n - 1);
        let prev = change_points(s, n - 1);
        let cur = change_points(s, n);
        assert forall|j: int| #![trigger s[j]] 1 <= j < n implies (s[j - 1] != s[j] <==> exists|k: int|
            0 <= k < cur.len() && #[trigger] cur[k] == j) by {
            if j < n - 1 {
                if s[j - 1] != s[j] {
                    let k = choose|k: int| 0 <= k < prev.len() && #[trigger] prev[k] == j;
                    assert(cur[k] == j);
                }
                if exists|k: int| 0 <= k < cur.len() && #[trigger] cur[k] == j {
                    let k = choose|k: int| 0 <= k < cur.len() && #[trigger] cur[k] == j;
                    assert(k < prev.len());
                    assert(prev[k] == j);
                }
            } else {
                if s[j - 1] != s[j] {
                    assert(cur[prev.len() as int] == j);
                }
                if exists|k: int| 0 <= k < cur.len() && #[trigger] cur[k] == j {
                    let k = choose|k: int| 0 <= k < cur.len() && #[trigger] cur[k] == j;
                    if k < prev.len() {
                        assert(prev[k] < n - 1);
                    }
                }
            }
        }
    }
}

/// The run boundaries start at `0`, end at the length, increase strictly, and
/// an inner position is a boundary exactly where its value differs from its
/// left neighbour.
pub proof fn lemma_run_bounds<T>(s: Seq<T>)
    requires
        1 <= s.len() <= usize::MAX,
    ensures
        run_bounds(s).len() >= 2,
        run_bounds(s)[0] == 0,
        run_bounds(s)[run_bounds(s).len() - 1] == s.len(),
        forall|a: int, b: int|
            0 <= a < b < run_bounds(s).len() ==> run_bounds(s)[a] < run_bounds(s)[b],
        forall|j: int|
            #![trigger s[j]]
            0 < j < s.len() ==> (s[j - 1] != s[j] <==> exists|k: int|
                0 <= k < run_bounds(s).len() && #[trigger] run_bounds(s)[k] == j),
{
    let n = s.len() as int;
    lemma_change_points(s, n);
    let cp = change_points(s, n);
    let b = run_bounds(s);
    assert(b.len() == cp.len() + 2);
    assert forall|k: int| 0 <= k < cp.len() implies b[k + 1] == cp[k] by {}
    assert forall|a: int, c: int| 0 <= a < c < b.len() implies b[a] < b[c] by {
        if a == 0 {
            if c < b.len() - 1 {
                assert(cp[c - 1] >= 1);
            }
        } else if c == b.len() - 1 {
            assert(cp[a - 1] < n);
        } else {
            assert(cp[a - 1] < cp[c - 1]);
        }
    }
    assert forall|j: int| #![trigger s[j]] 0 < j < n implies (s[j - 1] != s[j] <==> exists|k: int|
        0 <= k < b.len() && #[trigger] b[k] == j) by {
        if s[j - 1] != s[j] {
            let k = choose|k: int| 0 <= k < cp.len() && #[trigger] cp[k] == j;
            assert(b[k + 1] == j);
        }
        if exists|k: int| 0 <= k < b.len() && #[trigger] b[k] == j {
            let k = choose|k: int| 0 <= k < b.len() && #[trigger] b[k] == j;
            assert(0 < k < b.len() - 1);
            assert(cp[k - 1] == j);
        }
    }
}

/// Inside one run every value equals the run's first value.
proof fn lemma_run_constant<T>(s: Seq<T>, i: int, j: int)
    requires
        1 <= s.len() <= usize::MAX,
        0 <= i < run_bounds(s).len() - 1,
        run_bounds(s)[i] <= j < run_bounds(s)[i + 1],
    ensures
        s[j] == s[run_bounds(s)[i] as int],
    decreases j,
{
    lemma_run_bounds(s);
    let b = run_bounds(s);
    if j > b[i] {
        lemma_run_constant(s, i, j - 1);
        if s[j - 1] != s[j] {
            let k = choose|k: int| 0 <= k < b.len() && #[trigger] b[k] == j;
            if k <= i {
                if k < i {
                    assert(b[k] < b[i]);
                }
            } else if k >= i + 1 {
                if k > i + 1 {
                    assert(b[i + 1] < b[k]);
                }
            }
        }
    }
}

/// Law: the runs of a non-empty sequence partition its positions into
/// consecutive, non-empty ranges; the values inside one range are all equal,
/// and the values on the two sides of a border differ.
pub proof fn lemma_runs_partition<T>(s: Seq<T>)
    requires
        1 <= s.len() <= usize::MAX,
    ensures
        runs(s).len() >= 1,
        runs(s)[0].start == 0,
        runs(s)[runs(s).len() - 1].end == s.len(),
        forall|i: int| 0 <= i < runs(s).len() ==> #[trigger] runs(s)[i].start < runs(s)[i].end,
        forall|i: int| 0 <= i < runs(s).len() ==> #[trigger] runs(s)[i].end <= s.len(),
        forall|i: int| 0 <= i < runs(s).len() - 1 ==> #[trigger] runs(s)[i].end == runs(s)[i + 1].start,
        forall|i: int, j: int|
            0 <= i < runs(s).len() && runs(s)[i].start <= j < runs(s)[i].end ==> #[trigger] s[j]
                == #[trigger] s[runs(s)[i].start as int],
        forall|i: int|
            0 <= i < runs(s).len() - 1 ==> s[#[trigger] runs(s)[i].end - 1] != s[runs(s)[i].end as int],
{
    lemma_run_bounds(s);
    let b = run_bounds(s);
    let r = runs(s);
    assert forall|i: int| 0 <= i < r.len() implies #[trigger] r[i].end <= s.len() by {
        if i + 1 < b.len() - 1 {
            assert(b[i + 1] < b[b.len() - 1]);
        }
    }
    assert forall|i: int, j: int|
        0 <= i < r.len() && r[i].start <= j < r[i].end implies #[trigger] s[j]
            == #[trigger] s[r[i].start as int] by {
        lemma_run_constant(s, i, j);
    }
    assert forall|i: int| 0 <= i < r.len() - 1 implies s[#[trigger] r[i].end - 1] != s[r[i].end as int] by {
        let j = b[i + 1] as int;
        assert(0 < j < s.len()) by {
            assert(b[0] < b[i + 1]);
            assert(b[i + 1] < b[b.len() - 1]);
        }
        assert(b[i + 1] == j);
    }
}

/// Run `i` of a non-empty sequence is a non-empty range of its positions.
pub proof fn lemma_run_in_bounds<T>(s: Seq<T>, i: int)
    requires
        1 <= s.len() <= usize::MAX,
        0 <= i < runs(s).len(),
    ensures
        runs(s)[i].start < runs(s)[i].end <= s.len(),
{
    lemma_runs_partition(s);
}

/// Law: run `m` of a non-empty sequence is a maximal block of equal values:
/// its values all equal its first one, and the values just outside it on
/// either side (where there are any) differ from it.
pub proof fn lemma_run_is_maximal<T>(s: Seq<T>, m: int)
    requires
        1 <= s.len() <= usize::MAX,
        0 <= m < runs(s).len(),
    ensures
        runs(s)[m].start < runs(s)[m].end <= s.len(),
        forall|j: int| runs(s)[m].start <= j < runs(s)[m].end ==> #[trigger] s[j] == s[runs(s)[m].start as int],
        runs(s)[m].start == 0 || s[runs(s)[m].start - 1] != s[runs(s)[m].start as int],
        runs(s)[m].end == s.len() || s[runs(s)[m].end - 1] != s[runs(s)[m].end as int],
{
    lemma_runs_partition(s);
    let r = runs(s);
    assert forall|j: int| r[m].start <= j < r[m].end implies #[trigger] s[j] == s[r[m].start as int] by {
        assert(s[j] == s[r[m].start as int]);
    }
    if m > 0 {
        assert(r[m - 1].end == r[m].start);
    }
    if m < r.len() - 1 {
        assert(r[m].end == r[m + 1].start);
    }
}

/// Every position of a non-empty sequence lies in one of the first `m + 1`
/// runs when it comes before the end of run `m`.
pub proof fn lemma_position_in_run<T>(s: Seq<T>, m: int, j: int)
    requires
        1 <= s.len() <= usize::MAX,
        0 <= m < runs(s).len(),
        0 <= j < runs(s)[m].end,
    ensures
        exists|q: int| 0 <= q <= m && runs(s)[q].start <= j < #[trigger] runs(s)[q].end,
    decreases m,
{
    lemma_runs_partition(s);
    let r = runs(s);
    if j < r[m].start {
        assert(m > 0);
        assert(r[m - 1].end == r[m].start);
        lemma_position_in_run(s, m - 1, j);
        let q = choose|q: int| 0 <= q <= m - 1 && r[q].start <= j < #[trigger] r[q].end;
        assert(0 <= q <= m && r[q].start <= j < r[q].end);
    } else {
        assert(r[m].start <= j < r[m].end);
    }
}

/// Every run of a non-empty sequence is a non-empty range of its positions.
pub proof fn lemma_runs_in_bounds<T>(s: Seq<T>)
    requires
        1 <= s.len() <= usize::MAX,
    ensures
        forall|i: int| 0 <= i < runs(s).len() ==> #[trigger] runs(s)[i].start < runs(s)[i].end <= s.len(),
{
    lemma_runs_partition(s);
}

/// Law: the ranges between neighbours of `bounds` are one fewer than the
/// bounds (none for an empty list), and range `i` runs from `bounds[i]` up to
/// `bounds[i + 1]`.
pub proof fn lemma_windows_as_ranges(bounds: Seq<usize>)
    ensures
        windows_as_ranges(bounds).len() == (if bounds.len() == 0 { 0 } else { bounds.len() - 1 }),
        forall|i: int|
            0 <= i < windows_as_ranges(bounds).len() ==> (#[trigger] windows_as_ranges(bounds)[i]).start
                == bounds[i] && windows_as_ranges(bounds)[i].end == bounds[i + 1],
{
}

/// Turns an ordered list of boundaries into the ranges between neighbours.
pub fn usize_to_range(usizes: Vec<usize>) -> (ranges: Vec<Range<usize>>)
    ensures
        ranges@ == windows_as_ranges(usizes@),
{
    let mut ranges: Vec<Range<usize>> = Vec::new();
    if usizes.len() == 0 {
        return ranges;
    }
    let n: usize = usizes.len() - 1;
    let mut i: usize = 0;
    while i < n
        invariant
            n + 1 == usizes.len(),
            i <= n,
            ranges@.len() == i,
            forall|j: int|
                0 <= j < i ==> ranges@[j] == (Range { start: usizes@[j], end: usizes@[j + 1] }),
        decreases n - i,
    {
        ranges.push(Range { start: usizes[i], end: usizes[i + 1] });
        i = i + 1;
    }
    assert(ranges@ =~= windows_as_ranges(usizes@));
    ranges
}

/// Splits a loan's amendment dates into the ranges of rows that share one
/// amendment: the maximal runs of equal neighbouring dates.
pub fn get_amendment_splits(dates: &[i32]) -> (splits: Result<Vec<Range<usize>>, BorrowingError>)
    requires
        dates@.len() >= 1,
    ensures
        splits matches Ok(v) && v@ == runs(dates@),
{
    let n: usize = dates.len() - 1;
    let mut bounds: Vec<usize> = Vec::new();
    bounds.push(0);
    let mut i: usize = 0;
    while i < n
        invariant
            n + 1 == dates@.len(),
            i <= n,
            bounds@ == seq![0usize] + change_points(dates@, i + 1),
        decreases n - i,
    {
        if dates[i] != dates[i + 1] {
            bounds.push(i + 1);
        }
        i = i + 1;
        assert(bounds@ =~= seq![0usize] + change_points(dates@, i + 1));
    }
    bounds.push(dates.len());
    assert(bounds@ =~= run_bounds(dates@));
    Ok(usize_to_range(bounds))
}

/// Splits the rows of a table into the ranges of rows that belong to one
/// loan: the maximal runs of equal neighbouring loan identifiers.
/// `len` is the number of ranges expected and only sizes the first allocation.
pub fn create_ranges(ids: &[String], len: usize) -> (ranges: Result<Vec<Range<usize>>, BorrowingError>)
    requires
        ids@.len() >= 1,
    ensures
        ranges matches Ok(v) && v@ == runs(id_views(ids@)),
{
    let ghost views = id_views(ids@);
    let n: usize = ids.len() - 1;
    let mut bounds: Vec<usize> = Vec::with_capacity(len);
    bounds.push(0);
    let mut i: usize = 0;
    while i < n
        invariant
            n + 1 == ids@.len(),
            views == id_views(ids@),
            i <= n,
            bounds@ == seq![0usize] + change_points(views, i + 1),
        decreases n - i,
    {
        let same: bool = ids[i] == ids[i + 1];
        if !same {
            bounds.push(i + 1);
        }
        i = i + 1;
        assert(bounds@ =~= seq![0usize] + change_points(views, i + 1));
    }
    bounds.push(ids.len());
    assert(bounds@ =~= run_bounds(views));
    Ok(usize_to_range(bounds))
}

} // verus!
