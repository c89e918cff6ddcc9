//! Relational steps on loan identifiers: distinct identifiers, semi joins,
//! and the first row of each loan.

use vstd::prelude::*;

use crate::ranges::{change_points, id_views, lemma_runs_partition, run_bounds, runs};

verus! {

/// The rows among the first `n` whose identifier occurs in `other`, in order.
pub open spec fn rows_in(ids: Seq<Seq<char>>, other: Seq<Seq<char>>, n: int) -> Seq<usize>
    decreases n,
{
    if n <= 0 {
        seq![]
    } else {
        rows_in(ids, other, n - 1) + (if other.contains(ids[n - 1]) {
            seq![(n - 1) as usize]
        } else {
            seq![]
        })
    }
}

/// The rows of a table whose identifier occurs in `other`, in table order:
/// what a semi join on the identifier keeps.
pub open spec fn semi_join_rows(ids: Seq<Seq<char>>, other: Seq<Seq<char>>) -> Seq<usize> {
    rows_in(ids, other, ids.len() as int)
}

/// The first row of each distinct value among the first `n`, in order.
pub open spec fn first_rows_upto(s: Seq<Seq<char>>, n: int) -> Seq<usize>
    decreases n,
{
    if n <= 0 {
        seq![]
    } else {
        first_rows_upto(s, n - 1) + (if s.take(n - 1).contains(s[n - 1]) {
            seq![]
        } else {
            seq![(n - 1) as usize]
        })
    }
}

/// The row where each distinct value of `s` first appears, in order of
/// first appearance: the groups of a stable group-by on `s`.
pub open spec fn first_rows(s: Seq<Seq<char>>) -> Seq<usize> {
    first_rows_upto(s, s.len() as int)
}

/// Every earlier value has its first row listed; the listed rows are in range
/// and hold values that occur among the first `n`.
pub proof fn lemma_first_rows_cover(s: Seq<Seq<char>>, n: int)
    requires
        0 <= n <= s.len(),
        s.len() <= usize::MAX,
    ensures
        forall|k: int|
            0 <= k < first_rows_upto(s, n).len() ==> #[trigger] first_rows_upto(s, n)[k] < n,
        forall|j: int|
            0 <= j < n ==> exists|k: int|
                0 <= k < first_rows_upto(s, n).len() && s[#[trigger] first_rows_upto(s, n)[k] as int]
                    == #[trigger] s[j],
        forall|a: int, b: int|
            0 <= a < b < first_rows_upto(s, n).len() ==> s[first_rows_upto(s, n)[a] as int] != s[first_rows_upto(
                s,
                n,
            )[b] as int],
        forall|a: int, b: int|
            0 <= a < b < first_rows_upto(s, n).len() ==> first_rows_upto(s, n)[a] < first_rows_upto(s, n)[b],
        forall|k: int, j: int|
            #![trigger s[j], first_rows_upto(s, n)[k]]
            0 <= k < first_rows_upto(s, n).len() && 0 <= j < first_rows_upto(s, n)[k] ==> s[j]
                != s[first_rows_upto(s, n)[k] as int],
    decreases n,
{
    if n > 0 {
        lemma_first_rows_cover(s, n - 1);
        let prev = first_rows_upto(s, n - 1);
        let cur = first_rows_upto(s, n);
        assert forall|k: int| 0 <= k < prev.len() implies cur[k] == prev[k] by {}
        if s.take(n - 1).contains(s[n - 1]) {
            assert(cur =~= prev);
            let i = choose|i: int| 0 <= i < n - 1 && #[trigger] s.take(n - 1)[i] == s[n - 1];
            assert(s[i] == s[n - 1]);
            assert forall|j: int| 0 <= j < n implies exists|k: int|
                0 <= k < cur.len() && s[#[trigger] cur[k] as int] == #[trigger] s[j] by {
                if j == n - 1 {
                    let k = choose|k: int| 0 <= k < prev.len() && s[#[trigger] prev[k] as int] == #[trigger] s[i];
                    assert(s[cur[k] as int] == s[j]);
                }
            }
        } else {
            let last = cur.len() - 1;
            assert(cur[last] == n - 1);
            assert forall|j: int| 0 <= j < n implies exists|k: int|
                0 <= k < cur.len() && s[#[trigger] cur[k] as int] == #[trigger] s[j] by {
                if j == n - 1 {
                    assert(s[cur[last] as int] == s[j]);
                } else {
                    let k = choose|k: int| 0 <= k < prev.len() && s[#[trigger] prev[k] as int] == #[trigger] s[j];
                    assert(s[cur[k] as int] == s[j]);
                }
            }
            assert forall|a: int, b: int| 0 <= a < b < cur.len() implies s[cur[a] as int] != s[cur[b] as int] by {
                if b == last {
                    if s[cur[a] as int] == s[n - 1] {
                        assert(s.take(n - 1)[cur[a] as int] == s[n - 1]);
                    }
                }
            }
            assert forall|k: int, j: int|
                #![trigger s[j], cur[k]]
                0 <= k < cur.len() && 0 <= j < cur[k] implies s[j] != s[cur[k] as int] by {
                if k == last {
                    if s[j] == s[n - 1] {
                        assert(s.take(n - 1)[j] == s[n - 1]);
                    }
                }
            }
        }
    }
}

/// `ids[row]` occurs in `other`: a linear search.
fn occurs_in(ids: &[String], row: usize, other: &[String]) -> (found: bool)
    requires
        row < ids@.len(),
    ensures
        found == id_views(other@).contains(ids@[row as int]@),
{
    let ghost o = id_views(other@);
    let mut j: usize = 0;
    while j < other.len()
        invariant
            row < ids@.len(),
            o == id_views(other@),
            j <= other@.len(),
            forall|k: int| 0 <= k < j ==> o[k] != ids@[row as int]@,
        decreases other@.len() - j,
    {
        let same: bool = other[j] == ids[row];
        if same {
            assert(o[j as int] == ids@[row as int]@);
            return true;
        }
        j = j + 1;
    }
    false
}

/// The rows of a table whose loan identifier also occurs in `other`, in table
/// order: the rows that a semi join of the table with `other` keeps.
pub fn semi_joins(ids: &[String], other: &[String]) -> (rows: Vec<usize>)
    ensures
        rows@ == semi_join_rows(id_views(ids@), id_views(other@)),
{
    let ghost v = id_views(ids@);
    let ghost o = id_views(other@);
    let mut rows: Vec<usize> = Vec::new();
    let mut i: usize = 0;
    let mut last_kept: bool = false;
    while i < ids.len()
        invariant
            v == id_views(ids@),
            o == id_views(other@),
            i <= ids@.len(),
            rows@ == rows_in(v, o, i as int),
            i > 0 ==> last_kept == o.contains(v[i - 1]),
        decreases ids@.len() - i,
    {
        let kept: bool = if i > 0 && ids[i] == ids[i - 1] {
            last_kept
        } else {
            occurs_in(ids, i, other)
        };
        if kept {
            rows.push(i);
        }
        last_kept = kept;
        i = i + 1;
        assert(rows@ =~= rows_in(v, o, i as int));
    }
    rows
}

/// The rows where each loan identifier first appears, in order of first
/// appearance.
pub fn first_occurrences(ids: &[String]) -> (rows: Vec<usize>)
    ensures
        rows@ == first_rows(id_views(ids@)),
{
    let ghost v = id_views(ids@);
    let mut rows: Vec<usize> = Vec::new();
    let mut i: usize = 0;
    while i < ids.len()
        invariant
            v == id_views(ids@),
            i <= ids@.len(),
            rows@ == first_rows_upto(v, i as int),
        decreases ids@.len() - i,
    {
        proof {
            lemma_first_rows_cover(v, i as int);
        }
        let mut seen: bool = i > 0 && ids[i] == ids[i - 1];
        if seen {
            assert(v[i - 1] == v[i as int]);
            assert(v.take(i as int)[i - 1] == v[i as int]);
        }
        let mut k: usize = 0;
        while !seen && k < rows.len()
            invariant
                v == id_views(ids@),
                i < ids@.len(),
                rows@ == first_rows_upto(v, i as int),
                forall|m: int| 0 <= m < rows@.len() ==> #[trigger] rows@[m] < i,
                k <= rows@.len(),
                seen ==> v.take(i as int).contains(v[i as int]),
                !seen ==> forall|m: int| 0 <= m < k ==> v[#[trigger] rows@[m] as int] != v[i as int],
            decreases rows@.len() - k + (if seen { 0int } else { 1int }),
        {
            let r: usize = rows[k];
            let same: bool = ids[r] == ids[i];
            if same {
                assert(v.take(i as int)[r as int] == v[i as int]);
                seen = true;
            } else {
                k = k + 1;
            }
        }
        if !seen {
            assert(!v.take(i as int).contains(v[i as int])) by {
                if v.take(i as int).contains(v[i as int]) {
                    let j = choose|j: int| 0 <= j < i && #[trigger] v.take(i as int)[j] == v[i as int];
                    assert(v[j] == v[i as int]);
                    let m = choose|m: int| 0 <= m < rows@.len() && v[#[trigger] rows@[m] as int] == #[trigger] v[j];
                }
            }
            rows.push(i);
        }
        i = i + 1;
        assert(rows@ =~= first_rows_upto(v, i as int));
    }
    rows
}

/// The distinct loan identifiers of a table, in order of first appearance.
pub fn unique_loan_ids(ids: &[String]) -> (unique: Vec<String>)
    ensures
        id_views(unique@) == first_rows(id_views(ids@)).map_values(|r: usize| id_views(ids@)[r as int]),
{
    let rows = first_occurrences(ids);
    proof {
        assert(ids.len() == ids@.len());
        lemma_first_rows_cover(id_views(ids@), ids@.len() as int);
    }
    let mut unique: Vec<String> = Vec::new();
    let mut k: usize = 0;
    while k < rows.len()
        invariant
            rows@ == first_rows(id_views(ids@)),
            forall|m: int| 0 <= m < rows@.len() ==> #[trigger] rows@[m] < ids@.len(),
            k <= rows@.len(),
            unique@.len() == k,
            forall|m: int| 0 <= m < k ==> #[trigger] unique@[m]@ == ids@[rows@[m] as int]@,
        decreases rows@.len() - k,
    {
        unique.push(ids[rows[k]].clone());
        k = k + 1;
    }
    assert(id_views(unique@) =~= first_rows(id_views(ids@)).map_values(|r: usize| id_views(ids@)[r as int]));
    unique
}

/// Some row of `ids` has an identifier that also occurs in `other`.
pub open spec fn shares_an_id(ids: Seq<Seq<char>>, other: Seq<Seq<char>>) -> bool {
    exists|i: int| 0 <= i < ids.len() && other.contains(ids[i])
}

/// Whether the two tables have a loan identifier in common.
pub fn shares_a_loan(ids: &[String], other: &[String]) -> (shared: bool)
    ensures
        shared == shares_an_id(id_views(ids@), id_views(other@)),
{
    let ghost v = id_views(ids@);
    let ghost o = id_views(other@);
    let mut i: usize = 0;
    while i < ids.len()
        invariant
            v == id_views(ids@),
            o == id_views(other@),
            i <= ids@.len(),
            forall|j: int| 0 <= j < i ==> !o.contains(#[trigger] v[j]),
        decreases ids@.len() - i,
    {
        if occurs_in(ids, i, other) {
            assert(o.contains(v[i as int]));
            return true;
        }
        i = i + 1;
    }
    false
}

} // verus!

verus! {

/// The identifiers at the positions `rows`, in that order.
pub open spec fn gather_ids(col: Seq<Seq<char>>, rows: Seq<usize>) -> Seq<Seq<char>> {
    rows.map_values(|r: usize| col[r as int])
}

/// The distinct values of `s`, in order of first appearance.
pub open spec fn distinct_values(s: Seq<Seq<char>>) -> Seq<Seq<char>> {
    first_rows(s).map_values(|r: usize| s[r as int])
}

proof fn lemma_rows_in(ids: Seq<Seq<char>>, other: Seq<Seq<char>>, n: int)
    requires
        0 <= n <= ids.len(),
        ids.len() <= usize::MAX,
    ensures
        rows_in(ids, other, n).len() <= n,
        forall|k: int|
            0 <= k < rows_in(ids, other, n).len() ==> #[trigger] rows_in(ids, other, n)[k] < n
                && other.contains(ids[rows_in(ids, other, n)[k] as int]),
        forall|a: int, b: int|
            0 <= a < b < rows_in(ids, other, n).len() ==> rows_in(ids, other, n)[a] < rows_in(
                ids,
                other,
                n,
            )[b],
        forall|j: int|
            0 <= j < n && other.contains(#[trigger] ids[j]) ==> exists|k: int|
                0 <= k < rows_in(ids, other, n).len() && rows_in(ids, other, n)[k] == j,
    decreases n,
{
    if n > 0 {
        lemma_rows_in(ids, other, n - 1);
        let prev = rows_in(ids, other, n - 1);
        let cur = rows_in(ids, other, n);
        assert forall|k: int| 0 <= k < prev.len() implies cur[k] == prev[k] by {}
        assert forall|j: int| 0 <= j < n && other.contains(#[trigger] ids[j]) implies exists|k: int|
            0 <= k < cur.len() && cur[k] == j by {
            if j == n - 1 {
                assert(cur[prev.len() as int] == j);
            } else {
                let k = choose|k: int| 0 <= k < prev.len() && prev[k] == j;
                assert(cur[k] == j);
            }
        }
    }
}

/// Law: a semi join keeps, in table order, exactly the rows whose identifier
/// occurs in the other table.
pub proof fn lemma_semi_join_keeps_matching_rows(ids: Seq<Seq<char>>, other: Seq<Seq<char>>)
    requires
        ids.len() <= usize::MAX,
    ensures
        semi_join_rows(ids, other).len() <= ids.len(),
        forall|k: int|
            0 <= k < semi_join_rows(ids, other).len() ==> #[trigger] semi_join_rows(ids, other)[k]
                < ids.len() && other.contains(ids[semi_join_rows(ids, other)[k] as int]),
        forall|a: int, b: int|
            0 <= a < b < semi_join_rows(ids, other).len() ==> semi_join_rows(ids, other)[a]
                < semi_join_rows(ids, other)[b],
        forall|j: int|
            0 <= j < ids.len() && other.contains(#[trigger] ids[j]) ==> exists|k: int|
                0 <= k < semi_join_rows(ids, other).len() && semi_join_rows(ids, other)[k] == j,
{
    let n = ids.len() as int;
    lemma_rows_in(ids, other, n);
    let kept = semi_join_rows(ids, other);
    assert forall|j: int| 0 <= j < ids.len() && other.contains(#[trigger] ids[j]) implies exists|k: int|
        0 <= k < kept.len() && kept[k] == j by {
        let k = choose|k: int| 0 <= k < rows_in(ids, other, n).len() && rows_in(ids, other, n)[k] == j;
        assert(kept[k] == j);
    }
}

/// Law: the distinct identifiers of a table hold no value twice, and they
/// are exactly the identifiers that occur in the table.
pub proof fn lemma_distinct_values(s: Seq<Seq<char>>)
    requires
        s.len() <= usize::MAX,
    ensures
        forall|a: int, b: int|
            0 <= a < b < distinct_values(s).len() ==> distinct_values(s)[a] != distinct_values(s)[b],
        forall|x: Seq<char>| #[trigger] distinct_values(s).contains(x) <==> s.contains(x),
{
    lemma_first_rows_cover(s, s.len() as int);
    let r = first_rows(s);
    let d = distinct_values(s);
    assert forall|x: Seq<char>| #[trigger] d.contains(x) <==> s.contains(x) by {
        if d.contains(x) {
            let k = choose|k: int| 0 <= k < d.len() && d[k] == x;
            assert(s[r[k] as int] == x);
        }
        if s.contains(x) {
            let j = choose|j: int| 0 <= j < s.len() && s[j] == x;
            let k = choose|k: int| 0 <= k < r.len() && s[#[trigger] r[k] as int] == #[trigger] s[j];
            assert(d[k] == x);
        }
    }
}

/// Law: once each table is semi-joined with the distinct identifiers of the
/// other, both keep exactly the loans that occur in the two tables.
pub proof fn lemma_joined_tables_hold_common_loans(
    payments: Seq<Seq<char>>,
    disbursements: Seq<Seq<char>>,
    x: Seq<char>,
)
    requires
        payments.len() <= usize::MAX,
        disbursements.len() <= usize::MAX,
    ensures
        (exists|k: int|
            0 <= k < semi_join_rows(payments, distinct_values(disbursements)).len()
                && payments[#[trigger] semi_join_rows(payments, distinct_values(disbursements))[k] as int]
                == x) <==> (payments.contains(x) && disbursements.contains(x)),
        (exists|k: int|
            0 <= k < semi_join_rows(disbursements, distinct_values(payments)).len()
                && disbursements[#[trigger] semi_join_rows(disbursements, distinct_values(payments))[k] as int]
                == x) <==> (payments.contains(x) && disbursements.contains(x)),
{
    lemma_distinct_values(payments);
    lemma_distinct_values(disbursements);
    lemma_semi_join_keeps_matching_rows(payments, distinct_values(disbursements));
    lemma_semi_join_keeps_matching_rows(disbursements, distinct_values(payments));
    let dp = distinct_values(payments);
    let dd = distinct_values(disbursements);
    let kp = semi_join_rows(payments, dd);
    let kd = semi_join_rows(disbursements, dp);
    assert(dd.contains(x) <==> disbursements.contains(x));
    assert(dp.contains(x) <==> payments.contains(x));
    if payments.contains(x) && disbursements.contains(x) {
        let j = choose|j: int| 0 <= j < payments.len() && payments[j] == x;
        assert(dd.contains(payments[j]));
        let k = choose|k: int| 0 <= k < kp.len() && kp[k] == j;
        assert(payments[kp[k] as int] == x);
        let j2 = choose|j: int| 0 <= j < disbursements.len() && disbursements[j] == x;
        assert(dp.contains(disbursements[j2]));
        let k2 = choose|k: int| 0 <= k < kd.len() && kd[k] == j2;
        assert(disbursements[kd[k2] as int] == x);
    }
    if exists|k: int| 0 <= k < kp.len() && payments[#[trigger] kp[k] as int] == x {
        let k = choose|k: int| 0 <= k < kp.len() && payments[#[trigger] kp[k] as int] == x;
        assert(dd.contains(payments[kp[k] as int]));
        assert(payments.contains(x));
    }
    if exists|k: int| 0 <= k < kd.len() && disbursements[#[trigger] kd[k] as int] == x {
        let k = choose|k: int| 0 <= k < kd.len() && disbursements[#[trigger] kd[k] as int] == x;
        assert(dp.contains(disbursements[kd[k] as int]));
        assert(disbursements.contains(x));
    }
}

} // verus!

verus! {

/// Equal values of `s` stand next to each other: no other value comes
/// between two equal ones.
pub open spec fn grouped(s: Seq<Seq<char>>) -> bool {
    forall|a: int, b: int, c: int|
        0 <= a < b < c < s.len() && #[trigger] s[a] == #[trigger] s[c] ==> #[trigger] s[b] == s[a]
}

proof fn lemma_grouped_first_rows(s: Seq<Seq<char>>, n: int)
    requires
        grouped(s),
        1 <= n <= s.len(),
        s.len() <= usize::MAX,
    ensures
        first_rows_upto(s, n) == seq![0usize] + change_points(s, n),
    decreases n,
{
    if n == 1 {
        assert(!s.take(0).contains(s[0]));
        assert(first_rows_upto(s, 0) =~= Seq::<usize>::empty());
        assert(change_points(s, 1) =~= Seq::<usize>::empty());
        assert(first_rows_upto(s, 1) =~= seq![0usize] + change_points(s, 1));
    } else {
        lemma_grouped_first_rows(s, n - 1);
        let j = n - 1;
        if s[j - 1] != s[j] {
            if s.take(j).contains(s[j]) {
                let a = choose|a: int| 0 <= a < j && #[trigger] s.take(j)[a] == s[j];
                assert(s[a] == s[j]);
                if a < j - 1 {
                    assert(s[j - 1] == s[a]);
                }
            }
        } else {
            assert(s.take(j)[j - 1] == s[j]);
        }
        assert(first_rows_upto(s, n) =~= seq![0usize] + change_points(s, n));
    }
}

/// Law: in a non-empty sequence whose equal values stand together, the runs
/// and the distinct values correspond one to one, in order: run `i` holds
/// distinct value `i` and nothing else.
pub proof fn lemma_grouped_runs_follow_distinct_values(s: Seq<Seq<char>>)
    requires
        grouped(s),
        1 <= s.len() <= usize::MAX,
    ensures
        runs(s).len() == distinct_values(s).len(),
        forall|i: int, j: int|
            0 <= i < runs(s).len() && runs(s)[i].start <= j < runs(s)[i].end ==> #[trigger] s[j]
                == #[trigger] distinct_values(s)[i],
{
    lemma_grouped_first_rows(s, s.len() as int);
    lemma_runs_partition(s);
    let r = runs(s);
    let b = run_bounds(s);
    let f = first_rows(s);
    assert(b =~= f.push(s.len() as usize));
    assert forall|i: int, j: int|
        0 <= i < r.len() && r[i].start <= j < r[i].end implies #[trigger] s[j] == #[trigger] distinct_values(s)[i] by {
        assert(r[i].start == f[i]);
        assert(s[j] == s[r[i].start as int]);
    }
}

} // verus!

verus! {

/// The values among the first `n` of `s` that occur in `other`, each once, in
/// the order in which `s` first mentions them.
pub open spec fn first_kept(s: Seq<Seq<char>>, other: Seq<Seq<char>>, n: int) -> Seq<Seq<char>>
    decreases n,
{
    if n <= 0 {
        seq![]
    } else {
        first_kept(s, other, n - 1) + (if other.contains(s[n - 1]) && !s.take(n - 1).contains(s[n - 1]) {
            seq![s[n - 1]]
        } else {
            seq![]
        })
    }
}

/// The loans of `s` that also occur in `other`, in the order in which `s`
/// first mentions them.
pub open spec fn common_order(s: Seq<Seq<char>>, other: Seq<Seq<char>>) -> Seq<Seq<char>> {
    first_kept(s, other, s.len() as int)
}

proof fn lemma_rows_in_same_members(s: Seq<Seq<char>>, o1: Seq<Seq<char>>, o2: Seq<Seq<char>>, n: int)
    requires
        forall|x: Seq<char>| o1.contains(x) == o2.contains(x),
    ensures
        rows_in(s, o1, n) == rows_in(s, o2, n),
    decreases n,
{
    if n > 0 {
        lemma_rows_in_same_members(s, o1, o2, n - 1);
        assert(o1.contains(s[n - 1]) == o2.contains(s[n - 1]));
    }
}

/// The first rows of a sequence depend only on its first `m` values.
proof fn lemma_first_rows_prefix(s: Seq<Seq<char>>, t: Seq<Seq<char>>, m: int)
    requires
        0 <= m <= s.len(),
        m <= t.len(),
        s.take(m) == t.take(m),
    ensures
        first_rows_upto(s, m) == first_rows_upto(t, m),
    decreases m,
{
    if m > 0 {
        assert(s.take(m - 1) =~= s.take(m).take(m - 1));
        assert(t.take(m - 1) =~= t.take(m).take(m - 1));
        assert(s[m - 1] == s.take(m)[m - 1]);
        assert(t[m - 1] == t.take(m)[m - 1]);
        lemma_first_rows_prefix(s, t, m - 1);
    }
}

proof fn lemma_kept_distinct(s: Seq<Seq<char>>, other: Seq<Seq<char>>, n: int)
    requires
        0 <= n <= s.len(),
        s.len() <= usize::MAX,
    ensures
        distinct_values(gather_ids(s, rows_in(s, other, n))) == first_kept(s, other, n),
    decreases n,
{
    if n > 0 {
        lemma_kept_distinct(s, other, n - 1);
        lemma_rows_in(s, other, n - 1);
        let prev = gather_ids(s, rows_in(s, other, n - 1));
        let cur = gather_ids(s, rows_in(s, other, n));
        let x = s[n - 1];
        if other.contains(x) {
            let m = prev.len() as int;
            assert(cur =~= prev.push(x));
            assert(cur.take(m) =~= prev);
            assert(prev.take(m) =~= prev);
            lemma_first_rows_prefix(cur, prev, m);
            assert(prev.contains(x) == s.take(n - 1).contains(x)) by {
                if prev.contains(x) {
                    let k = choose|k: int| 0 <= k < prev.len() && #[trigger] prev[k] == x;
                    let r = rows_in(s, other, n - 1)[k];
                    assert(s.take(n - 1)[r as int] == x);
                }
                if s.take(n - 1).contains(x) {
                    let j = choose|j: int| 0 <= j < n - 1 && #[trigger] s.take(n - 1)[j] == x;
                    assert(other.contains(s[j]));
                    let k = choose|k: int| 0 <= k < rows_in(s, other, n - 1).len() && #[trigger] rows_in(s, other, n - 1)[k] == j;
                    assert(prev[k] == x);
                }
            }
            lemma_first_rows_cover(prev, m);
            let fr = first_rows(cur);
            assert(first_rows(prev) == first_rows_upto(prev, m));
            assert(fr == first_rows_upto(cur, m) + (if cur.take(m).contains(cur[m]) {
                Seq::<usize>::empty()
            } else {
                seq![m as usize]
            }));
            assert(distinct_values(cur) =~= first_kept(s, other, n)) by {
                assert forall|k: int| 0 <= k < first_rows(prev).len() implies cur[#[trigger] first_rows(prev)[k] as int]
                    == prev[first_rows(prev)[k] as int] by {}
            }
        } else {
            assert(cur =~= prev);
        }
    }
}

/// Law: what a semi join keeps of a table, taken loan by loan in order of
/// first appearance, is the table's common loans in the order in which the
/// table first mentions them.
pub proof fn lemma_kept_loans_in_file_order(s: Seq<Seq<char>>, other: Seq<Seq<char>>)
    requires
        s.len() <= usize::MAX,
        other.len() <= usize::MAX,
    ensures
        distinct_values(gather_ids(s, semi_join_rows(s, distinct_values(other)))) == common_order(s, other),
{
    lemma_distinct_values(other);
    lemma_rows_in_same_members(s, distinct_values(other), other, s.len() as int);
    lemma_kept_distinct(s, other, s.len() as int);
}

} // verus!
