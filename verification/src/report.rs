//! Reporting periods of a daily schedule.

use vstd::prelude::*;

verus! {

/// Day `j` of a schedule opens a new reporting period: its month differs from
/// the previous day's, a payment fell on the previous day, a disbursement
/// falls on it, or its rate differs from the previous day's (for the first
/// day: from zero).
pub open spec fn opens_period(
    months: Seq<i32>,
    paid: Seq<bool>,
    disbursed: Seq<bool>,
    rate_changed: Seq<bool>,
    j: int,
) -> bool {
    ||| (j > 0 && months[j] != months[j - 1])
    ||| (j > 0 && paid[j - 1])
    ||| disbursed[j]
    ||| rate_changed[j]
}

/// The number of days among the first `n` that open a period.
pub open spec fn periods_opened(
    months: Seq<i32>,
    paid: Seq<bool>,
    disbursed: Seq<bool>,
    rate_changed: Seq<bool>,
    n: int,
) -> nat
    decreases n,
{
    if n <= 0 {
        0
    } else {
        periods_opened(months, paid, disbursed, rate_changed, n - 1) + (if opens_period(
            months,
            paid,
            disbursed,
            rate_changed,
            n - 1,
        ) {
            1nat
        } else {
            0nat
        })
    }
}

/// Numbers the reporting periods of a daily schedule: day `i` gets the number
/// of days up to and including it that open a period, so the days of one
/// period share a number. `months` holds each day's month, `paid` whether a
/// payment falls on the day, `disbursed` whether a disbursement does, and
/// `rate_changed` whether the day's rate differs from the previous day's.
pub fn period_groups(months: &[i32], paid: &[bool], disbursed: &[bool], rate_changed: &[bool]) -> (groups: Vec<usize>)
    requires
        paid@.len() == months@.len(),
        disbursed@.len() == months@.len(),
        rate_changed@.len() == months@.len(),
    ensures
        groups@.len() == months@.len(),
        forall|i: int|
            0 <= i < groups@.len() ==> #[trigger] groups@[i] == periods_opened(
                months@,
                paid@,
                disbursed@,
                rate_changed@,
                i + 1,
            ),
{
    let mut groups: Vec<usize> = Vec::new();
    let mut count: usize = 0;
    let mut i: usize = 0;
    while i < months.len()
        invariant
            paid@.len() == months@.len(),
            disbursed@.len() == months@.len(),
            rate_changed@.len() == months@.len(),
            i <= months@.len(),
            groups@.len() == i,
            count == periods_opened(months@, paid@, disbursed@, rate_changed@, i as int),
            count <= i,
            forall|k: int|
                0 <= k < i ==> #[trigger] groups@[k] == periods_opened(
                    months@,
                    paid@,
                    disbursed@,
                    rate_changed@,
                    k + 1,
                ),
        decreases months@.len() - i,
    {
        let opens: bool = (i > 0 && months[i] != months[i - 1]) || (i > 0 && paid[i - 1])
            || disbursed[i] || rate_changed[i];
        if opens {
            count = count + 1;
        }
        groups.push(count);
        i = i + 1;
    }
    groups
}

/// Law: the first day is in period 1 exactly when a disbursement or a rate
/// change falls on it (else in period 0). A later day `j` starts a new period,
/// numbered one more than the previous day's, whenever a payment fell on day
/// `j - 1`, a disbursement falls on day `j` or the rate changes on day `j`;
/// otherwise it stays in the previous day's period exactly when it lies in
/// the previous day's month.
pub proof fn lemma_period_rule(
    months: Seq<i32>,
    paid: Seq<bool>,
    disbursed: Seq<bool>,
    rate_changed: Seq<bool>,
    j: int,
)
    requires
        0 < j,
    ensures
        periods_opened(months, paid, disbursed, rate_changed, 1) == (if disbursed[0] || rate_changed[0] {
            1nat
        } else {
            0nat
        }),
        paid[j - 1] || disbursed[j] || rate_changed[j] ==> periods_opened(
            months,
            paid,
            disbursed,
            rate_changed,
            j + 1,
        ) == periods_opened(months, paid, disbursed, rate_changed, j) + 1,
        !paid[j - 1] && !disbursed[j] && !rate_changed[j] ==> (periods_opened(
            months,
            paid,
            disbursed,
            rate_changed,
            j + 1,
        ) == periods_opened(months, paid, disbursed, rate_changed, j) <==> months[j] == months[j - 1]),
        !paid[j - 1] && !disbursed[j] && !rate_changed[j] && months[j] != months[j - 1] ==> periods_opened(
            months,
            paid,
            disbursed,
            rate_changed,
            j + 1,
        ) == periods_opened(months, paid, disbursed, rate_changed, j) + 1,
{
    assert(periods_opened(months, paid, disbursed, rate_changed, 0) == 0);
}

/// Law: period numbers never decrease along the schedule, and days `i` and
/// `j` share a number exactly when no day after `i` up to `j` opens a period.
pub proof fn lemma_same_period(
    months: Seq<i32>,
    paid: Seq<bool>,
    disbursed: Seq<bool>,
    rate_changed: Seq<bool>,
    i: int,
    j: int,
)
    requires
        0 <= i <= j,
    ensures
        periods_opened(months, paid, disbursed, rate_changed, i + 1) <= periods_opened(
            months,
            paid,
            disbursed,
            rate_changed,
            j + 1,
        ),
        periods_opened(months, paid, disbursed, rate_changed, i + 1) == periods_opened(
            months,
            paid,
            disbursed,
            rate_changed,
            j + 1,
        ) <==> forall|k: int|
            i < k <= j ==> !#[trigger] opens_period(months, paid, disbursed, rate_changed, k),
    decreases j - i,
{
    if i < j {
        lemma_same_period(months, paid, disbursed, rate_changed, i, j - 1);
        if opens_period(months, paid, disbursed, rate_changed, j) {
            assert(!(forall|k: int|
                i < k <= j ==> !#[trigger] opens_period(months, paid, disbursed, rate_changed, k)));
        }
    }
}

} // verus!
