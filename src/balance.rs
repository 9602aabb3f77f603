//! Each participant's deviation from the group average.
//!
//! The average is the exact quotient of the group total by the number of
//! participants; a participant's diff is that average minus what they paid,
//! rounded to the nearest ten-thousandth with halves away from zero.
use vstd::arithmetic::div_mod::{
    lemma_fundamental_div_mod,
    lemma_fundamental_div_mod_converse,
    lemma_mod_bound,
};
use vstd::prelude::*;

use crate::amount::Amount;
use crate::models::PersonDiff;
use crate::settle::{diff_units, sum_of};

verus! {

/// A participant of an outing with the total they paid into it; a
/// participant who recorded no expense has paid zero.
pub struct PersonTotal {
    pub name: String,
    pub amount_paid: Amount,
}

/// `num / den` rounded to the nearest integer, halves away from zero.
pub open spec fn round_div(num: int, den: int) -> int
    recommends
        den > 0,
{
    if num >= 0 {
        (2 * num + den) / (2 * den)
    } else {
        -((2 * -num + den) / (2 * den))
    }
}

/// What each participant of `totals` paid, in ten-thousandths.
pub open spec fn paid_units(totals: Seq<PersonTotal>) -> Seq<int> {
    Seq::new(totals.len(), |i: int| totals[i].amount_paid.units as int)
}

/// The names of the participants of `totals`, in order.
pub open spec fn total_names(totals: Seq<PersonTotal>) -> Seq<Seq<char>> {
    Seq::new(totals.len(), |i: int| totals[i].name@)
}

/// The diff of participant `i` when the participants paid `paid`: the
/// average `sum / n` minus `paid[i]`, rounded.
pub open spec fn diff_from_average(paid: Seq<int>, i: int) -> int {
    round_div(sum_of(paid) - paid.len() * paid[i], paid.len() as int)
}

/// The diffs of all participants when they paid `paid`.
pub open spec fn diffs_of(paid: Seq<int>) -> Seq<int> {
    Seq::new(paid.len(), |i: int| diff_from_average(paid, i))
}

/// Rounding a non-negative quotient: the exact quotient, plus one when the
/// remainder is at least half the divisor; never above a bound `m` of the
/// quotient.
proof fn lemma_round_nonneg(x: int, n: int, m: int)
    requires
        x >= 0,
        n > 0,
        m >= 0,
        x <= n * m,
    ensures
        round_div(x, n) == x / n + (if 2 * (x % n) >= n {
            1int
        } else {
            0int
        }),
        0 <= round_div(x, n) <= m,
{
    let q = x / n;
    let r = x % n;
    lemma_fundamental_div_mod(x, n);
    lemma_mod_bound(x, n);
    assert(q >= 0) by (nonlinear_arith)
        requires
            x == n * q + r,
            0 <= r < n,
            x >= 0,
    ;
    if 2 * r >= n {
        assert(2 * x + n == (q + 1) * (2 * n) + (2 * r - n)) by (nonlinear_arith)
            requires
                x == n * q + r,
        ;
        lemma_fundamental_div_mod_converse(2 * x + n, 2 * n, q + 1, 2 * r - n);
    } else {
        assert(2 * x + n == q * (2 * n) + (2 * r + n)) by (nonlinear_arith)
            requires
                x == n * q + r,
        ;
        lemma_fundamental_div_mod_converse(2 * x + n, 2 * n, q, 2 * r + n);
    }
    assert(q <= m && (q == m ==> r == 0)) by (nonlinear_arith)
        requires
            x == n * q + r,
            0 <= r < n,
            x <= n * m,
            n > 0,
    ;
}

/// Rounding moves a quotient by at most half: `|2 n round(x / n) - 2 x| <= n`.
proof fn lemma_round_close(x: int, n: int)
    requires
        n > 0,
    ensures
        -n <= 2 * n * round_div(x, n) - 2 * x <= n,
{
    let y = if x >= 0 {
        x
    } else {
        -x
    };
    let q = (2 * y + n) / (2 * n);
    let r = (2 * y + n) % (2 * n);
    lemma_fundamental_div_mod(2 * y + n, 2 * n);
    lemma_mod_bound(2 * y + n, 2 * n);
    assert(-n < 2 * n * q - 2 * y <= n) by (nonlinear_arith)
        requires
            2 * y + n == (2 * n) * q + r,
            0 <= r < 2 * n,
    ;
    if x < 0 {
        assert(2 * n * round_div(x, n) == -(2 * n * q)) by (nonlinear_arith)
            requires
                round_div(x, n) == -q,
        ;
    }
}

/// Over the first `k` participants, the rounded diffs stay within half a
/// ten-thousandth each of the exact ones.
proof fn lemma_prefix_rounding(paid: Seq<int>, k: int)
    requires
        paid.len() > 0,
        0 <= k <= paid.len(),
    ensures
        ({
            let n = paid.len() as int;
            let s = sum_of(paid);
            -(k * n) <= 2 * n * sum_of(diffs_of(paid).subrange(0, k)) - 2 * (k * s - n * sum_of(
                paid.subrange(0, k),
            )) <= k * n
        }),
    decreases k,
{
    let n = paid.len() as int;
    let s = sum_of(paid);
    let d = diffs_of(paid);
    if k == 0 {
        assert(d.subrange(0, 0) =~= Seq::<int>::empty());
        assert(paid.subrange(0, 0) =~= Seq::<int>::empty());
    } else {
        let j = k - 1;
        lemma_prefix_rounding(paid, j);
        let a = sum_of(d.subrange(0, j));
        let p = sum_of(paid.subrange(0, j));
        assert(d.subrange(0, k).drop_last() =~= d.subrange(0, j));
        assert(paid.subrange(0, k).drop_last() =~= paid.subrange(0, j));
        let x = s - n * paid[j];
        lemma_round_close(x, n);
        assert(d[j] == round_div(x, n));
        assert(2 * n * (a + d[j]) - 2 * (k * s - n * (p + paid[j])) == (2 * n * a - 2 * (j * s - n
            * p)) + (2 * n * d[j] - 2 * x)) by (nonlinear_arith)
            requires
                x == s - n * paid[j],
                k == j + 1,
        ;
        assert(k * n == j * n + n) by (nonlinear_arith)
            requires
                k == j + 1,
        ;
    }
}

/// The diffs of a group sum to zero up to rounding: their total is at most
/// half a ten-thousandth per participant away from zero.
pub proof fn lemma_diffs_sum_near_zero(paid: Seq<int>)
    ensures
        -(paid.len() as int) <= 2 * sum_of(diffs_of(paid)) <= paid.len(),
{
    let n = paid.len() as int;
    let s = sum_of(paid);
    let d = diffs_of(paid);
    if n == 0 {
        assert(d =~= Seq::<int>::empty());
    } else {
        lemma_prefix_rounding(paid, n);
        assert(d.subrange(0, n) =~= d);
        assert(paid.subrange(0, n) =~= paid);
        let a = sum_of(d);
        assert(-n <= 2 * a <= n) by (nonlinear_arith)
            requires
                -(n * n) <= 2 * n * a - 2 * (n * s - n * s) <= n * n,
                n > 0,
        ;
    }
}

/// The diff of a participant who paid `paid`, in a group of `n` that paid
/// `sum` in all.
fn rounded_diff(sum: u128, n: usize, paid: i64) -> (r: i64)
    requires
        n > 0,
        0 <= paid,
        sum <= n * (i64::MAX as int),
    ensures
        r == round_div(sum - n * paid, n as int),
{
    proof {
        assert(n * paid <= n * (i64::MAX as int)) by (nonlinear_arith)
            requires
                0 <= paid <= i64::MAX,
                n > 0,
        ;
        assert(n * (i64::MAX as int) < u128::MAX) by (nonlinear_arith)
            requires
                n <= u64::MAX,
        ;
    }
    let scaled: u128 = (n as u128) * (paid as u128);
    let count = n as u128;
    if sum >= scaled {
        let x = sum - scaled;
        let q = x / count;
        let rem = x % count;
        proof {
            lemma_round_nonneg(x as int, n as int, i64::MAX as int);
        }
        if 2 * rem >= count {
            (q + 1) as i64
        } else {
            q as i64
        }
    } else {
        let x = scaled - sum;
        let q = x / count;
        let rem = x % count;
        proof {
            lemma_round_nonneg(x as int, n as int, i64::MAX as int);
        }
        if 2 * rem >= count {
            -((q + 1) as i64)
        } else {
            -(q as i64)
        }
    }
}

/// Each participant's diff from the group average, in the order of
/// `totals`.
pub fn compute_diffs(totals: &Vec<PersonTotal>) -> (r: Vec<PersonDiff>)
    requires
        forall|i: int| 0 <= i < totals.len() ==> #[trigger] totals[i].amount_paid.units >= 0,
    ensures
        r.len() == totals.len(),
        forall|i: int| 0 <= i < r.len() ==> #[trigger] r[i].name@ == totals[i].name@,
        diff_units(r@) == diffs_of(paid_units(totals@)),
{
    let ghost p = paid_units(totals@);
    let n = totals.len();
    let mut sum: u128 = 0;
    let mut i: usize = 0;
    assert(p.subrange(0, 0) =~= Seq::<int>::empty());
    while i < n
        invariant
            p == paid_units(totals@),
            n == totals.len(),
            i <= n,
            forall|j: int| 0 <= j < totals.len() ==> #[trigger] totals[j].amount_paid.units >= 0,
            sum == sum_of(p.subrange(0, i as int)),
            sum <= i * (i64::MAX as int),
        decreases n - i,
    {
        let u = totals[i].amount_paid.units;
        proof {
            assert(p.subrange(0, i + 1).drop_last() =~= p.subrange(0, i as int));
            assert((i + 1) * (i64::MAX as int) == i * (i64::MAX as int) + i64::MAX) by (nonlinear_arith);
            assert((i + 1) * (i64::MAX as int) < u128::MAX) by (nonlinear_arith)
                requires
                    i < n <= usize::MAX,
            ;
        }
        sum = sum + u as u128;
        i = i + 1;
    }
    assert(p.subrange(0, n as int) =~= p);
    let mut r: Vec<PersonDiff> = Vec::new();
    let mut i: usize = 0;
    while i < n
        invariant
            p == paid_units(totals@),
            n == totals.len(),
            i <= n,
            forall|j: int| 0 <= j < totals.len() ==> #[trigger] totals[j].amount_paid.units >= 0,
            sum == sum_of(p),
            sum <= n * (i64::MAX as int),
            r.len() == i,
            forall|j: int| 0 <= j < i ==> #[trigger] r[j].name@ == totals[j].name@,
            forall|j: int| 0 <= j < i ==> #[trigger] r[j].diff_from_avg.units == diff_from_average(p, j),
        decreases n - i,
    {
        let d = rounded_diff(sum, n, totals[i].amount_paid.units);
        r.push(PersonDiff { name: totals[i].name.clone(), diff_from_avg: Amount { units: d } });
        i = i + 1;
    }
    assert(diff_units(r@) =~= diffs_of(p));
    r
}

} // verus!
