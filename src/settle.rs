//! The settlement engine.
//!
//! The engine works on a set of (participant, diff) entries. While entries
//! remain, it takes out the entry that sorts last (the most indebted
//! participant). If that was the last entry, it is the residual: a leftover
//! above one cent is reported as a payment of the participant to themself,
//! anything smaller is dropped as rounding noise. If the debtor's diff is
//! exactly zero, it owes nothing and simply leaves. Otherwise the entry that
//! now sorts first (the participant the group owes most, which may be one
//! whose diff is zero) receives the debtor's whole diff, and leaves the set
//! once its own diff reaches exactly zero.
//!
//! Entries sort by diff ascending, then by input position ascending, so ties
//! are broken deterministically: among equal diffs the later participant pays
//! first and the earlier participant is paid first. The greedy plan is not
//! always the shortest possible one.
//!
//! Every payment of the main loop is of a positive amount when the diffs sum
//! to at least minus one ten-thousandth. A larger negative rounding drift can
//! leave only owed participants in the set, and the rule above then has one
//! of them pay a negative amount to another; this rule is kept as stated.
use vstd::prelude::*;

use crate::amount::{Amount, CENT_UNITS};
use crate::balance::{
    compute_diffs,
    diffs_of,
    lemma_diffs_sum_near_zero,
    paid_units,
    total_names,
    PersonTotal,
};
use crate::models::{OutingResult, PersonDiff};

verus! {

/// A payment of a settlement plan, with both participants named by their
/// position in the engine's input.
pub struct PlannedTransfer {
    pub from: int,
    pub to: int,
    pub amount: int,
}

/// The sum of a sequence of integers.
pub open spec fn sum_of(s: Seq<int>) -> int
    decreases s.len(),
{
    if s.len() == 0 {
        0
    } else {
        sum_of(s.drop_last()) + s.last()
    }
}

/// The diffs of `diffs`, in ten-thousandths.
pub open spec fn diff_units(diffs: Seq<PersonDiff>) -> Seq<int> {
    Seq::new(diffs.len(), |i: int| diffs[i].diff_from_avg.units as int)
}

/// The sum of the diffs of the working-set entries `ws`, each a pair of
/// (input position, current diff).
pub open spec fn total(ws: Seq<(int, int)>) -> int
    decreases ws.len(),
{
    if ws.len() == 0 {
        0
    } else {
        total(ws.drop_last()) + ws.last().1
    }
}

/// The working order: `a` sorts no later than `b` when its diff is smaller,
/// or equal with a position no later.
pub open spec fn sorts_before(a: (int, int), b: (int, int)) -> bool {
    a.1 < b.1 || (a.1 == b.1 && a.0 <= b.0)
}

/// The index of the entry of `ws` that sorts last.
pub open spec fn last_in_order(ws: Seq<(int, int)>) -> int
    decreases ws.len(),
{
    if ws.len() <= 1 {
        0
    } else {
        let i = last_in_order(ws.drop_last());
        if sorts_before(ws[i], ws.last()) {
            ws.len() - 1
        } else {
            i
        }
    }
}

/// The index of the entry of `ws` that sorts first.
pub open spec fn first_in_order(ws: Seq<(int, int)>) -> int
    decreases ws.len(),
{
    if ws.len() <= 1 {
        0
    } else {
        let i = first_in_order(ws.drop_last());
        if sorts_before(ws.last(), ws[i]) {
            ws.len() - 1
        } else {
            i
        }
    }
}

/// The entries the engine starts from: every input position with its diff,
/// in input order.
pub open spec fn working_set(d: Seq<int>) -> Seq<(int, int)> {
    Seq::new(d.len(), |i: int| (i, d[i]))
}

/// The payments the engine makes from the working set `ws` on.
pub open spec fn settle_from(ws: Seq<(int, int)>) -> Seq<PlannedTransfer>
    decreases ws.len(),
{
    if ws.len() == 0 {
        seq![]
    } else {
        proof {
            lemma_last_in_order(ws);
        }
        let t = last_in_order(ws);
        let debtor = ws[t];
        let rest = ws.remove(t);
        if rest.len() == 0 {
            if debtor.1 > CENT_UNITS {
                seq![PlannedTransfer { from: debtor.0, to: debtor.0, amount: debtor.1 }]
            } else {
                seq![]
            }
        } else if debtor.1 == 0 {
            settle_from(rest)
        } else {
            proof {
                lemma_first_in_order(rest);
            }
            let b = first_in_order(rest);
            seq![PlannedTransfer { from: debtor.0, to: rest[b].0, amount: debtor.1 }]
                + settle_from(after_receiving(rest, b, debtor.1))
        }
    }
}

/// The settlement plan for the diffs `d`, in ten-thousandths.
pub open spec fn settlement_plan(d: Seq<int>) -> Seq<PlannedTransfer> {
    settle_from(working_set(d))
}

/// The names of the participants of `diffs`, in order.
pub open spec fn diff_names(diffs: Seq<PersonDiff>) -> Seq<Seq<char>> {
    Seq::new(diffs.len(), |i: int| diffs[i].name@)
}

/// The payment `o` is the planned transfer `t` between participants named
/// by `names`.
pub open spec fn pays_as_planned(o: OutingResult, t: PlannedTransfer, names: Seq<Seq<char>>) -> bool {
    &&& 0 <= t.from < names.len()
    &&& 0 <= t.to < names.len()
    &&& o.from@ == names[t.from]
    &&& o.to@ == names[t.to]
    &&& o.amount.units == t.amount
}

/// The payments `r` carry out the plan `plan`, in order, between
/// participants named by `names`.
pub open spec fn carries_out(r: Seq<OutingResult>, plan: Seq<PlannedTransfer>, names: Seq<Seq<char>>) -> bool {
    &&& r.len() == plan.len()
    &&& forall|k: int| 0 <= k < r.len() ==> pays_as_planned(#[trigger] r[k], plan[k], names)
}

/// Every entry of `ws` names a distinct position below `n`.
pub open spec fn entries_valid(ws: Seq<(int, int)>, n: int) -> bool {
    &&& forall|i: int| 0 <= i < ws.len() ==> 0 <= #[trigger] ws[i].0 < n
    &&& forall|i: int, j: int| 0 <= i < j < ws.len() ==> #[trigger] ws[i].0 != #[trigger] ws[j].0
}

/// `last_in_order` picks an entry that no other entry sorts after.
pub proof fn lemma_last_in_order(ws: Seq<(int, int)>)
    requires
        ws.len() > 0,
    ensures
        0 <= last_in_order(ws) < ws.len(),
        forall|j: int| 0 <= j < ws.len() ==> sorts_before(#[trigger] ws[j], ws[last_in_order(ws)]),
    decreases ws.len(),
{
    if ws.len() > 1 {
        let dl = ws.drop_last();
        lemma_last_in_order(dl);
        assert forall|j: int| 0 <= j < dl.len() implies dl[j] == ws[j] by {}
    }
}

/// `first_in_order` picks an entry that no other entry sorts before.
pub proof fn lemma_first_in_order(ws: Seq<(int, int)>)
    requires
        ws.len() > 0,
    ensures
        0 <= first_in_order(ws) < ws.len(),
        forall|j: int| 0 <= j < ws.len() ==> sorts_before(ws[first_in_order(ws)], #[trigger] ws[j]),
    decreases ws.len(),
{
    if ws.len() > 1 {
        let dl = ws.drop_last();
        lemma_first_in_order(dl);
        assert forall|j: int| 0 <= j < dl.len() implies dl[j] == ws[j] by {}
    }
}

pub proof fn lemma_total_remove(ws: Seq<(int, int)>, i: int)
    requires
        0 <= i < ws.len(),
    ensures
        total(ws.remove(i)) == total(ws) - ws[i].1,
    decreases ws.len(),
{
    if i == ws.len() - 1 {
        assert(ws.remove(i) =~= ws.drop_last());
    } else {
        lemma_total_remove(ws.drop_last(), i);
        assert(ws.remove(i).drop_last() =~= ws.drop_last().remove(i));
    }
}

pub proof fn lemma_total_update(ws: Seq<(int, int)>, i: int, e: (int, int))
    requires
        0 <= i < ws.len(),
    ensures
        total(ws.update(i, e)) == total(ws) - ws[i].1 + e.1,
    decreases ws.len(),
{
    if i == ws.len() - 1 {
        assert(ws.update(i, e).drop_last() =~= ws.drop_last());
    } else {
        lemma_total_update(ws.drop_last(), i, e);
        assert(ws.update(i, e).drop_last() =~= ws.drop_last().update(i, e));
    }
}

/// When no entry is negative, no entry exceeds the total.
pub proof fn lemma_entries_below_total(ws: Seq<(int, int)>)
    requires
        forall|j: int| 0 <= j < ws.len() ==> #[trigger] ws[j].1 >= 0,
    ensures
        total(ws) >= 0,
        forall|j: int| 0 <= j < ws.len() ==> #[trigger] ws[j].1 <= total(ws),
    decreases ws.len(),
{
    if ws.len() > 0 {
        let dl = ws.drop_last();
        assert forall|j: int| 0 <= j < dl.len() implies dl[j] == ws[j] by {}
        lemma_entries_below_total(dl);
    }
}

/// When no entry is positive, no entry is below the total.
pub proof fn lemma_entries_above_total(ws: Seq<(int, int)>)
    requires
        forall|j: int| 0 <= j < ws.len() ==> #[trigger] ws[j].1 <= 0,
    ensures
        total(ws) <= 0,
        forall|j: int| 0 <= j < ws.len() ==> #[trigger] ws[j].1 >= total(ws),
    decreases ws.len(),
{
    if ws.len() > 0 {
        let dl = ws.drop_last();
        assert forall|j: int| 0 <= j < dl.len() implies dl[j] == ws[j] by {}
        lemma_entries_above_total(dl);
    }
}

/// The diff the creditor is left with after a step lies between the smallest
/// and the largest of the entries' diffs and their total.
pub proof fn lemma_settled_between(ws: Seq<(int, int)>, lo: int, hi: int)
    requires
        ws.len() >= 2,
        lo <= 0 <= hi,
        lo <= total(ws) <= hi,
        forall|j: int| 0 <= j < ws.len() ==> lo <= #[trigger] ws[j].1 <= hi,
    ensures
        ({
            let t = last_in_order(ws);
            let rest = ws.remove(t);
            let b = first_in_order(rest);
            lo <= rest[b].1 + ws[t].1 <= hi
        }),
{
    lemma_last_in_order(ws);
    let t = last_in_order(ws);
    let rest = ws.remove(t);
    lemma_first_in_order(rest);
    let b = first_in_order(rest);
    let d = ws[t].1;
    let c = rest[b].1;
    assert forall|j: int| 0 <= j < rest.len() implies #[trigger] rest[j].1 <= d by {
        if j < t {
            assert(rest[j] == ws[j]);
        } else {
            assert(rest[j] == ws[j + 1]);
        }
    }
    lemma_total_remove(ws, t);
    if c > 0 {
        lemma_entries_below_total(rest);
    } else if d < 0 {
        lemma_entries_above_total(rest);
    }
}

/// The working-set entries that the executable pairs `w` stand for.
spec fn entry_view(w: Seq<(usize, i64)>) -> Seq<(int, int)> {
    w.map_values(|e: (usize, i64)| (e.0 as int, e.1 as int))
}

/// The index of the entry of `ws` that sorts last.
fn last_index(ws: &Vec<(usize, i64)>) -> (r: usize)
    requires
        ws.len() > 0,
    ensures
        r == last_in_order(entry_view(ws@)),
{
    let ghost m = entry_view(ws@);
    let mut best: usize = 0;
    let mut i: usize = 1;
    while i < ws.len()
        invariant
            m == entry_view(ws@),
            1 <= i <= ws.len(),
            best < i,
            best == last_in_order(m.subrange(0, i as int)),
        decreases ws.len() - i,
    {
        let a = ws[best];
        let b = ws[i];
        assert(m.subrange(0, i + 1).drop_last() =~= m.subrange(0, i as int));
        if a.1 < b.1 || (a.1 == b.1 && a.0 <= b.0) {
            best = i;
        }
        i = i + 1;
    }
    assert(m.subrange(0, ws.len() as int) =~= m);
    best
}

/// The index of the entry of `ws` that sorts first.
fn first_index(ws: &Vec<(usize, i64)>) -> (r: usize)
    requires
        ws.len() > 0,
    ensures
        r == first_in_order(entry_view(ws@)),
{
    let ghost m = entry_view(ws@);
    let mut best: usize = 0;
    let mut i: usize = 1;
    while i < ws.len()
        invariant
            m == entry_view(ws@),
            1 <= i <= ws.len(),
            best < i,
            best == first_in_order(m.subrange(0, i as int)),
        decreases ws.len() - i,
    {
        let a = ws[best];
        let b = ws[i];
        assert(m.subrange(0, i + 1).drop_last() =~= m.subrange(0, i as int));
        if b.1 < a.1 || (b.1 == a.1 && b.0 <= a.0) {
            best = i;
        }
        i = i + 1;
    }
    assert(m.subrange(0, ws.len() as int) =~= m);
    best
}

/// The entries the engine starts from, for the participants of `diffs`.
fn all_entries(diffs: &Vec<PersonDiff>) -> (ws: Vec<(usize, i64)>)
    ensures
        entry_view(ws@) == working_set(diff_units(diffs@)),
{
    let ghost d = diff_units(diffs@);
    let mut ws: Vec<(usize, i64)> = Vec::new();
    let mut i: usize = 0;
    while i < diffs.len()
        invariant
            d == diff_units(diffs@),
            i <= diffs.len(),
            ws@.len() == i,
            forall|j: int| 0 <= j < i ==> #[trigger] ws@[j] == (j as usize, diffs@[j].diff_from_avg.units),
        decreases diffs.len() - i,
    {
        ws.push((i, diffs[i].diff_from_avg.units));
        i = i + 1;
    }
    assert(entry_view(ws@) =~= working_set(d));
    ws
}

/// The creditor's entry after it received `amount`: gone when its diff
/// reaches zero, updated otherwise.
pub open spec fn after_receiving(rest: Seq<(int, int)>, b: int, amount: int) -> Seq<(int, int)> {
    let settled = rest[b].1 + amount;
    if settled == 0 {
        rest.remove(b)
    } else {
        rest.update(b, (rest[b].0, settled))
    }
}

/// A step of the engine when a single entry is left.
pub proof fn lemma_last_step(ws: Seq<(int, int)>)
    requires
        ws.len() == 1,
    ensures
        last_in_order(ws) == 0,
        settle_from(ws) == (if ws[0].1 > CENT_UNITS {
            seq![PlannedTransfer { from: ws[0].0, to: ws[0].0, amount: ws[0].1 }]
        } else {
            Seq::<PlannedTransfer>::empty()
        }),
{
    assert(ws.remove(0).len() == 0);
}

/// A step of the engine when at least two entries are left.
pub proof fn lemma_pair_step(ws: Seq<(int, int)>, n: int)
    requires
        ws.len() >= 2,
        entries_valid(ws, n),
    ensures
        ({
            let t = last_in_order(ws);
            let rest = ws.remove(t);
            let b = first_in_order(rest);
            let next = after_receiving(rest, b, ws[t].1);
            &&& 0 <= t < ws.len()
            &&& 0 <= b < rest.len()
            &&& rest.len() == ws.len() - 1
            &&& entries_valid(rest, n)
            &&& ws[t].0 != rest[b].0
            &&& total(rest) == total(ws) - ws[t].1
            &&& forall|i: int| 0 <= i < rest.len() ==> #[trigger] rest[i] == (if i < t {
                ws[i]
            } else {
                ws[i + 1]
            })
            &&& ws[t].1 == 0 ==> settle_from(ws) == settle_from(rest)
            &&& ws[t].1 != 0 ==> settle_from(ws) == seq![PlannedTransfer { from: ws[t].0, to: rest[b].0, amount: ws[t].1 }]
                + settle_from(next)
            &&& entries_valid(next, n)
            &&& total(next) == total(ws)
            &&& next.len() < ws.len()
        }),
{
    lemma_last_in_order(ws);
    let t = last_in_order(ws);
    let rest = ws.remove(t);
    lemma_first_in_order(rest);
    let b = first_in_order(rest);
    let next = after_receiving(rest, b, ws[t].1);
    lemma_total_remove(ws, t);
    assert forall|i: int| 0 <= i < rest.len() implies #[trigger] rest[i] == (if i < t {
        ws[i]
    } else {
        ws[i + 1]
    }) by {}
    assert(entries_valid(rest, n));
    if b < t {
        assert(rest[b] == ws[b]);
    } else {
        assert(rest[b] == ws[b + 1]);
    }
    if rest[b].1 + ws[t].1 == 0 {
        lemma_total_remove(rest, b);
        assert forall|i: int| 0 <= i < next.len() implies #[trigger] next[i] == (if i < b {
            rest[i]
        } else {
            rest[i + 1]
        }) by {}
    } else {
        lemma_total_update(rest, b, (rest[b].0, rest[b].1 + ws[t].1));
    }
}

/// The payments that settle the diffs of `diffs`: the greedy plan of this
/// module, with participants named as in `diffs`.
pub fn settle_diffs(diffs: &Vec<PersonDiff>) -> (r: Vec<OutingResult>)
    requires
        i64::MIN <= sum_of(diff_units(diffs@)) <= i64::MAX,
    ensures
        carries_out(r@, settlement_plan(diff_units(diffs@)), diff_names(diffs@)),
{
    let ghost d = diff_units(diffs@);
    let ghost plan = settlement_plan(d);
    let mut ws = all_entries(diffs);
    proof {
        lemma_working_set(d);
    }
    let mut out: Vec<OutingResult> = Vec::new();
    while ws.len() > 0
        invariant
            d == diff_units(diffs@),
            plan == settlement_plan(d),
            i64::MIN <= sum_of(d) <= i64::MAX,
            entries_valid(entry_view(ws@), diffs.len() as int),
            ws.len() > 0 ==> total(entry_view(ws@)) == sum_of(d),
            out.len() <= plan.len(),
            settle_from(entry_view(ws@)) == plan.subrange(out.len() as int, plan.len() as int),
            forall|k: int| 0 <= k < out.len() ==> pays_as_planned(#[trigger] out@[k], plan[k], diff_names(diffs@)),
        decreases ws.len(),
    {
        let ghost m = entry_view(ws@);
        let ghost start = out.len() as int;
        if ws.len() == 1 {
            proof {
                lemma_last_step(m);
            }
            let debtor = ws[0];
            assert(m[0] == (debtor.0 as int, debtor.1 as int));
            assert(plan.subrange(start, plan.len() as int).len() == settle_from(m).len());
            if debtor.1 > CENT_UNITS {
                assert(settle_from(m).len() == 1);
                let name = &diffs[debtor.0].name;
                out.push(
                    OutingResult { from: name.clone(), to: name.clone(), amount: Amount { units: debtor.1 } },
                );
                assert(plan[start] == settle_from(m)[0]);
            }
            ws.clear();
            assert(entry_view(ws@) =~= Seq::<(int, int)>::empty());
            assert(out.len() == plan.len());
        } else {
            proof {
                lemma_pair_step(m, diffs.len() as int);
                lemma_last_in_order(m);
                lemma_first_in_order(m.remove(last_in_order(m)));
                assert forall|j: int| 0 <= j < m.len() implies i64::MIN <= #[trigger] m[j].1 <= i64::MAX by {}
                lemma_settled_between(m, i64::MIN as int, i64::MAX as int);
            }
            let t = last_index(&ws);
            let debtor = ws.remove(t);
            let ghost rest = m.remove(t as int);
            assert(entry_view(ws@) =~= rest);
            if debtor.1 == 0 {
                assert(plan.subrange(start, plan.len() as int) == settle_from(rest));
                continue;
            }
            let b = first_index(&ws);
            let creditor = ws[b];
            let settled = creditor.1 + debtor.1;
            out.push(
                OutingResult {
                    from: diffs[debtor.0].name.clone(),
                    to: diffs[creditor.0].name.clone(),
                    amount: Amount { units: debtor.1 },
                },
            );
            let ghost next = after_receiving(rest, b as int, debtor.1 as int);
            if settled == 0 {
                ws.remove(b);
            } else {
                ws.set(b, (creditor.0, settled));
            }
            assert(entry_view(ws@) =~= next);
            assert(settle_from(m).len() >= 1);
            assert(plan.subrange(start, plan.len() as int)[0] == plan[start]);
            assert(plan[start] == settle_from(m)[0]);
            assert(plan.subrange(start + 1, plan.len() as int) =~= settle_from(m).drop_first());
            assert(settle_from(m).drop_first() =~= settle_from(next));
        }
    }
    out
}

/// The payments that settle an outing whose participants paid `totals`:
/// each participant's diff from the average, then the greedy plan over those
/// diffs.
pub fn compute_settlement(totals: &Vec<PersonTotal>) -> (r: Vec<OutingResult>)
    requires
        forall|i: int| 0 <= i < totals.len() ==> #[trigger] totals[i].amount_paid.units >= 0,
    ensures
        carries_out(r@, settlement_plan(diffs_of(paid_units(totals@))), total_names(totals@)),
{
    let diffs = compute_diffs(totals);
    proof {
        lemma_diffs_sum_near_zero(paid_units(totals@));
        assert(diff_names(diffs@) =~= total_names(totals@));
    }
    settle_diffs(&diffs)
}

/// Facts about the entries the engine starts from.
pub proof fn lemma_working_set(d: Seq<int>)
    ensures
        entries_valid(working_set(d), d.len() as int),
        total(working_set(d)) == sum_of(d),
    decreases d.len(),
{
    if d.len() > 0 {
        lemma_working_set(d.drop_last());
        assert(working_set(d).drop_last() =~= working_set(d.drop_last()));
    }
}

} // verus!
