//! What every settlement plan satisfies.
use vstd::prelude::*;

use crate::amount::CENT_UNITS;
use crate::models::OutingResult;
use crate::settle::{
    after_receiving,
    carries_out,
    entries_valid,
    first_in_order,
    last_in_order,
    lemma_last_step,
    lemma_entries_above_total,
    lemma_first_in_order,
    lemma_last_in_order,
    lemma_pair_step,
    lemma_working_set,
    pays_as_planned,
    settle_from,
    settlement_plan,
    sum_of,
    total,
    working_set,
    PlannedTransfer,
};

verus! {

/// The balances `bal` after the payments `ts`, in order: each payment lowers
/// the payer's balance and raises the payee's by its amount.
pub open spec fn apply_transfers(bal: Seq<int>, ts: Seq<PlannedTransfer>) -> Seq<int>
    decreases ts.len(),
{
    if ts.len() == 0 {
        bal
    } else {
        let t = ts[0];
        let paid = bal.update(t.from, bal[t.from] - t.amount);
        apply_transfers(paid.update(t.to, paid[t.to] + t.amount), ts.drop_first())
    }
}

/// The balance the working set `ws` gives position `k`: the diff of its
/// entry for `k`, zero when it has none.
pub open spec fn value_at(ws: Seq<(int, int)>, k: int) -> int
    decreases ws.len(),
{
    if ws.len() == 0 {
        0
    } else if ws.last().0 == k {
        ws.last().1
    } else {
        value_at(ws.drop_last(), k)
    }
}

proof fn lemma_value_at_absent(ws: Seq<(int, int)>, k: int)
    requires
        forall|i: int| 0 <= i < ws.len() ==> #[trigger] ws[i].0 != k,
    ensures
        value_at(ws, k) == 0,
    decreases ws.len(),
{
    if ws.len() > 0 {
        let dl = ws.drop_last();
        assert forall|i: int| 0 <= i < dl.len() implies #[trigger] dl[i].0 != k by {
            assert(dl[i] == ws[i]);
        }
        lemma_value_at_absent(dl, k);
    }
}

proof fn lemma_value_at_entry(ws: Seq<(int, int)>, n: int, i: int)
    requires
        entries_valid(ws, n),
        0 <= i < ws.len(),
    ensures
        value_at(ws, ws[i].0) == ws[i].1,
    decreases ws.len(),
{
    if i < ws.len() - 1 {
        let dl = ws.drop_last();
        assert(dl[i] == ws[i]);
        assert(entries_valid(dl, n)) by {
            assert forall|a: int| 0 <= a < dl.len() implies #[trigger] dl[a] == ws[a] by {}
        }
        lemma_value_at_entry(dl, n, i);
    }
}

proof fn lemma_value_at_remove(ws: Seq<(int, int)>, n: int, i: int, k: int)
    requires
        entries_valid(ws, n),
        0 <= i < ws.len(),
    ensures
        value_at(ws.remove(i), k) == (if k == ws[i].0 {
            0
        } else {
            value_at(ws, k)
        }),
    decreases ws.len(),
{
    let dl = ws.drop_last();
    assert forall|a: int| 0 <= a < dl.len() implies #[trigger] dl[a] == ws[a] by {}
    assert(entries_valid(dl, n));
    if i == ws.len() - 1 {
        assert(ws.remove(i) =~= dl);
        if k == ws[i].0 {
            assert forall|a: int| 0 <= a < dl.len() implies #[trigger] dl[a].0 != k by {}
            lemma_value_at_absent(dl, k);
        }
    } else {
        lemma_value_at_remove(dl, n, i, k);
        assert(ws.remove(i).drop_last() =~= dl.remove(i));
        assert(ws.remove(i).last() == ws.last());
    }
}

proof fn lemma_value_at_update(ws: Seq<(int, int)>, n: int, i: int, v: int, k: int)
    requires
        entries_valid(ws, n),
        0 <= i < ws.len(),
    ensures
        value_at(ws.update(i, (ws[i].0, v)), k) == (if k == ws[i].0 {
            v
        } else {
            value_at(ws, k)
        }),
    decreases ws.len(),
{
    let dl = ws.drop_last();
    assert forall|a: int| 0 <= a < dl.len() implies #[trigger] dl[a] == ws[a] by {}
    assert(entries_valid(dl, n));
    if i == ws.len() - 1 {
        assert(ws.update(i, (ws[i].0, v)).drop_last() =~= dl);
    } else {
        lemma_value_at_update(dl, n, i, v, k);
        assert(ws.update(i, (ws[i].0, v)).drop_last() =~= dl.update(i, (ws[i].0, v)));
    }
}

/// Carrying out the plan from `ws` on balances that `ws` describes leaves at
/// most one nonzero balance, and that one equals the total of `ws`.
proof fn lemma_balances_after(bal: Seq<int>, ws: Seq<(int, int)>)
    requires
        entries_valid(ws, bal.len() as int),
        forall|k: int| 0 <= k < bal.len() ==> #[trigger] bal[k] == value_at(ws, k),
    ensures
        ({
            let f = apply_transfers(bal, settle_from(ws));
            &&& f.len() == bal.len()
            &&& forall|i: int, j: int| 0 <= i < j < f.len() ==> f[i] == 0 || f[j] == 0
            &&& forall|i: int| 0 <= i < f.len() && f[i] != 0 ==> f[i] == total(ws)
        }),
    decreases ws.len(),
{
    let n = bal.len() as int;
    if ws.len() == 0 {
        assert(settle_from(ws) =~= Seq::<PlannedTransfer>::empty());
    } else if ws.len() == 1 {
        lemma_last_step(ws);
        let p = ws[0].0;
        let v = ws[0].1;
        assert(total(ws) == v) by {
            reveal_with_fuel(total, 2);
            assert(ws.drop_last() =~= Seq::<(int, int)>::empty());
        }
        if v > CENT_UNITS {
            let paid = bal.update(p, bal[p] - v);
            assert(paid.update(p, paid[p] + v) =~= bal);
            assert(settle_from(ws).drop_first() =~= Seq::<PlannedTransfer>::empty());
        }
        assert(apply_transfers(bal, settle_from(ws)) == bal) by {
            reveal_with_fuel(apply_transfers, 2);
        }
        assert forall|k: int| 0 <= k < n && k != p implies bal[k] == 0 by {
            reveal_with_fuel(value_at, 2);
            assert(ws.drop_last() =~= Seq::<(int, int)>::empty());
        }
    } else {
        lemma_pair_step(ws, n);
        let t = last_in_order(ws);
        let rest = ws.remove(t);
        if ws[t].1 == 0 {
            lemma_value_at_entry(ws, n, t);
            assert forall|k: int| 0 <= k < n implies #[trigger] bal[k] == value_at(rest, k) by {
                lemma_value_at_remove(ws, n, t, k);
            }
            lemma_balances_after(bal, rest);
        } else {
            let b = first_in_order(rest);
            let pd = ws[t].0;
            let vd = ws[t].1;
            let pc = rest[b].0;
            let vc = rest[b].1;
            let next = after_receiving(rest, b, vd);
            let tr = PlannedTransfer { from: pd, to: pc, amount: vd };
            let paid = bal.update(pd, bal[pd] - vd);
            let bal1 = paid.update(pc, paid[pc] + vd);
            lemma_value_at_entry(ws, n, t);
            lemma_value_at_entry(rest, n, b);
            lemma_value_at_remove(ws, n, t, pc);
            assert forall|k: int| 0 <= k < n implies #[trigger] bal1[k] == value_at(next, k) by {
                lemma_value_at_remove(ws, n, t, k);
                if vc + vd == 0 {
                    lemma_value_at_remove(rest, n, b, k);
                } else {
                    lemma_value_at_update(rest, n, b, vc + vd, k);
                }
            }
            lemma_balances_after(bal1, next);
            let plan = settle_from(ws);
            assert(plan[0] == tr);
            assert(plan.drop_first() =~= settle_from(next));
        }
    }
}

proof fn lemma_working_set_values(d: Seq<int>)
    ensures
        forall|k: int| 0 <= k < d.len() ==> #[trigger] d[k] == value_at(working_set(d), k),
{
    lemma_working_set(d);
    assert forall|k: int| 0 <= k < d.len() implies #[trigger] d[k] == value_at(working_set(d), k) by {
        lemma_value_at_entry(working_set(d), d.len() as int, k);
    }
}

/// Carrying out the settlement plan zeroes every participant's diff but at
/// most one, the residual, which is left with the sum of all diffs; when the
/// diffs sum to within one cent of zero, every leftover is within one cent.
pub proof fn lemma_settlement_conserves(d: Seq<int>)
    ensures
        ({
            let f = apply_transfers(d, settlement_plan(d));
            &&& f.len() == d.len()
            &&& forall|i: int, j: int| 0 <= i < j < f.len() ==> f[i] == 0 || f[j] == 0
            &&& forall|i: int| 0 <= i < f.len() && f[i] != 0 ==> f[i] == sum_of(d)
            &&& -CENT_UNITS <= sum_of(d) <= CENT_UNITS ==> forall|i: int|
                0 <= i < f.len() ==> -CENT_UNITS <= #[trigger] f[i] <= CENT_UNITS
        }),
{
    lemma_working_set(d);
    lemma_working_set_values(d);
    lemma_balances_after(d, working_set(d));
}

proof fn lemma_steps_count(ws: Seq<(int, int)>, n: int)
    requires
        entries_valid(ws, n),
    ensures
        settle_from(ws).len() <= ws.len(),
        ws.len() > 0 && total(ws) <= CENT_UNITS ==> settle_from(ws).len() < ws.len(),
    decreases ws.len(),
{
    if ws.len() == 1 {
        lemma_last_step(ws);
        reveal_with_fuel(total, 2);
        assert(ws.drop_last() =~= Seq::<(int, int)>::empty());
    } else if ws.len() >= 2 {
        lemma_pair_step(ws, n);
        let t = last_in_order(ws);
        let rest = ws.remove(t);
        if ws[t].1 == 0 {
            lemma_steps_count(rest, n);
        } else {
            let b = first_in_order(rest);
            let next = after_receiving(rest, b, ws[t].1);
            lemma_steps_count(next, n);
        }
    }
}

/// A settlement never makes more payments than there are participants, and
/// when the diffs sum to at most one cent (so that no residual is reported)
/// it makes at most one fewer.
pub proof fn lemma_transfer_count(d: Seq<int>)
    ensures
        settlement_plan(d).len() <= d.len(),
        d.len() > 0 && sum_of(d) <= CENT_UNITS ==> settlement_plan(d).len() <= d.len() - 1,
{
    lemma_working_set(d);
    lemma_steps_count(working_set(d), d.len() as int);
}

proof fn lemma_steps_self_payment(ws: Seq<(int, int)>, n: int)
    requires
        entries_valid(ws, n),
    ensures
        forall|k: int|
            0 <= k < settle_from(ws).len() && #[trigger] settle_from(ws)[k].from == settle_from(ws)[k].to
                ==> k == settle_from(ws).len() - 1 && settle_from(ws)[k].amount > CENT_UNITS,
    decreases ws.len(),
{
    if ws.len() == 1 {
        lemma_last_step(ws);
    } else if ws.len() >= 2 {
        lemma_pair_step(ws, n);
        let t = last_in_order(ws);
        let rest = ws.remove(t);
        if ws[t].1 == 0 {
            lemma_steps_self_payment(rest, n);
        } else {
            let b = first_in_order(rest);
            let next = after_receiving(rest, b, ws[t].1);
            lemma_steps_self_payment(next, n);
            let plan = settle_from(ws);
            assert forall|k: int| 0 < k < plan.len() implies #[trigger] plan[k] == settle_from(next)[k - 1] by {}
        }
    }
}

/// Only the residual report pays a participant to themself: every payment
/// of the main loop goes between two different participants, and a payment
/// of a participant to themself is the last one and exceeds one cent.
pub proof fn lemma_no_self_payment(d: Seq<int>)
    ensures
        forall|k: int|
            0 <= k < settlement_plan(d).len() && #[trigger] settlement_plan(d)[k].from
                == settlement_plan(d)[k].to ==> k == settlement_plan(d).len() - 1
                && settlement_plan(d)[k].amount > CENT_UNITS,
{
    lemma_working_set(d);
    lemma_steps_self_payment(working_set(d), d.len() as int);
}

proof fn lemma_steps_positive(ws: Seq<(int, int)>, n: int)
    requires
        entries_valid(ws, n),
        ws.len() > 0 ==> total(ws) >= -1,
    ensures
        forall|k: int| 0 <= k < settle_from(ws).len() ==> #[trigger] settle_from(ws)[k].amount > 0,
    decreases ws.len(),
{
    if ws.len() == 1 {
        lemma_last_step(ws);
    } else if ws.len() >= 2 {
        lemma_pair_step(ws, n);
        lemma_last_in_order(ws);
        let t = last_in_order(ws);
        let rest = ws.remove(t);
        let d = ws[t].1;
        if d == 0 {
            lemma_steps_positive(rest, n);
        } else {
            let b = first_in_order(rest);
            let next = after_receiving(rest, b, d);
            if d < 0 {
                assert forall|j: int| 0 <= j < rest.len() implies #[trigger] rest[j].1 <= 0 by {
                    if j >= t {
                        assert(rest[j] == ws[j + 1]);
                    }
                }
                lemma_entries_above_total(rest);
                assert(rest[0].1 <= -1);
            }
            lemma_steps_positive(next, n);
            let plan = settle_from(ws);
            assert forall|k: int| 0 < k < plan.len() implies #[trigger] plan[k] == settle_from(next)[k - 1] by {}
        }
    }
}

/// Every payment is of a positive amount whenever the diffs sum to at least
/// minus one ten-thousandth; a larger negative drift can leave two owed
/// participants at the end, and the engine then pays a negative amount
/// between them.
pub proof fn lemma_payments_positive(d: Seq<int>)
    requires
        sum_of(d) >= -1,
    ensures
        forall|k: int| 0 <= k < settlement_plan(d).len() ==> #[trigger] settlement_plan(d)[k].amount > 0,
{
    lemma_working_set(d);
    lemma_steps_positive(working_set(d), d.len() as int);
}

/// Some entry of `ws` is for position `p`.
pub open spec fn holds_position(ws: Seq<(int, int)>, p: int) -> bool {
    exists|i: int| 0 <= i < ws.len() && #[trigger] ws[i].0 == p
}

proof fn lemma_steps_payers(ws: Seq<(int, int)>, n: int)
    requires
        entries_valid(ws, n),
    ensures
        forall|k: int|
            0 <= k < settle_from(ws).len() ==> holds_position(ws, #[trigger] settle_from(ws)[k].from),
        forall|i: int, j: int|
            0 <= i < j < settle_from(ws).len() ==> #[trigger] settle_from(ws)[i].from
                != #[trigger] settle_from(ws)[j].from,
    decreases ws.len(),
{
    if ws.len() == 1 {
        lemma_last_step(ws);
        assert(ws[0].0 == ws[0].0);
    } else if ws.len() >= 2 {
        lemma_pair_step(ws, n);
        let t = last_in_order(ws);
        let rest = ws.remove(t);
        assert forall|p: int| holds_position(rest, p) implies holds_position(ws, p) && p != ws[t].0 by {
            let i = choose|i: int| 0 <= i < rest.len() && #[trigger] rest[i].0 == p;
            if i < t {
                assert(ws[i].0 == p);
            } else {
                assert(ws[i + 1].0 == p);
            }
        }
        if ws[t].1 == 0 {
            lemma_steps_payers(rest, n);
        } else {
            let b = first_in_order(rest);
            let next = after_receiving(rest, b, ws[t].1);
            lemma_steps_payers(next, n);
            assert forall|p: int| holds_position(next, p) implies holds_position(rest, p) by {
                let i = choose|i: int| 0 <= i < next.len() && #[trigger] next[i].0 == p;
                if rest[b].1 + ws[t].1 == 0 {
                    if i < b {
                        assert(rest[i].0 == p);
                    } else {
                        assert(rest[i + 1].0 == p);
                    }
                } else {
                    assert(rest[i].0 == p);
                }
            }
            let plan = settle_from(ws);
            assert forall|k: int| 0 < k < plan.len() implies #[trigger] plan[k] == settle_from(next)[k - 1] by {}
            assert(ws[t].0 == plan[0].from);
        }
    }
}

/// Nobody pays twice: the payers of a settlement plan are all different
/// participants.
pub proof fn lemma_payers_distinct(d: Seq<int>)
    ensures
        forall|i: int, j: int|
            0 <= i < j < settlement_plan(d).len() ==> #[trigger] settlement_plan(d)[i].from
                != #[trigger] settlement_plan(d)[j].from,
{
    lemma_working_set(d);
    lemma_steps_payers(working_set(d), d.len() as int);
}

proof fn lemma_steps_residual(ws: Seq<(int, int)>, n: int)
    requires
        entries_valid(ws, n),
        ws.len() > 0,
    ensures
        total(ws) > CENT_UNITS ==> settle_from(ws).len() > 0 && settle_from(ws).last().from
            == settle_from(ws).last().to && settle_from(ws).last().amount == total(ws),
        total(ws) <= CENT_UNITS ==> forall|k: int|
            0 <= k < settle_from(ws).len() ==> #[trigger] settle_from(ws)[k].from != settle_from(ws)[k].to,
    decreases ws.len(),
{
    if ws.len() == 1 {
        lemma_last_step(ws);
        assert(total(ws) == ws[0].1) by {
            reveal_with_fuel(total, 2);
            assert(ws.drop_last() =~= Seq::<(int, int)>::empty());
        }
    } else {
        lemma_pair_step(ws, n);
        let t = last_in_order(ws);
        let rest = ws.remove(t);
        if ws[t].1 == 0 {
            lemma_steps_residual(rest, n);
        } else {
            let b = first_in_order(rest);
            let next = after_receiving(rest, b, ws[t].1);
            let plan = settle_from(ws);
            if next.len() == 0 {
                assert(settle_from(next) =~= Seq::<PlannedTransfer>::empty());
                assert(total(next) == 0);
            } else {
                lemma_steps_residual(next, n);
            }
            assert forall|k: int| 0 < k < plan.len() implies #[trigger] plan[k] == settle_from(next)[k - 1] by {}
        }
    }
}

/// The residual is reported exactly when the diffs sum to more than one
/// cent: the last payment is then the residual participant paying themself
/// the sum of all diffs, and it is the only payment of anyone to themself.
/// Otherwise nobody pays themself.
pub proof fn lemma_residual_report(d: Seq<int>)
    ensures
        sum_of(d) > CENT_UNITS ==> ({
            let plan = settlement_plan(d);
            &&& plan.len() > 0
            &&& plan.last().from == plan.last().to
            &&& plan.last().amount == sum_of(d)
            &&& forall|k: int| 0 <= k < plan.len() - 1 ==> #[trigger] plan[k].from != plan[k].to
        }),
        sum_of(d) <= CENT_UNITS ==> forall|k: int|
            0 <= k < settlement_plan(d).len() ==> #[trigger] settlement_plan(d)[k].from
                != settlement_plan(d)[k].to,
{
    lemma_working_set(d);
    lemma_no_self_payment(d);
    if d.len() == 0 {
        assert(settlement_plan(d) =~= Seq::<PlannedTransfer>::empty());
    } else {
        lemma_steps_residual(working_set(d), d.len() as int);
    }
}

/// Two results that both carry out the plan for the same input are the same
/// payments in the same order: running the engine twice on one input gives
/// one answer.
pub proof fn lemma_settlement_deterministic(
    r1: Seq<OutingResult>,
    r2: Seq<OutingResult>,
    plan: Seq<PlannedTransfer>,
    names: Seq<Seq<char>>,
)
    requires
        carries_out(r1, plan, names),
        carries_out(r2, plan, names),
    ensures
        r1.len() == r2.len(),
        forall|k: int|
            0 <= k < r1.len() ==> (#[trigger] r1[k]).from@ == r2[k].from@ && r1[k].to@ == r2[k].to@
                && r1[k].amount == r2[k].amount,
{
    assert forall|k: int| 0 <= k < r1.len() implies (#[trigger] r1[k]).from@ == r2[k].from@ && r1[k].to@
        == r2[k].to@ && r1[k].amount == r2[k].amount by {
        assert(pays_as_planned(r1[k], plan[k], names));
        assert(pays_as_planned(r2[k], plan[k], names));
    }
}

} // verus!
