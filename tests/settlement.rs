use birdie::{compute_diffs, compute_settlement, settle_diffs, Amount, OutingResult, PersonDiff, PersonTotal};

fn total(name: &str, units: i64) -> PersonTotal {
    PersonTotal { name: name.to_string(), amount_paid: Amount::from_units(units) }
}

fn diff(name: &str, units: i64) -> PersonDiff {
    PersonDiff { name: name.to_string(), diff_from_avg: Amount::from_units(units) }
}

fn payment(from: &str, to: &str, units: i64) -> OutingResult {
    OutingResult { from: from.to_string(), to: to.to_string(), amount: Amount::from_units(units) }
}

fn units_of(diffs: &[PersonDiff]) -> Vec<i64> {
    diffs.iter().map(|d| d.diff_from_avg.units()).collect()
}

fn three_way() -> Vec<PersonTotal> {
    vec![total("A", 246500), total("B", 190200), total("C", 250500)]
}

/// Applies each payment to the diffs: the payer's diff goes down, the
/// payee's up.
fn apply(diffs: &[PersonDiff], payments: &[OutingResult]) -> Vec<i64> {
    let mut bal: Vec<i64> = units_of(diffs);
    for p in payments {
        let f = diffs.iter().position(|d| d.name == p.from).unwrap();
        bal[f] -= p.amount.units();
        let t = diffs.iter().position(|d| d.name == p.to).unwrap();
        bal[t] += p.amount.units();
    }
    bal
}

#[test]
fn empty_outing_settles_with_nothing() {
    assert_eq!(compute_diffs(&vec![]), vec![]);
    assert_eq!(compute_settlement(&vec![]), vec![]);
}

#[test]
fn balanced_pair_settles_with_nothing() {
    let totals = vec![total("A", 100000), total("B", 100000)];
    assert_eq!(compute_diffs(&totals), vec![diff("A", 0), diff("B", 0)]);
    assert_eq!(compute_settlement(&totals), vec![]);
}

#[test]
fn three_way_diffs_round_to_four_places() {
    let diffs = compute_diffs(&three_way());
    assert_eq!(diffs, vec![diff("A", -17433), diff("B", 38867), diff("C", -21433)]);
}

#[test]
fn three_way_settlement() {
    let expected = vec![payment("B", "C", 38867), payment("C", "A", 17434)];
    assert_eq!(compute_settlement(&three_way()), expected);
    assert_eq!(settle_diffs(&compute_diffs(&three_way())), expected);
}

#[test]
fn diffs_sum_to_zero_within_rounding() {
    let cases = vec![
        three_way(),
        vec![total("A", 100000), total("B", 0), total("C", 0)],
        vec![total("A", 1), total("B", 0), total("C", 0), total("D", 0), total("E", 0), total("F", 0), total("G", 0)],
        vec![total("A", 12345), total("B", 67890), total("C", 5), total("D", 99999)],
    ];
    for totals in cases {
        let n = totals.len() as i64;
        let sum: i64 = units_of(&compute_diffs(&totals)).iter().sum();
        assert!(2 * sum.abs() <= n, "sum {} for {} participants", sum, n);
    }
}

#[test]
fn rounding_takes_halves_away_from_zero() {
    let diffs = compute_diffs(&vec![total("A", 0), total("B", 1)]);
    assert_eq!(units_of(&diffs), vec![1, -1]);
    let diffs = compute_diffs(&vec![total("A", 0), total("B", 3)]);
    assert_eq!(units_of(&diffs), vec![2, -2]);
    let diffs = compute_diffs(&vec![total("A", 0), total("B", 0), total("C", 1)]);
    assert_eq!(units_of(&diffs), vec![0, 0, -1]);
}

#[test]
fn participant_who_paid_nothing_owes_the_average() {
    let diffs = compute_diffs(&vec![total("A", 90000), total("B", 0), total("C", 0)]);
    assert_eq!(units_of(&diffs), vec![-60000, 30000, 30000]);
}

#[test]
fn largest_amounts_do_not_overflow() {
    let diffs = compute_diffs(&vec![total("A", i64::MAX), total("B", 0)]);
    assert_eq!(units_of(&diffs), vec![-4611686018427387904, 4611686018427387904]);
    assert_eq!(settle_diffs(&diffs), vec![payment("B", "A", 4611686018427387904)]);
    let diffs = compute_diffs(&vec![total("A", i64::MAX), total("B", i64::MAX)]);
    assert_eq!(units_of(&diffs), vec![0, 0]);
}

#[test]
fn sub_cent_residual_is_dropped() {
    let totals = vec![total("A", 100000), total("B", 0), total("C", 0)];
    let diffs = compute_diffs(&totals);
    assert_eq!(units_of(&diffs), vec![-66667, 33333, 33333]);
    let payments = compute_settlement(&totals);
    assert_eq!(payments, vec![payment("C", "A", 33333), payment("B", "A", 33333)]);
    assert_eq!(apply(&diffs, &payments), vec![-1, 0, 0]);
}

#[test]
fn residual_above_a_cent_is_a_self_payment() {
    let diffs = vec![diff("A", 500), diff("B", -200)];
    let payments = settle_diffs(&diffs);
    assert_eq!(payments, vec![payment("A", "B", 500), payment("B", "B", 300)]);
}

#[test]
fn residual_of_exactly_a_cent_is_dropped() {
    assert_eq!(settle_diffs(&vec![diff("A", 100)]), vec![]);
    assert_eq!(settle_diffs(&vec![diff("A", 101)]), vec![payment("A", "A", 101)]);
    assert_eq!(settle_diffs(&vec![diff("A", -500)]), vec![]);
}

#[test]
fn ties_break_by_input_position() {
    let diffs = vec![diff("A", -10), diff("B", -10), diff("C", 10), diff("D", 10)];
    assert_eq!(settle_diffs(&diffs), vec![payment("D", "A", 10), payment("C", "B", 10)]);
}

#[test]
fn creditor_collects_from_several_debtors() {
    let diffs = vec![diff("A", -300), diff("B", 100), diff("C", 200)];
    assert_eq!(settle_diffs(&diffs), vec![payment("C", "A", 200), payment("B", "A", 100)]);
}

#[test]
fn settled_participants_are_left_settled() {
    let diffs = vec![diff("A", 0), diff("B", 250), diff("C", -250), diff("D", 0)];
    assert_eq!(settle_diffs(&diffs), vec![payment("B", "C", 250)]);
}

#[test]
fn payments_zero_every_diff_but_the_residual() {
    let diffs = vec![diff("A", -5000), diff("B", 1200), diff("C", 3100), diff("D", -1300), diff("E", 2000)];
    let payments = settle_diffs(&diffs);
    assert_eq!(apply(&diffs, &payments), vec![0, 0, 0, 0, 0]);
    let diffs = compute_diffs(&three_way());
    let payments = settle_diffs(&diffs);
    let after = apply(&diffs, &payments);
    assert_eq!(after.iter().filter(|&&b| b != 0).count(), 1);
    assert_eq!(after, vec![1, 0, 0]);
}

#[test]
fn at_most_one_payment_fewer_than_participants() {
    let diffs = vec![diff("A", -5000), diff("B", 1200), diff("C", 3100), diff("D", -1300), diff("E", 2000)];
    assert!(settle_diffs(&diffs).len() <= diffs.len() - 1);
    assert!(compute_settlement(&three_way()).len() <= 2);
}

#[test]
fn main_loop_never_pays_oneself() {
    let diffs = vec![diff("A", -5000), diff("B", 1200), diff("C", 3100), diff("D", -1300), diff("E", 2000)];
    for p in settle_diffs(&diffs) {
        assert_ne!(p.from, p.to);
    }
    for p in compute_settlement(&three_way()) {
        assert_ne!(p.from, p.to);
    }
}

#[test]
fn settling_twice_gives_the_same_payments() {
    let diffs = vec![diff("A", -10), diff("B", -10), diff("C", 10), diff("D", 10)];
    assert_eq!(settle_diffs(&diffs), settle_diffs(&diffs));
    assert_eq!(compute_settlement(&three_way()), compute_settlement(&three_way()));
}

#[test]
fn payments_are_positive_without_negative_drift() {
    let diffs = vec![diff("A", -5000), diff("B", 1200), diff("C", 3100), diff("D", -1300), diff("E", 2000)];
    assert!(settle_diffs(&diffs).iter().all(|p| p.amount.units() > 0));
    assert!(compute_settlement(&three_way()).iter().all(|p| p.amount.units() > 0));
}

#[test]
fn negative_drift_of_two_units_gives_a_negative_payment() {
    let diffs = vec![diff("A", -1), diff("B", -1), diff("C", 1), diff("D", -1)];
    assert_eq!(settle_diffs(&diffs), vec![payment("C", "A", 1), payment("D", "B", -1)]);
}

#[test]
fn zero_diff_participants_can_be_paid() {
    let totals = vec![total("A", 1), total("B", 1), total("C", 0)];
    let diffs = compute_diffs(&totals);
    assert_eq!(units_of(&diffs), vec![0, 0, 1]);
    let payments = compute_settlement(&totals);
    assert_eq!(payments, vec![payment("C", "A", 1), payment("A", "B", 1)]);
    assert_eq!(apply(&diffs, &payments), vec![0, 1, 0]);
}

#[test]
fn zero_diff_debtor_pays_nothing() {
    let diffs = vec![diff("A", -7), diff("B", 0), diff("C", 7), diff("D", 0)];
    assert_eq!(settle_diffs(&diffs), vec![payment("C", "A", 7)]);
}

#[test]
fn nobody_pays_twice() {
    let diffs = vec![diff("A", -5000), diff("B", 1200), diff("C", 3100), diff("D", -1300), diff("E", 2000)];
    let payments = settle_diffs(&diffs);
    for (i, p) in payments.iter().enumerate() {
        for q in &payments[i + 1..] {
            assert_ne!(p.from, q.from);
        }
    }
}

#[test]
fn residual_report_is_the_sum_of_diffs() {
    let diffs = vec![diff("A", 900), diff("B", -300), diff("C", -400)];
    let payments = settle_diffs(&diffs);
    assert_eq!(payments, vec![payment("A", "C", 900), payment("C", "B", 500), payment("B", "B", 200)]);
    assert_eq!(payments.iter().filter(|p| p.from == p.to).count(), 1);
}
