use card_pricer::aggregate::{total, TotalError};
use card_pricer::arbitrate::{arbitrate, ArbitrationStrategy, PriceCandidate};
use card_pricer::pipeline::{collect_in_order, price_record, reconcile};
use card_pricer::record::{LookupError, LookupResult, Outcome, PricedRecord, Record};

fn candidates(values: &[u64]) -> Vec<PriceCandidate> {
    values.iter().map(|&value| PriceCandidate { value }).collect()
}

fn record(identifier: &str, count: Option<u32>) -> Record {
    Record { identifier: identifier.to_string(), count }
}

#[test]
fn arbitrate_min_is_lower_bound_and_member() {
    let cands = candidates(&[250, 100, 300, 100]);
    let price = arbitrate(&cands, ArbitrationStrategy::MinValue);
    assert_eq!(price, 100);
    assert!(cands.iter().all(|c| price <= c.value));
    assert!(cands.iter().any(|c| price == c.value));
}

#[test]
fn arbitrate_max_is_upper_bound_and_member() {
    let cands = candidates(&[250, 100, 300, 100]);
    let price = arbitrate(&cands, ArbitrationStrategy::MaxValue);
    assert_eq!(price, 300);
    assert!(cands.iter().all(|c| price >= c.value));
    assert!(cands.iter().any(|c| price == c.value));
}

#[test]
fn arbitrate_singleton_same_under_both_strategies() {
    let cands = candidates(&[777]);
    assert_eq!(arbitrate(&cands, ArbitrationStrategy::MinValue), 777);
    assert_eq!(arbitrate(&cands, ArbitrationStrategy::MaxValue), 777);
}

#[test]
fn strategy_accepts_short_and_long_forms() {
    assert_eq!(
        ArbitrationStrategy::from_str("Min"),
        Some(ArbitrationStrategy::MinValue)
    );
    assert_eq!(
        ArbitrationStrategy::from_str("MinValue"),
        Some(ArbitrationStrategy::MinValue)
    );
    assert_eq!(
        ArbitrationStrategy::from_str("Max"),
        Some(ArbitrationStrategy::MaxValue)
    );
    assert_eq!(
        ArbitrationStrategy::from_str("MaxValue"),
        Some(ArbitrationStrategy::MaxValue)
    );
}

#[test]
fn strategy_rejects_unknown_names() {
    assert_eq!(ArbitrationStrategy::from_str(""), None);
    assert_eq!(ArbitrationStrategy::from_str("min"), None);
    assert_eq!(ArbitrationStrategy::from_str("Median"), None);
    assert_eq!(ArbitrationStrategy::from_str("MinValue "), None);
}

#[test]
fn price_record_arbitrates_candidates() {
    let out = price_record(
        record("A", Some(2)),
        Ok(candidates(&[100, 300])),
        ArbitrationStrategy::MinValue,
    );
    assert_eq!(out.identifier, "A");
    assert_eq!(out.count, Some(2));
    assert_eq!(out.outcome, Outcome::Priced(100));
}

#[test]
fn price_record_empty_candidates_is_price_unavailable() {
    let out = price_record(record("C", None), Ok(vec![]), ArbitrationStrategy::MinValue);
    assert_eq!(out.outcome, Outcome::PriceUnavailable);
}

#[test]
fn price_record_failed_lookup_is_lookup_failed() {
    let out = price_record(
        record("D", None),
        Err(LookupError::Transport),
        ArbitrationStrategy::MaxValue,
    );
    assert_eq!(out.outcome, Outcome::LookupFailed(LookupError::Transport));
}

#[test]
fn reconcile_yields_one_outcome_per_record_in_order() {
    let records = vec![record("A", Some(2)), record("B", None), record("C", Some(1))];
    let lookups: Vec<LookupResult> = vec![
        Ok(candidates(&[100, 300])),
        Err(LookupError::Timeout),
        Ok(vec![]),
    ];
    let out = reconcile(records, lookups, ArbitrationStrategy::MinValue);
    assert_eq!(out.len(), 3);
    assert_eq!(out[0].identifier, "A");
    assert_eq!(out[0].outcome, Outcome::Priced(100));
    assert_eq!(out[1].identifier, "B");
    assert_eq!(out[1].outcome, Outcome::LookupFailed(LookupError::Timeout));
    assert_eq!(out[2].identifier, "C");
    assert_eq!(out[2].outcome, Outcome::PriceUnavailable);
}

#[test]
fn min_strategy_scenario_prices_and_total() {
    let records = vec![record("A", Some(2)), record("B", None)];
    let lookups: Vec<LookupResult> = vec![Ok(candidates(&[100, 300])), Ok(candidates(&[200]))];
    let out = reconcile(records, lookups, ArbitrationStrategy::MinValue);
    assert_eq!(out.len(), 2);
    assert_eq!(out[0].identifier, "A");
    assert_eq!(out[0].count, Some(2));
    assert_eq!(out[0].outcome, Outcome::Priced(100));
    assert_eq!(out[1].identifier, "B");
    assert_eq!(out[1].count, None);
    assert_eq!(out[1].outcome, Outcome::Priced(200));
    // 2 * 1.00 + 1 * 2.00 = 4.00, in cents
    assert_eq!(total(&out), Ok(400));
}

#[test]
fn max_strategy_scenario_prices_and_total() {
    let records = vec![record("A", Some(2)), record("B", None)];
    let lookups: Vec<LookupResult> = vec![Ok(candidates(&[100, 300])), Ok(candidates(&[200]))];
    let out = reconcile(records, lookups, ArbitrationStrategy::MaxValue);
    assert_eq!(out[0].outcome, Outcome::Priced(300));
    assert_eq!(out[1].outcome, Outcome::Priced(200));
    // 2 * 3.00 + 1 * 2.00 = 8.00, in cents
    assert_eq!(total(&out), Ok(800));
}

#[test]
fn zero_candidates_does_not_abort_later_records() {
    let records = vec![record("C", None), record("E", None)];
    let lookups: Vec<LookupResult> = vec![Ok(vec![]), Ok(candidates(&[50]))];
    let out = reconcile(records, lookups, ArbitrationStrategy::MinValue);
    assert_eq!(out[0].outcome, Outcome::PriceUnavailable);
    assert_eq!(out[1].outcome, Outcome::Priced(50));
}

#[test]
fn transport_failure_does_not_abort_later_records() {
    let records = vec![record("D", None), record("E", None)];
    let lookups: Vec<LookupResult> = vec![Err(LookupError::Transport), Ok(candidates(&[50]))];
    let out = reconcile(records, lookups, ArbitrationStrategy::MinValue);
    assert_eq!(out[0].outcome, Outcome::LookupFailed(LookupError::Transport));
    assert_eq!(out[1].outcome, Outcome::Priced(50));
}

#[test]
fn collect_in_order_restores_original_positions() {
    let completions: Vec<(usize, &str)> = vec![(2, "c"), (0, "a"), (3, "d"), (1, "b")];
    let out = collect_in_order(4, completions);
    assert_eq!(out, vec!["a", "b", "c", "d"]);
}

#[test]
fn output_order_ignores_completion_order() {
    // lookups complete in reverse order; output still follows input order
    let records = vec![record("A", None), record("B", None), record("C", None)];
    let completions: Vec<(usize, LookupResult)> = vec![
        (2, Ok(candidates(&[30]))),
        (1, Ok(candidates(&[20]))),
        (0, Ok(candidates(&[10]))),
    ];
    let lookups = collect_in_order(3, completions);
    let out = reconcile(records, lookups, ArbitrationStrategy::MinValue);
    assert_eq!(out[0].identifier, "A");
    assert_eq!(out[0].outcome, Outcome::Priced(10));
    assert_eq!(out[1].identifier, "B");
    assert_eq!(out[1].outcome, Outcome::Priced(20));
    assert_eq!(out[2].identifier, "C");
    assert_eq!(out[2].outcome, Outcome::Priced(30));
}

#[test]
fn total_counts_default_to_one() {
    let out = vec![
        PricedRecord { identifier: "A".to_string(), count: Some(3), outcome: Outcome::Priced(150) },
        PricedRecord { identifier: "B".to_string(), count: None, outcome: Outcome::Priced(25) },
    ];
    assert_eq!(total(&out), Ok(3 * 150 + 25));
}

#[test]
fn total_aborts_on_unpriced_record() {
    let out = vec![
        PricedRecord { identifier: "A".to_string(), count: Some(1), outcome: Outcome::Priced(150) },
        PricedRecord {
            identifier: "B".to_string(),
            count: None,
            outcome: Outcome::LookupFailed(LookupError::Status),
        },
    ];
    assert_eq!(total(&out), Err(TotalError::Unpriced));
}

#[test]
fn total_reports_overflow() {
    let out = vec![
        PricedRecord {
            identifier: "A".to_string(),
            count: Some(2),
            outcome: Outcome::Priced(u64::MAX),
        },
    ];
    assert_eq!(total(&out), Err(TotalError::Overflow));
}

#[test]
fn total_of_empty_run_is_zero() {
    assert_eq!(total(&vec![]), Ok(0));
}
