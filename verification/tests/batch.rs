use spark_matcher::batch::{chunk_matches, plan_retries, settle_outcomes};
use spark_matcher::engine::Match;
use spark_matcher::logger::{total_matched, TransactionLog};

fn pair(b: &str, s: &str, amount: u128) -> Match {
    Match { buy_id: String::from(b), sell_id: String::from(s), amount }
}

#[test]
fn chunks_respect_the_bound_and_the_order() {
    let ms = vec![
        pair("b1", "s1", 1),
        pair("b2", "s2", 2),
        pair("b3", "s3", 3),
        pair("b4", "s4", 4),
        pair("b5", "s5", 5),
    ];
    let chunks = chunk_matches(&ms, 2);
    assert_eq!(chunks.len(), 3);
    assert_eq!(chunks[0].len(), 2);
    assert_eq!(chunks[1].len(), 2);
    assert_eq!(chunks[2].len(), 1);
    assert_eq!(chunks[0][0].buy_id, "b1");
    assert_eq!(chunks[1][0].buy_id, "b3");
    assert_eq!(chunks[2][0].buy_id, "b5");
}

#[test]
fn one_chunk_when_the_bound_covers_all() {
    let ms = vec![pair("b1", "s1", 1), pair("b2", "s2", 2)];
    let chunks = chunk_matches(&ms, 10);
    assert_eq!(chunks.len(), 1);
    assert_eq!(chunks[0].len(), 2);
}

#[test]
fn no_chunks_for_no_matches() {
    let ms: Vec<Match> = Vec::new();
    assert!(chunk_matches(&ms, 3).is_empty());
}

#[test]
fn a_failing_pair_does_not_block_the_rest() {
    // A batch of three pairs failed as a whole; the fallback resubmits each
    // pair alone, and only the middle one fails again.
    let batch = vec![pair("b1", "s1", 1), pair("b2", "s2", 2), pair("b3", "s3", 3)];
    let plan = plan_retries(&batch);
    assert_eq!(plan.len(), 3);
    for (i, sub) in plan.iter().enumerate() {
        assert_eq!(sub.len(), 1);
        assert_eq!(sub[0].buy_id, batch[i].buy_id);
    }
    let results = vec![true, false, true];
    let (settled, failed) = settle_outcomes(&plan, &results);
    let settled_ids: Vec<&str> = settled.iter().map(|m| m.buy_id.as_str()).collect();
    assert_eq!(settled_ids, vec!["b1", "b3"]);
    assert_eq!(failed.len(), 1);
    assert_eq!(failed[0].buy_id, "b2");
}

#[test]
fn total_matched_sums_the_fills() {
    let ms = vec![pair("b1", "s1", 3), pair("b2", "s2", 4)];
    assert_eq!(total_matched(&ms), Some(7));
    let none: Vec<Match> = Vec::new();
    assert_eq!(total_matched(&none), Some(0));
}

#[test]
fn total_matched_reports_overflow() {
    let ms = vec![pair("b1", "s1", u128::MAX), pair("b2", "s2", 1)];
    assert_eq!(total_matched(&ms), None);
}

#[test]
fn transaction_log_carries_the_cycle_stats() {
    let log = TransactionLog {
        total_amount: 7,
        matches_len: 2,
        tx_id: String::from("0xabc"),
        gas_used: 21000,
        match_time_ms: 5,
        buy_orders: 1,
        sell_orders: 2,
        receive_time_ms: 10,
        post_time_ms: 20,
    };
    assert_eq!(log.total_amount, 7);
    assert_eq!(log.matches_len, 2);
    assert_eq!(log.tx_id, "0xabc");
}
