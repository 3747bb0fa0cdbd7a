use spark_matcher::engine::cross;
use spark_matcher::model::{OrderType, SpotOrder};

fn order(id: &str, side: OrderType, price: u128, amount: u128, ts: u64) -> SpotOrder {
    SpotOrder {
        id: String::from(id),
        user: String::from("trader"),
        asset: String::from("BTC"),
        amount,
        price,
        timestamp: ts,
        order_type: side,
    }
}

#[test]
fn full_fill_when_bid_above_ask() {
    let mut buys = vec![order("b1", OrderType::Buy, 100, 5, 1)];
    let mut sells = vec![order("s1", OrderType::Sell, 90, 5, 1)];
    let ms = cross(&mut buys, &mut sells);
    assert_eq!(ms.len(), 1);
    assert_eq!(ms[0].buy_id, "b1");
    assert_eq!(ms[0].sell_id, "s1");
    assert_eq!(ms[0].amount, 5);
    assert_eq!(buys[0].amount, 0);
    assert_eq!(sells[0].amount, 0);
}

#[test]
fn cheaper_sell_fills_first() {
    let mut buys = vec![order("b1", OrderType::Buy, 100, 10, 1)];
    // Sell side in priority order: lowest price first.
    let mut sells = vec![
        order("s95", OrderType::Sell, 95, 3, 2),
        order("s100", OrderType::Sell, 100, 4, 1),
    ];
    let ms = cross(&mut buys, &mut sells);
    assert_eq!(ms.len(), 2);
    assert_eq!(ms[0].sell_id, "s95");
    assert_eq!(ms[0].amount, 3);
    assert_eq!(ms[1].sell_id, "s100");
    assert_eq!(ms[1].amount, 4);
    // The buy is left with 10 - 3 - 4 = 3 unmatched.
    assert_eq!(buys[0].amount, 3);
    assert_eq!(sells[0].amount, 0);
    assert_eq!(sells[1].amount, 0);
}

#[test]
fn no_match_when_bid_below_ask() {
    let mut buys = vec![order("b1", OrderType::Buy, 80, 5, 1)];
    let mut sells = vec![order("s1", OrderType::Sell, 90, 5, 1)];
    let ms = cross(&mut buys, &mut sells);
    assert!(ms.is_empty());
    assert_eq!(buys[0].amount, 5);
    assert_eq!(sells[0].amount, 5);
}

#[test]
fn equal_prices_cross() {
    let mut buys = vec![order("b1", OrderType::Buy, 100, 7, 1)];
    let mut sells = vec![order("s1", OrderType::Sell, 100, 4, 1)];
    let ms = cross(&mut buys, &mut sells);
    assert_eq!(ms.len(), 1);
    assert_eq!(ms[0].amount, 4);
    assert_eq!(buys[0].amount, 3);
    assert_eq!(sells[0].amount, 0);
}

#[test]
fn zero_size_orders_are_skipped_without_a_match() {
    let mut buys = vec![
        order("b0", OrderType::Buy, 120, 0, 1),
        order("b1", OrderType::Buy, 100, 5, 2),
    ];
    let mut sells = vec![
        order("s0", OrderType::Sell, 80, 0, 1),
        order("s1", OrderType::Sell, 90, 5, 2),
    ];
    let ms = cross(&mut buys, &mut sells);
    assert_eq!(ms.len(), 1);
    assert_eq!(ms[0].buy_id, "b1");
    assert_eq!(ms[0].sell_id, "s1");
    assert_eq!(ms[0].amount, 5);
    for m in &ms {
        assert!(m.amount > 0);
    }
}

#[test]
fn time_priority_at_equal_price() {
    // Two buys at the same price: the earlier one must fill first.
    let mut buys = vec![
        order("early", OrderType::Buy, 100, 4, 1),
        order("late", OrderType::Buy, 100, 4, 2),
    ];
    let mut sells = vec![order("s1", OrderType::Sell, 95, 6, 1)];
    let ms = cross(&mut buys, &mut sells);
    assert_eq!(ms.len(), 2);
    assert_eq!(ms[0].buy_id, "early");
    assert_eq!(ms[0].amount, 4);
    assert_eq!(ms[1].buy_id, "late");
    assert_eq!(ms[1].amount, 2);
    assert_eq!(buys[0].amount, 0);
    assert_eq!(buys[1].amount, 2);
}

#[test]
fn step_count_stays_within_sum_of_sides() {
    let mut buys = vec![
        order("b1", OrderType::Buy, 105, 3, 1),
        order("b2", OrderType::Buy, 104, 3, 2),
        order("b3", OrderType::Buy, 103, 3, 3),
    ];
    let mut sells = vec![
        order("s1", OrderType::Sell, 100, 2, 1),
        order("s2", OrderType::Sell, 101, 2, 2),
        order("s3", OrderType::Sell, 102, 2, 3),
    ];
    let n = buys.len() + sells.len();
    let ms = cross(&mut buys, &mut sells);
    assert!(ms.len() <= n);
    // Conservation: total bought equals total sold equals total filled.
    let filled: u128 = ms.iter().map(|m| m.amount).sum();
    let bought: u128 = 9 - buys.iter().map(|o| o.amount).sum::<u128>();
    let sold: u128 = 6 - sells.iter().map(|o| o.amount).sum::<u128>();
    assert_eq!(filled, bought);
    assert_eq!(filled, sold);
}

#[test]
fn empty_sides_produce_no_matches() {
    let mut buys: Vec<SpotOrder> = Vec::new();
    let mut sells = vec![order("s1", OrderType::Sell, 90, 5, 1)];
    assert!(cross(&mut buys, &mut sells).is_empty());
    let mut buys2 = vec![order("b1", OrderType::Buy, 90, 5, 1)];
    let mut sells2: Vec<SpotOrder> = Vec::new();
    assert!(cross(&mut buys2, &mut sells2).is_empty());
}
