use spark_matcher::book::OrderManager;
use spark_matcher::engine::Match;
use spark_matcher::matcher::run_match_cycle;
use spark_matcher::model::{OrderType, SpotOrder};
use spark_matcher::phantom::{filter_matches, IgnoreList};

fn order(id: &str, side: OrderType, price: u128, amount: u128, ts: u64) -> SpotOrder {
    SpotOrder {
        id: String::from(id),
        user: String::from("trader"),
        asset: String::from("BTC"),
        amount,
        price,
        timestamp: ts,
        order_type: side,
    }
}

#[test]
fn phantom_sell_leg_is_evicted_and_buy_untouched() {
    let mut book = OrderManager::new();
    book.add_order(order("b1", OrderType::Buy, 100, 5, 1));
    book.add_order(order("s1", OrderType::Sell, 90, 5, 1));
    // The collaborator reports the sell leg gone on-chain.
    let phantoms = vec![String::from("s1")];
    let ms = run_match_cycle(&mut book, &phantoms);
    // No settlement batch entry for the pair.
    assert!(ms.is_empty());
    // The sell order is evicted; the buy keeps its full size.
    let (buys, sells) = book.get_all_orders();
    assert!(sells.is_empty());
    assert_eq!(buys.len(), 1);
    assert_eq!(buys[0].id, "b1");
    assert_eq!(buys[0].amount, 5);
}

#[test]
fn eviction_twice_is_a_no_op() {
    let mut book = OrderManager::new();
    book.add_order(order("b1", OrderType::Buy, 100, 5, 1));
    book.add_order(order("ghost", OrderType::Sell, 90, 5, 1));
    book.evict_order("ghost");
    let (buys1, sells1) = book.get_all_orders();
    book.evict_order("ghost");
    let (buys2, sells2) = book.get_all_orders();
    assert_eq!(buys1.len(), buys2.len());
    assert_eq!(sells1.len(), sells2.len());
    assert!(sells2.is_empty());
    assert_eq!(buys2[0].id, "b1");
    assert_eq!(buys2[0].amount, 5);
}

#[test]
fn clean_cycle_matches_and_applies_fills() {
    let mut book = OrderManager::new();
    book.add_order(order("b1", OrderType::Buy, 100, 10, 1));
    book.add_order(order("s1", OrderType::Sell, 95, 3, 1));
    book.add_order(order("s2", OrderType::Sell, 100, 4, 2));
    let ms = run_match_cycle(&mut book, &Vec::new());
    assert_eq!(ms.len(), 2);
    assert_eq!(ms[0].sell_id, "s1");
    assert_eq!(ms[0].amount, 3);
    assert_eq!(ms[1].sell_id, "s2");
    assert_eq!(ms[1].amount, 4);
    // Fully filled orders are dropped; the buy rests with its remainder.
    let (buys, sells) = book.get_all_orders();
    assert!(sells.is_empty());
    assert_eq!(buys.len(), 1);
    assert_eq!(buys[0].amount, 3);
}

#[test]
fn filter_matches_drops_only_phantom_legs() {
    let ms = vec![
        Match { buy_id: String::from("b1"), sell_id: String::from("s1"), amount: 1 },
        Match { buy_id: String::from("b2"), sell_id: String::from("s2"), amount: 2 },
        Match { buy_id: String::from("b3"), sell_id: String::from("s1"), amount: 3 },
    ];
    let phantoms = vec![String::from("s1")];
    let live = filter_matches(&ms, &phantoms);
    assert_eq!(live.len(), 1);
    assert_eq!(live[0].buy_id, "b2");
    assert_eq!(live[0].amount, 2);
}

#[test]
fn ignore_list_remembers_ids() {
    let mut list = IgnoreList::new();
    assert!(!list.contains("x"));
    list.add(String::from("x"));
    assert!(list.contains("x"));
    assert!(!list.contains("y"));
    assert_eq!(list.as_ids().len(), 1);
}
