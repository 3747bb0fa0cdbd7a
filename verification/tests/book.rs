use spark_matcher::book::OrderManager;
use spark_matcher::model::{OrderType, SpotOrder};

fn order(id: &str, side: OrderType, price: u128, amount: u128, ts: u64) -> SpotOrder {
    SpotOrder {
        id: String::from(id),
        user: String::from("trader"),
        asset: String::from("BTC"),
        amount,
        price,
        timestamp: ts,
        order_type: side,
    }
}

#[test]
fn buys_iterate_best_price_first() {
    let mut book = OrderManager::new();
    book.add_order(order("a", OrderType::Buy, 90, 1, 1));
    book.add_order(order("b", OrderType::Buy, 110, 1, 2));
    book.add_order(order("c", OrderType::Buy, 100, 1, 3));
    let buys = book.get_all_buy_orders();
    let prices: Vec<u128> = buys.iter().map(|o| o.price).collect();
    assert_eq!(prices, vec![110, 100, 90]);
}

#[test]
fn sells_iterate_cheapest_first() {
    let mut book = OrderManager::new();
    book.add_order(order("a", OrderType::Sell, 90, 1, 1));
    book.add_order(order("b", OrderType::Sell, 110, 1, 2));
    book.add_order(order("c", OrderType::Sell, 100, 1, 3));
    let sells = book.get_all_sell_orders();
    let prices: Vec<u128> = sells.iter().map(|o| o.price).collect();
    assert_eq!(prices, vec![90, 100, 110]);
}

#[test]
fn same_price_keeps_arrival_order() {
    let mut book = OrderManager::new();
    book.add_order(order("first", OrderType::Buy, 100, 1, 1));
    book.add_order(order("second", OrderType::Buy, 100, 1, 2));
    book.add_order(order("third", OrderType::Buy, 100, 1, 3));
    let buys = book.get_all_buy_orders();
    let ids: Vec<&str> = buys.iter().map(|o| o.id.as_str()).collect();
    assert_eq!(ids, vec!["first", "second", "third"]);
}

#[test]
fn upsert_replaces_same_id() {
    let mut book = OrderManager::new();
    book.add_order(order("x", OrderType::Buy, 100, 5, 1));
    book.add_order(order("x", OrderType::Buy, 100, 3, 1));
    let buys = book.get_all_buy_orders();
    assert_eq!(buys.len(), 1);
    assert_eq!(buys[0].amount, 3);
}

#[test]
fn upsert_with_zero_size_removes() {
    let mut book = OrderManager::new();
    book.add_order(order("x", OrderType::Buy, 100, 5, 1));
    book.add_order(order("x", OrderType::Buy, 100, 0, 1));
    assert!(book.get_all_buy_orders().is_empty());
}

#[test]
fn remove_order_takes_out_one_id_at_price() {
    let mut book = OrderManager::new();
    book.add_order(order("x", OrderType::Sell, 100, 5, 1));
    book.add_order(order("y", OrderType::Sell, 100, 5, 2));
    book.remove_order("x", 100, OrderType::Sell);
    let sells = book.get_all_sell_orders();
    assert_eq!(sells.len(), 1);
    assert_eq!(sells[0].id, "y");
    // A different price leaves the order alone.
    book.remove_order("y", 99, OrderType::Sell);
    assert_eq!(book.get_all_sell_orders().len(), 1);
}

#[test]
fn get_orders_reads_one_price_level() {
    let mut book = OrderManager::new();
    book.add_order(order("a", OrderType::Buy, 100, 1, 1));
    book.add_order(order("b", OrderType::Buy, 100, 2, 2));
    book.add_order(order("c", OrderType::Buy, 90, 3, 3));
    let level = book.get_orders(100, OrderType::Buy);
    assert_eq!(level.len(), 2);
    assert_eq!(level[0].id, "a");
    assert_eq!(level[1].id, "b");
}

#[test]
fn reset_and_fill_replaces_everything() {
    let mut book = OrderManager::new();
    book.add_order(order("old", OrderType::Buy, 50, 1, 1));
    book.reset_and_fill_orders(
        vec![
            order("b1", OrderType::Buy, 100, 1, 1),
            order("b2", OrderType::Buy, 110, 1, 2),
        ],
        vec![order("s1", OrderType::Sell, 120, 1, 1)],
    );
    let (buys, sells) = book.get_all_orders();
    let buy_ids: Vec<&str> = buys.iter().map(|o| o.id.as_str()).collect();
    assert_eq!(buy_ids, vec!["b2", "b1"]);
    assert_eq!(sells.len(), 1);
    assert_eq!(sells[0].id, "s1");
}

#[test]
fn clear_orders_empties_both_sides() {
    let mut book = OrderManager::new();
    book.add_order(order("a", OrderType::Buy, 100, 1, 1));
    book.add_order(order("b", OrderType::Sell, 120, 1, 1));
    book.clear_orders();
    let (buys, sells) = book.get_all_orders2();
    assert!(buys.is_empty());
    assert!(sells.is_empty());
}

#[test]
fn a_foreign_asset_is_not_admitted() {
    // The book is segmented per market: one matcher instance, one asset
    // pair. An order trading another asset leaves the book unchanged.
    let mut book = OrderManager::new();
    book.add_order(order("a", OrderType::Buy, 100, 1, 1));
    let mut other = order("b", OrderType::Buy, 120, 1, 2);
    other.asset = String::from("ETH");
    book.add_order(other);
    let buys = book.get_all_buy_orders();
    assert_eq!(buys.len(), 1);
    assert_eq!(buys[0].id, "a");
}
