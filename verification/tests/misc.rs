use spark_matcher::bot::{format_value_with_decimals, plan_balance, BalanceAction};
use spark_matcher::common;
use spark_matcher::error::Error;
use spark_matcher::log::{console_log_level, file_log_level, log_level, LogLevel};
use spark_matcher::matcher::{cycle_finish, cycle_start, Status};
use spark_matcher::model::{parse_u128, OrderType, SpotOrder, SpotOrderIndexer};
use spark_matcher::subscription;
use spark_matcher::websocket::WebSocketClientSuperchain;

#[test]
fn log_level_maps_every_name() {
    assert_eq!(log_level("off").unwrap(), LogLevel::Off);
    assert_eq!(log_level("trace").unwrap(), LogLevel::Trace);
    assert_eq!(log_level("debug").unwrap(), LogLevel::Debug);
    assert_eq!(log_level("info").unwrap(), LogLevel::Info);
    assert_eq!(log_level("warn").unwrap(), LogLevel::Warn);
    assert_eq!(log_level("error").unwrap(), LogLevel::Error);
}

#[test]
fn log_level_rejects_unknown_names() {
    match log_level("verbose") {
        Err(Error::StringParsingError(m)) => assert_eq!(m, "verbose"),
        _ => panic!("an unknown level must be rejected with the offending value"),
    }
}

#[test]
fn missing_level_configuration_means_off() {
    assert_eq!(file_log_level(None).unwrap(), LogLevel::Off);
    assert_eq!(console_log_level(None).unwrap(), LogLevel::Off);
    assert_eq!(file_log_level(Some("debug")).unwrap(), LogLevel::Debug);
    assert_eq!(console_log_level(Some("warn")).unwrap(), LogLevel::Warn);
}

#[test]
fn parse_u128_reads_decimal_strings() {
    assert_eq!(parse_u128("0"), Some(0));
    assert_eq!(parse_u128("42"), Some(42));
    assert_eq!(parse_u128("70000000000000"), Some(70_000_000_000_000));
    assert_eq!(parse_u128("340282366920938463463374607431768211455"), Some(u128::MAX));
}

#[test]
fn parse_u128_rejects_bad_strings() {
    assert_eq!(parse_u128(""), None);
    assert_eq!(parse_u128("12a"), None);
    assert_eq!(parse_u128("-5"), None);
    assert_eq!(parse_u128(" 5"), None);
    // One past the fixed-point maximum.
    assert_eq!(parse_u128("340282366920938463463374607431768211456"), None);
}

fn raw(id: &str, amount: &str, price: &str, ts: &str) -> SpotOrderIndexer {
    SpotOrderIndexer {
        id: String::from(id),
        user: String::from("trader"),
        asset: String::from("BTC"),
        amount: String::from(amount),
        price: String::from(price),
        timestamp: String::from(ts),
        order_type: OrderType::Buy,
        status: None,
        asset_type: None,
        db_write_timestamp: None,
        initial_amount: None,
    }
}

#[test]
fn from_indexer_normalizes_a_good_record() {
    let o = SpotOrder::from_indexer(raw("x", "5", "100", "2024-01-01T00:00:00Z")).unwrap();
    assert_eq!(o.id, "x");
    assert_eq!(o.amount, 5);
    assert_eq!(o.price, 100);
    // The RFC 3339 instant above is this Unix timestamp; a wrapper that
    // handed its argument through unchanged could not produce it.
    assert_eq!(o.timestamp, 1_704_067_200);
    assert_eq!(o.order_type, OrderType::Buy);
}

#[test]
fn from_indexer_honors_the_offset() {
    let o = SpotOrder::from_indexer(raw("x", "1", "1", "2024-01-01T01:00:00+01:00")).unwrap();
    assert_eq!(o.timestamp, 1_704_067_200);
}

#[test]
fn from_indexer_rejects_a_bad_amount() {
    match SpotOrder::from_indexer(raw("x", "5.5", "100", "2024-01-01T00:00:00Z")) {
        Err(Error::OrderAmountParseError(m)) => assert_eq!(m, "5.5"),
        _ => panic!("a non-integer amount must be rejected with the offending value"),
    }
}

#[test]
fn from_indexer_rejects_a_bad_price() {
    match SpotOrder::from_indexer(raw("x", "5", "1e3", "2024-01-01T00:00:00Z")) {
        Err(Error::StringParsingError(m)) => assert_eq!(m, "1e3"),
        _ => panic!("a malformed price must be rejected with the offending value"),
    }
}

#[test]
fn from_indexer_rejects_a_bad_timestamp() {
    match SpotOrder::from_indexer(raw("x", "5", "100", "yesterday")) {
        Err(Error::StringParsingError(m)) => assert_eq!(m, "yesterday"),
        _ => panic!("a malformed timestamp must be rejected with the offending value"),
    }
}

#[test]
fn fixed_point_scaling() {
    assert_eq!(format_value_with_decimals(5, 0), 5);
    assert_eq!(format_value_with_decimals(5, 3), 5_000);
    assert_eq!(format_value_with_decimals(7, 9), 7_000_000_000);
}

#[test]
fn balance_plan_prefers_market_then_account() {
    assert_eq!(plan_balance(100, 0, 150), BalanceAction::Ready);
    assert_eq!(plan_balance(100, 120, 50), BalanceAction::Deposit(100));
    assert_eq!(plan_balance(100, 80, 50), BalanceAction::Insufficient);
}

#[test]
fn run_loop_is_mutually_exclusive() {
    // A tick in Chill with the matcher switched on starts the one cycle.
    assert_eq!(cycle_start(Status::Chill, true), (Status::Active, true));
    // A tick while a cycle runs starts nothing.
    assert_eq!(cycle_start(Status::Active, true), (Status::Active, false));
    // A tick while the admin surface has stopped the matcher starts nothing.
    assert_eq!(cycle_start(Status::Chill, false), (Status::Chill, false));
    // The loop always returns to Chill; errors wait the longer backoff.
    assert_eq!(cycle_finish(true, 1000, 5000), (Status::Chill, 1000));
    assert_eq!(cycle_finish(false, 1000, 5000), (Status::Chill, 5000));
}

#[test]
fn pull_query_splices_side_limit_and_market() {
    let q = subscription::format_graphql_subscription(OrderType::Buy, "40", "0xmarket");
    assert!(q.starts_with("query MyQuery {"));
    assert!(q.contains("ActiveBuyOrder(limit: 40, where: {market: {_eq: \"0xmarket\"}})"));
    assert!(q.contains("initial_amount"));
    let q2 = subscription::format_graphql_subscription(OrderType::Sell, "10", "m");
    assert!(q2.contains("ActiveSellOrder(limit: 10, where: {market: {_eq: \"m\"}})"));
}

#[test]
fn push_subscription_orders_each_side_by_its_best_price() {
    let qb = common::format_graphql_subscription(OrderType::Buy, "50");
    assert!(qb.starts_with("subscription {"));
    assert!(qb.contains("limit: 50"));
    assert!(qb.contains("order_type: {_eq: \"Buy\"}"));
    assert!(qb.contains("order_by: {price: desc}"));
    let qs = common::format_graphql_subscription(OrderType::Sell, "50");
    assert!(qs.contains("order_type: {_eq: \"Sell\"}"));
    assert!(qs.contains("order_by: {price: asc}"));
}

#[test]
fn websocket_client_keeps_its_endpoint() {
    let c = WebSocketClientSuperchain::new(String::from("wss://example.invalid/feed"));
    assert_eq!(c.endpoint, "wss://example.invalid/feed");
}
