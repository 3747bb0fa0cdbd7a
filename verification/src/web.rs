//! The admin surface's response bodies. Serving them over HTTP is outside
//! the library; the values themselves are plain.

use vstd::prelude::*;

verus! {

use crate::model::SpotOrder;

/// Aggregated settlement statistics.
pub struct StatsResponse {
    pub total_transactions: i64,
    pub avg_gas_used: String,
    pub total_gas_used: i64,
    pub avg_match_time_ms: String,
    pub buy_orders: i64,
    pub sell_orders: i64,
    pub avg_receive_time_ms: String,
    pub avg_post_time_ms: String,
}

/// The orders of one side.
pub struct OrdersResponse {
    pub orders: Vec<SpotOrder>,
}

/// The orders of both sides.
pub struct CurrentOrdersResponse {
    pub buy_orders: Vec<SpotOrder>,
    pub sell_orders: Vec<SpotOrder>,
}

} // verus!
