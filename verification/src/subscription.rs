//! The pull query sent to the indexer: the current set of active orders of
//! one side for one market.

use vstd::prelude::*;

verus! {

use crate::model::OrderType;
use vstd::string::StringExecFns;

/// The table a side's orders are read from.
pub open spec fn side_table(order_type: OrderType) -> Seq<char> {
    match order_type {
        OrderType::Sell => "ActiveSellOrder"@,
        OrderType::Buy => "ActiveBuyOrder"@,
    }
}

/// The text of the pull query for one side.
pub open spec fn pull_query_spec(
    order_type: OrderType,
    limit: Seq<char>,
    market: Seq<char>,
) -> Seq<char> {
    "query MyQuery {\n            "@ + side_table(order_type) + "(limit: "@ + limit
        + ", where: {market: {_eq: \""@ + market
        + "\"}}) {\n                id\n                user\n                timestamp\n                order_type\n                amount\n                asset\n                price\n                status\n                db_write_timestamp\n                initial_amount\n            }\n        }"@
}

/// Builds the pull query for one side: the fetch limit and the market
/// identifier are spliced into the query text.
pub fn format_graphql_subscription(order_type: OrderType, limit: &str, market: &str) -> (r: String)
    ensures
        r@ == pull_query_spec(order_type, limit@, market@),
{
    let mut q = String::new();
    q.append("query MyQuery {\n            ");
    match order_type {
        OrderType::Sell => q.append("ActiveSellOrder"),
        OrderType::Buy => q.append("ActiveBuyOrder"),
    }
    q.append("(limit: ");
    q.append(limit);
    q.append(", where: {market: {_eq: \"");
    q.append(market);
    q.append(
        "\"}}) {\n                id\n                user\n                timestamp\n                order_type\n                amount\n                asset\n                price\n                status\n                db_write_timestamp\n                initial_amount\n            }\n        }",
    );
    proof {
        assert(q@ =~= pull_query_spec(order_type, limit@, market@));
    }
    q
}

} // verus!
