//! The push subscription sent to the indexer: a stream of active orders of
//! one side, best price first.

use vstd::prelude::*;

verus! {

use crate::model::OrderType;
use vstd::string::StringExecFns;

/// The side name spliced into the subscription.
pub open spec fn side_name(order_type: OrderType) -> Seq<char> {
    match order_type {
        OrderType::Sell => "Sell"@,
        OrderType::Buy => "Buy"@,
    }
}

/// The price ordering of the stream: sells cheapest first, buys dearest
/// first, so the head of the stream is the best price of its side.
pub open spec fn side_order(order_type: OrderType) -> Seq<char> {
    match order_type {
        OrderType::Sell => "asc"@,
        OrderType::Buy => "desc"@,
    }
}

/// The text of the push subscription for one side.
pub open spec fn push_query_spec(order_type: OrderType, limit: Seq<char>) -> Seq<char> {
    "subscription {\n            Order(\n                limit: "@ + limit
        + ", \n                where: { status: {_eq: \"Active\"}, order_type: {_eq: \""@
        + side_name(order_type) + "\"} }, \n                order_by: {price: "@ + side_order(
        order_type,
    )
        + "}\n            ) {\n                id\n                user\n                timestamp\n                order_type\n                amount\n                asset\n                price\n            }\n        }"@
}

/// Builds the push subscription for one side: the fetch limit is spliced in,
/// and the stream is ordered so its head is the best price of the side.
pub fn format_graphql_subscription(order_type: OrderType, limit: &str) -> (r: String)
    ensures
        r@ == push_query_spec(order_type, limit@),
{
    let mut q = String::new();
    q.append("subscription {\n            Order(\n                limit: ");
    q.append(limit);
    q.append(", \n                where: { status: {_eq: \"Active\"}, order_type: {_eq: \"");
    match order_type {
        OrderType::Sell => q.append("Sell"),
        OrderType::Buy => q.append("Buy"),
    }
    q.append("\"} }, \n                order_by: {price: ");
    match order_type {
        OrderType::Sell => q.append("asc"),
        OrderType::Buy => q.append("desc"),
    }
    q.append(
        "}\n            ) {\n                id\n                user\n                timestamp\n                order_type\n                amount\n                asset\n                price\n            }\n        }",
    );
    proof {
        assert(q@ =~= push_query_spec(order_type, limit@));
    }
    q
}

} // verus!
