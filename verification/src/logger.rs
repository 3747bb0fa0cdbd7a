//! The transaction log record emitted after a successful settlement.
//!
//! The record itself is a pure value; persisting it (the metrics sink) is a
//! fire-and-forget channel outside the library.

use vstd::prelude::*;

verus! {

use crate::engine::{Match, MatchV};
use crate::phantom::match_views;

/// One settlement's statistics: the total matched amount, how many matches
/// were settled, the transaction handle, gas, and the per-stage timings.
pub struct TransactionLog {
    pub total_amount: u128,
    pub matches_len: usize,
    pub tx_id: String,
    pub gas_used: u64,
    pub match_time_ms: i64,
    pub buy_orders: usize,
    pub sell_orders: usize,
    pub receive_time_ms: i64,
    pub post_time_ms: i64,
}

/// The sum of the fill amounts of a match sequence.
pub open spec fn total_filled(s: Seq<MatchV>) -> int
    decreases s.len(),
{
    if s.len() == 0 {
        0
    } else {
        total_filled(s.drop_last()) + s.last().amount
    }
}

/// A prefix never sums to more than the whole: fill amounts are unsigned.
proof fn lemma_total_prefix(s: Seq<MatchV>, i: int)
    requires
        0 <= i <= s.len(),
    ensures
        total_filled(s.take(i)) <= total_filled(s),
    decreases s.len(),
{
    if i == s.len() {
        assert(s.take(i) =~= s);
    } else {
        assert(s.drop_last().take(i) =~= s.take(i));
        lemma_total_prefix(s.drop_last(), i);
    }
}

/// The total amount filled by a list of matches, or `None` when the sum does
/// not fit the fixed-point width.
#[verifier::loop_isolation(false)]
pub fn total_matched(ms: &Vec<Match>) -> (r: Option<u128>)
    ensures
        total_filled(match_views(ms@)) <= u128::MAX ==> r == Some(
            total_filled(match_views(ms@)) as u128,
        ),
        total_filled(match_views(ms@)) > u128::MAX ==> r is None,
{
    let ghost s = match_views(ms@);
    let mut sum: u128 = 0;
    let mut i: usize = 0;
    while i < ms.len()
        invariant
            0 <= i <= ms.len(),
            s == match_views(ms@),
            sum == total_filled(s.take(i as int)),
        decreases ms@.len() - i,
    {
        let m = ms[i].amount;
        proof {
            assert(s.take(i + 1).drop_last() =~= s.take(i as int));
            assert(s.take(i + 1).last() == s[i as int]);
            assert(s[i as int] == ms@[i as int]@);
        }
        if sum > u128::MAX - m {
            proof {
                lemma_total_prefix(s, i + 1);
            }
            return None;
        }
        sum = sum + m;
        i = i + 1;
    }
    proof {
        assert(s.take(s.len() as int) =~= s);
    }
    Some(sum)
}

} // verus!
