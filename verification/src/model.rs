//! Canonical order model.
//!
//! Orders arrive from an indexer feed as records of strings; the library
//! normalizes them into [`SpotOrder`], whose side is an explicit tag and whose
//! size and price are unsigned fixed-point integers. All contracts speak about
//! orders through the mathematical view [`OrderV`].

use vstd::prelude::*;

verus! {

use crate::error::Error;
use vstd::string::StrSliceExecFns;

/// Side of an order: a resting bid or a resting ask.
#[derive(Clone, Copy, Debug, PartialEq, Eq, Structural)]
pub enum OrderType {
    Buy,
    Sell,
}

/// Mathematical view of a resting order.
pub ghost struct OrderV {
    pub id: Seq<char>,
    pub user: Seq<char>,
    pub asset: Seq<char>,
    pub amount: u128,
    pub price: u128,
    pub timestamp: u64,
    pub order_type: OrderType,
}

/// A resting order as the matcher works with it: an opaque identifier (also
/// the on-chain order handle), the owner, the traded asset, the remaining
/// size, the fixed-point price, the arrival timestamp and the side.
pub struct SpotOrder {
    pub id: String,
    pub user: String,
    pub asset: String,
    pub amount: u128,
    pub price: u128,
    pub timestamp: u64,
    pub order_type: OrderType,
}

impl View for SpotOrder {
    type V = OrderV;

    open spec fn view(&self) -> OrderV {
        OrderV {
            id: self.id@,
            user: self.user@,
            asset: self.asset@,
            amount: self.amount,
            price: self.price,
            timestamp: self.timestamp,
            order_type: self.order_type,
        }
    }
}

impl Clone for SpotOrder {
    fn clone(&self) -> (r: Self)
        ensures
            r@ == self@,
    {
        SpotOrder {
            id: self.id.clone(),
            user: self.user.clone(),
            asset: self.asset.clone(),
            amount: self.amount,
            price: self.price,
            timestamp: self.timestamp,
            order_type: self.order_type,
        }
    }
}

/// A raw order record as the indexer feed delivers it: all scalar fields
/// still strings, with the bookkeeping columns some feeds add.
pub struct SpotOrderIndexer {
    pub id: String,
    pub user: String,
    pub asset: String,
    pub amount: String,
    pub price: String,
    pub timestamp: String,
    pub order_type: OrderType,
    pub status: Option<String>,
    pub asset_type: Option<String>,
    pub db_write_timestamp: Option<String>,
    pub initial_amount: Option<String>,
}

/// The order lists of one feed message.
pub struct OrderPayload {
    pub active_buy_order: Option<Vec<SpotOrderIndexer>>,
    pub active_sell_order: Option<Vec<SpotOrderIndexer>>,
}

/// The data portion of one feed message.
pub struct DataPayload {
    pub data: OrderPayload,
}

/// One feed message: its type tag, an optional subscription id, and an
/// optional payload. (The feed names the tag field `type`; that is a raw
/// identifier in Rust, so it is carried here as `message_type`.)
pub struct WebSocketResponse {
    pub message_type: String,
    pub id: Option<String>,
    pub payload: Option<DataPayload>,
}

/// Whether `c` is a decimal digit.
pub open spec fn is_dec_digit(c: char) -> bool {
    '0' <= c && c <= '9'
}

/// The value of a decimal digit.
pub open spec fn digit_val(c: char) -> int {
    c as int - '0' as int
}

/// Whether every character is a decimal digit.
pub open spec fn all_dec_digits(s: Seq<char>) -> bool {
    forall|i: int| 0 <= i < s.len() ==> is_dec_digit(#[trigger] s[i])
}

/// The integer a digit string denotes.
pub open spec fn dec_value(s: Seq<char>) -> int
    decreases s.len(),
{
    if s.len() == 0 {
        0
    } else {
        dec_value(s.drop_last()) * 10 + digit_val(s.last())
    }
}

/// What parsing a size or price string yields: the denoted value for a
/// non-empty all-digit string whose value fits the fixed-point width,
/// nothing otherwise.
pub open spec fn parse_u128_spec(s: Seq<char>) -> Option<u128> {
    if s.len() > 0 && all_dec_digits(s) && dec_value(s) <= u128::MAX {
        Some(dec_value(s) as u128)
    } else {
        None
    }
}

/// A digit string's value is never negative.
proof fn lemma_dec_value_nonneg(s: Seq<char>)
    requires
        all_dec_digits(s),
    ensures
        dec_value(s) >= 0,
    decreases s.len(),
{
    if s.len() > 0 {
        assert forall|i: int| 0 <= i < s.drop_last().len() implies is_dec_digit(
            #[trigger] s.drop_last()[i],
        ) by {
            assert(s.drop_last()[i] == s[i]);
        }
        lemma_dec_value_nonneg(s.drop_last());
    }
}

/// A digit string's value is at least the value of any of its prefixes.
proof fn lemma_dec_value_prefix(s: Seq<char>, i: int)
    requires
        0 <= i <= s.len(),
        all_dec_digits(s),
    ensures
        dec_value(s.take(i)) <= dec_value(s),
    decreases s.len(),
{
    if i == s.len() {
        assert(s.take(i) =~= s);
    } else {
        let d = s.drop_last();
        assert forall|k: int| 0 <= k < d.len() implies is_dec_digit(#[trigger] d[k]) by {
            assert(d[k] == s[k]);
        }
        assert(d.take(i) =~= s.take(i));
        lemma_dec_value_prefix(d, i);
        lemma_dec_value_nonneg(d);
    }
}

/// Parses a decimal size or price string: exactly [`parse_u128_spec`].
#[verifier::loop_isolation(false)]
pub fn parse_u128(s: &str) -> (r: Option<u128>)
    ensures
        r == parse_u128_spec(s@),
{
    let n = s.unicode_len();
    if n == 0 {
        return None;
    }
    let mut acc: u128 = 0;
    let mut i: usize = 0;
    while i < n
        invariant
            0 <= i <= n,
            n == s@.len(),
            all_dec_digits(s@.take(i as int)),
            acc == dec_value(s@.take(i as int)),
        decreases n - i,
    {
        let c = s.get_char(i);
        let code = c as u32;
        if code < 48 || code > 57 {
            proof {
                assert(!is_dec_digit(s@[i as int]));
            }
            return None;
        }
        let d = (code - 48) as u128;
        proof {
            assert(s@.take(i + 1).drop_last() =~= s@.take(i as int));
            assert(s@.take(i + 1).last() == s@[i as int]);
            assert(d == digit_val(s@[i as int]));
        }
        if acc > (u128::MAX - d) / 10 {
            proof {
                assert(acc * 10 + d > u128::MAX) by (nonlinear_arith)
                    requires
                        acc > (u128::MAX - d) / 10,
                        d <= 9,
                ;
                if all_dec_digits(s@) {
                    lemma_dec_value_prefix(s@, i + 1);
                }
            }
            return None;
        }
        proof {
            assert(acc * 10 + d <= u128::MAX) by (nonlinear_arith)
                requires
                    acc <= (u128::MAX - d) / 10,
                    d <= 9,
            ;
            lemma_dec_value_nonneg(s@.take(i as int));
        }
        acc = acc * 10 + d;
        i = i + 1;
    }
    proof {
        assert(s@.take(n as int) =~= s@);
    }
    Some(acc)
}

/// The Unix timestamp an RFC 3339 date-time string denotes, if it parses.
pub uninterp spec fn rfc3339_epoch(s: Seq<char>) -> Option<i64>;

/// Relies on chrono: `DateTime::parse_from_rfc3339` parses an RFC 3339
/// date-time string, and `DateTime::timestamp` reads off its Unix timestamp;
/// together a function of the string alone.
#[verifier::external_body]
fn parse_rfc3339_epoch(s: &str) -> (r: Option<i64>)
    ensures
        r == rfc3339_epoch(s@),
{
    match chrono::DateTime::parse_from_rfc3339(s) {
        Ok(d) => Some(d.timestamp()),
        Err(_) => None,
    }
}

impl SpotOrder {
    /// Normalizes a raw indexer record: the size and price strings must be
    /// decimal numbers that fit the fixed-point width, and the timestamp
    /// must be an RFC 3339 date-time, which becomes a Unix timestamp. A
    /// record that fails any of the three is rejected with the offending
    /// value, and the caller skips it — one bad record never aborts a cycle.
    pub fn from_indexer(intermediate: SpotOrderIndexer) -> (r: Result<SpotOrder, Error>)
        ensures
            r matches Ok(o) ==> (parse_u128_spec(intermediate.amount@) == Some(o.amount)
                && parse_u128_spec(intermediate.price@) == Some(o.price) && (rfc3339_epoch(
                intermediate.timestamp@,
            ) matches Some(t) && o.timestamp == t as u64) && o.id@ == intermediate.id@ && o.user@
                == intermediate.user@ && o.asset@ == intermediate.asset@ && o.order_type
                == intermediate.order_type),
            parse_u128_spec(intermediate.amount@) is None ==> (r matches Err(
                Error::OrderAmountParseError(m),
            ) && m@ == intermediate.amount@),
            parse_u128_spec(intermediate.amount@) is Some && parse_u128_spec(intermediate.price@)
                is None ==> (r matches Err(Error::StringParsingError(m)) && m@
                == intermediate.price@),
            parse_u128_spec(intermediate.amount@) is Some && parse_u128_spec(intermediate.price@)
                is Some && rfc3339_epoch(intermediate.timestamp@) is None ==> (r matches Err(
                Error::StringParsingError(m),
            ) && m@ == intermediate.timestamp@),
            r is Ok <==> parse_u128_spec(intermediate.amount@) is Some && parse_u128_spec(
                intermediate.price@,
            ) is Some && rfc3339_epoch(intermediate.timestamp@) is Some,
    {
        let amount = match parse_u128(intermediate.amount.as_str()) {
            Some(a) => a,
            None => {
                return Err(Error::OrderAmountParseError(intermediate.amount));
            },
        };
        let price = match parse_u128(intermediate.price.as_str()) {
            Some(p) => p,
            None => {
                return Err(Error::StringParsingError(intermediate.price));
            },
        };
        let timestamp = match parse_rfc3339_epoch(intermediate.timestamp.as_str()) {
            Some(t) => #[verifier::truncate] (t as u64),
            None => {
                return Err(Error::StringParsingError(intermediate.timestamp));
            },
        };
        Ok(SpotOrder {
            id: intermediate.id,
            user: intermediate.user,
            asset: intermediate.asset,
            amount,
            price,
            timestamp,
            order_type: intermediate.order_type,
        })
    }
}

/// Relies on `str`'s `==` (its `PartialEq::eq`): true exactly when the two
/// slices hold the same characters.
#[verifier::external_body]
pub(crate) fn str_eq(a: &str, b: &str) -> (r: bool)
    ensures
        r == (a@ == b@),
{
    a == b
}

} // verus!
