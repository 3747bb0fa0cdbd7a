//! Pure helpers of the market-making bot: fixed-point scaling and the
//! balance decision before an order is placed. Drawing random prices,
//! querying balances and submitting deposits are outside work.

use vstd::prelude::*;

verus! {

/// Ten to the `e`-th power.
pub open spec fn pow10(e: nat) -> int
    decreases e,
{
    if e == 0 {
        1
    } else {
        10 * pow10((e - 1) as nat)
    }
}

proof fn lemma_pow10_pos(e: nat)
    ensures
        pow10(e) >= 1,
    decreases e,
{
    if e > 0 {
        lemma_pow10_pos((e - 1) as nat);
    }
}

/// Powers of ten grow with the exponent.
proof fn lemma_pow10_mono(a: nat, b: nat)
    requires
        a <= b,
    ensures
        pow10(a) <= pow10(b),
    decreases b,
{
    if a < b {
        lemma_pow10_mono(a, (b - 1) as nat);
        lemma_pow10_pos((b - 1) as nat);
    }
}

/// Scales a human-readable value into fixed-point representation: the value
/// times ten to the asset's decimals.
pub fn format_value_with_decimals(value: u64, decimals: u32) -> (r: u64)
    requires
        value * pow10(decimals as nat) <= u64::MAX,
    ensures
        r == value * pow10(decimals as nat),
{
    let mut r = value;
    let mut i: u32 = 0;
    while i < decimals
        invariant
            0 <= i <= decimals,
            r == value * pow10(i as nat),
            value * pow10(decimals as nat) <= u64::MAX,
        decreases decimals - i,
    {
        proof {
            lemma_pow10_mono((i + 1) as nat, decimals as nat);
            lemma_pow10_pos(i as nat);
            assert(value * pow10((i + 1) as nat) == (value * pow10(i as nat)) * 10)
                by (nonlinear_arith);
            assert(value * pow10((i + 1) as nat) <= value * pow10(decimals as nat))
                by (nonlinear_arith)
                requires
                    pow10((i + 1) as nat) <= pow10(decimals as nat),
                    value >= 0,
            ;
        }
        r = r * 10;
        i = i + 1;
    }
    r
}

/// What the bot does about its balance before placing an order.
#[derive(Clone, Copy, Debug, PartialEq, Eq, Structural)]
pub enum BalanceAction {
    /// The market balance already covers the order.
    Ready,
    /// The account balance covers it: deposit this much first.
    Deposit(u64),
    /// Neither balance covers it: the order cannot be placed.
    Insufficient,
}

/// The balance decision before an order: use the market balance if it
/// covers the need, otherwise deposit the needed amount from the account,
/// otherwise give up.
pub fn plan_balance(needed: u64, account_balance: u64, market_balance: u64) -> (r: BalanceAction)
    ensures
        market_balance >= needed ==> r == BalanceAction::Ready,
        market_balance < needed && account_balance >= needed ==> r == BalanceAction::Deposit(
            needed,
        ),
        market_balance < needed && account_balance < needed ==> r == BalanceAction::Insufficient,
{
    if market_balance >= needed {
        BalanceAction::Ready
    } else if account_balance >= needed {
        BalanceAction::Deposit(needed)
    } else {
        BalanceAction::Insufficient
    }
}

} // verus!
