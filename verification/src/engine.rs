//! The crossing engine.
//!
//! Given the two priority-ordered snapshots of the book (buys: best price
//! first, that is highest price, earliest arrival; sells: lowest price first,
//! earliest arrival), the engine walks one cursor down each side. While the
//! best remaining buy price is at or above the best remaining sell price it
//! fills the pair by the smaller remaining size, emits the match and advances
//! whichever cursor's order is exhausted. As soon as the prices fail to cross
//! it stops: the snapshots are price-ordered, so no later pair can cross
//! either.
//!
//! The whole run is pinned down by the spec-level trace [`cross_from`]; the
//! laws about it (price-time priority, conservation, positive fills, the
//! step bound) are proved in [`crate::engine_laws`].

use vstd::prelude::*;

verus! {

use crate::model::{OrderV, SpotOrder};

/// A candidate match: the two order handles and the filled amount. Produced
/// and consumed within one matching cycle, never persisted.
pub struct Match {
    pub buy_id: String,
    pub sell_id: String,
    pub amount: u128,
}

/// Mathematical view of a [`Match`].
pub ghost struct MatchV {
    pub buy_id: Seq<char>,
    pub sell_id: Seq<char>,
    pub amount: u128,
}

impl View for Match {
    type V = MatchV;

    open spec fn view(&self) -> MatchV {
        MatchV { buy_id: self.buy_id@, sell_id: self.sell_id@, amount: self.amount }
    }
}

impl Clone for Match {
    fn clone(&self) -> (r: Self)
        ensures
            r@ == self@,
    {
        Match { buy_id: self.buy_id.clone(), sell_id: self.sell_id.clone(), amount: self.amount }
    }
}

/// One step of the crossing trace: the cursor positions at which the fill
/// happened and the filled amount.
pub ghost struct FillStep {
    pub buy: int,
    pub sell: int,
    pub amount: u128,
}

/// The complete outcome of one crossing run: the fill steps in the order they
/// were produced, and the two sides with the filled amounts subtracted
/// (fully filled orders stay, with amount zero; eviction is a separate step).
pub ghost struct CrossTrace {
    pub steps: Seq<FillStep>,
    pub buys: Seq<OrderV>,
    pub sells: Seq<OrderV>,
}

/// The views of a sequence of orders.
pub open spec fn views(s: Seq<SpotOrder>) -> Seq<OrderV> {
    s.map_values(|o: SpotOrder| o@)
}

/// The same order with its remaining amount replaced.
pub open spec fn with_amount(o: OrderV, a: u128) -> OrderV {
    OrderV { amount: a, ..o }
}

/// The smaller of two amounts.
pub open spec fn min_u128(a: u128, b: u128) -> u128 {
    if a <= b {
        a
    } else {
        b
    }
}

/// A buy and a sell cross when the bid is at or above the ask.
pub open spec fn crossing(b: OrderV, s: OrderV) -> bool {
    b.price >= s.price
}

/// The crossing trace from cursor positions `bi` and `si`.
///
/// Fully filled (or initially empty) orders under a cursor are skipped, never
/// matched, so a zero-fill step is impossible whatever the input. The run
/// ends when a side is exhausted or the cursor pair no longer crosses.
pub open spec fn cross_from(buys: Seq<OrderV>, sells: Seq<OrderV>, bi: int, si: int) -> CrossTrace
    decreases buys.len() + sells.len() - bi - si,
{
    if bi < 0 || si < 0 || buys.len() <= bi || sells.len() <= si {
        CrossTrace { steps: Seq::empty(), buys, sells }
    } else if buys[bi].amount == 0 {
        cross_from(buys, sells, bi + 1, si)
    } else if sells[si].amount == 0 {
        cross_from(buys, sells, bi, si + 1)
    } else if crossing(buys[bi], sells[si]) {
        let fill = min_u128(buys[bi].amount, sells[si].amount);
        let nbuys = buys.update(bi, with_amount(buys[bi], (buys[bi].amount - fill) as u128));
        let nsells = sells.update(si, with_amount(sells[si], (sells[si].amount - fill) as u128));
        let nbi = if nbuys[bi].amount == 0 { bi + 1 } else { bi };
        let nsi = if nsells[si].amount == 0 { si + 1 } else { si };
        let rest = cross_from(nbuys, nsells, nbi, nsi);
        CrossTrace {
            steps: seq![FillStep { buy: bi, sell: si, amount: fill }] + rest.steps,
            buys: rest.buys,
            sells: rest.sells,
        }
    } else {
        CrossTrace { steps: Seq::empty(), buys, sells }
    }
}

/// The crossing trace of two whole snapshots.
pub open spec fn cross_spec(buys: Seq<OrderV>, sells: Seq<OrderV>) -> CrossTrace {
    cross_from(buys, sells, 0, 0)
}

/// The match record that a fill step denotes, with the handles taken from the
/// pre-run snapshots (the run never changes a field other than `amount`).
pub open spec fn step_match(buys: Seq<OrderV>, sells: Seq<OrderV>, st: FillStep) -> MatchV {
    MatchV { buy_id: buys[st.buy].id, sell_id: sells[st.sell].id, amount: st.amount }
}

/// Runs one crossing pass over the two priority-ordered snapshots, mutating
/// the remaining amounts in place and returning the matches in the order they
/// were produced. The outcome is exactly the trace [`cross_spec`] of the
/// initial snapshots.
///
/// The book is segmented per market — one matcher instance to one asset
/// pair — so the snapshots are required to trade one asset, and the crossing
/// condition "the bid is at or above the ask, on the same asset" is met at
/// every cursor pair without scanning for asset matches.
pub fn cross(buys: &mut Vec<SpotOrder>, sells: &mut Vec<SpotOrder>) -> (ms: Vec<Match>)
    requires
        crate::book::one_market(views(old(buys)@), views(old(sells)@)),
    ensures
        views(final(buys)@) == cross_spec(views(old(buys)@), views(old(sells)@)).buys,
        views(final(sells)@) == cross_spec(views(old(buys)@), views(old(sells)@)).sells,
        ms@.len() == cross_spec(views(old(buys)@), views(old(sells)@)).steps.len(),
        forall|k: int|
            0 <= k < ms@.len() ==> ms@[k]@ == step_match(
                views(old(buys)@),
                views(old(sells)@),
                cross_spec(views(old(buys)@), views(old(sells)@)).steps[k],
            ),
{
    let ghost buys0: Seq<OrderV> = views(buys@);
    let ghost sells0: Seq<OrderV> = views(sells@);
    let ghost full: CrossTrace = cross_from(buys0, sells0, 0, 0);

    let mut ms: Vec<Match> = Vec::new();
    let mut bi: usize = 0;
    let mut si: usize = 0;
    let ghost mut gsteps: Seq<FillStep> = Seq::empty();

    while bi < buys.len() && si < sells.len()
        invariant
            bi <= buys.len(),
            si <= sells.len(),
            buys@.len() == buys0.len(),
            sells@.len() == sells0.len(),
            forall|i: int| 0 <= i < buys0.len() ==> views(buys@)[i] == with_amount(buys0[i], views(buys@)[i].amount),
            forall|i: int| 0 <= i < sells0.len() ==> views(sells@)[i] == with_amount(sells0[i], views(sells@)[i].amount),
            full == cross_from(buys0, sells0, 0, 0),
            full.steps == gsteps + cross_from(views(buys@), views(sells@), bi as int, si as int).steps,
            full.buys == cross_from(views(buys@), views(sells@), bi as int, si as int).buys,
            full.sells == cross_from(views(buys@), views(sells@), bi as int, si as int).sells,
            ms@.len() == gsteps.len(),
            forall|k: int| 0 <= k < gsteps.len() ==> ms@[k]@ == step_match(buys0, sells0, gsteps[k]),
        ensures
            full.steps == gsteps,
            full.buys == views(buys@),
            full.sells == views(sells@),
        decreases buys@.len() + sells@.len() - bi - si,
    {
        proof {
            assert(views(buys@).len() == buys@.len());
            assert(views(sells@).len() == sells@.len());
        }
        if buys[bi].amount == 0 {
            bi = bi + 1;
        } else if sells[si].amount == 0 {
            si = si + 1;
        } else if buys[bi].price >= sells[si].price {
            let ghost cb: Seq<OrderV> = views(buys@);
            let ghost cs: Seq<OrderV> = views(sells@);
            let fill = if buys[bi].amount <= sells[si].amount {
                buys[bi].amount
            } else {
                sells[si].amount
            };
            let m = Match {
                buy_id: buys[bi].id.clone(),
                sell_id: sells[si].id.clone(),
                amount: fill,
            };
            proof {
                assert(cb[bi as int] == with_amount(buys0[bi as int], cb[bi as int].amount));
                assert(cs[si as int] == with_amount(sells0[si as int], cs[si as int].amount));
                assert(m@ == step_match(buys0, sells0, FillStep { buy: bi as int, sell: si as int, amount: fill }));
            }
            ms.push(m);
            let nb = buys[bi].amount - fill;
            let ns = sells[si].amount - fill;
            buys[bi].amount = nb;
            sells[si].amount = ns;
            proof {
                assert(views(buys@) =~= cb.update(bi as int, with_amount(cb[bi as int], nb)));
                assert(views(sells@) =~= cs.update(si as int, with_amount(cs[si as int], ns)));
                let st = FillStep { buy: bi as int, sell: si as int, amount: fill };
                let rest = cross_from(views(buys@), views(sells@), if nb == 0 { bi + 1 } else { bi as int }, if ns == 0 { si + 1 } else { si as int });
                assert(cross_from(cb, cs, bi as int, si as int).steps =~= seq![st] + rest.steps);
                let done = gsteps;
                gsteps = done + seq![st];
                assert(gsteps + rest.steps =~= done + (seq![st] + rest.steps));
            }
            if nb == 0 {
                bi = bi + 1;
            }
            if ns == 0 {
                si = si + 1;
            }
        } else {
            break;
        }
    }
    proof {
        assert(views(buys@) == full.buys);
        assert(views(sells@) == full.sells);
    }
    ms
}

} // verus!
