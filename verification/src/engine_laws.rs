//! Laws of the crossing engine, proved over the trace [`cross_from`].

use vstd::prelude::*;

verus! {

use crate::book::{buy_priority_sorted, sell_priority_sorted};
use crate::engine::{cross_from, with_amount, CrossTrace, FillStep};
use crate::model::OrderV;

/// Total amount filled against the buy order at index `i` by a step sequence.
pub open spec fn buy_filled(steps: Seq<FillStep>, i: int) -> int
    decreases steps.len(),
{
    if steps.len() == 0 {
        0
    } else {
        (if steps[0].buy == i {
            steps[0].amount as int
        } else {
            0
        }) + buy_filled(steps.drop_first(), i)
    }
}

/// Total amount filled against the sell order at index `i` by a step sequence.
pub open spec fn sell_filled(steps: Seq<FillStep>, i: int) -> int
    decreases steps.len(),
{
    if steps.len() == 0 {
        0
    } else {
        (if steps[0].sell == i {
            steps[0].amount as int
        } else {
            0
        }) + sell_filled(steps.drop_first(), i)
    }
}

/// The crossing run only rewrites remaining amounts: it keeps both lengths,
/// keeps every field but `amount`, and never touches an order that lies
/// before a starting cursor.
pub proof fn lemma_cross_frame(buys: Seq<OrderV>, sells: Seq<OrderV>, bi: int, si: int)
    ensures
        cross_from(buys, sells, bi, si).buys.len() == buys.len(),
        cross_from(buys, sells, bi, si).sells.len() == sells.len(),
        forall|i: int|
            0 <= i < buys.len() ==> cross_from(buys, sells, bi, si).buys[i] == with_amount(
                buys[i],
                cross_from(buys, sells, bi, si).buys[i].amount,
            ),
        forall|i: int|
            0 <= i < sells.len() ==> cross_from(buys, sells, bi, si).sells[i] == with_amount(
                sells[i],
                cross_from(buys, sells, bi, si).sells[i].amount,
            ),
        forall|i: int| 0 <= i < bi ==> cross_from(buys, sells, bi, si).buys[i] == buys[i],
        forall|i: int| 0 <= i < si ==> cross_from(buys, sells, bi, si).sells[i] == sells[i],
    decreases buys.len() + sells.len() - bi - si,
{
    if bi < 0 || si < 0 || buys.len() <= bi || sells.len() <= si {
    } else if buys[bi].amount == 0 {
        lemma_cross_frame(buys, sells, bi + 1, si);
    } else if sells[si].amount == 0 {
        lemma_cross_frame(buys, sells, bi, si + 1);
    } else if buys[bi].price >= sells[si].price {
        let fill = if buys[bi].amount <= sells[si].amount {
            buys[bi].amount
        } else {
            sells[si].amount
        };
        let nbuys = buys.update(bi, with_amount(buys[bi], (buys[bi].amount - fill) as u128));
        let nsells = sells.update(si, with_amount(sells[si], (sells[si].amount - fill) as u128));
        let nbi = if nbuys[bi].amount == 0 { bi + 1 } else { bi };
        let nsi = if nsells[si].amount == 0 { si + 1 } else { si };
        lemma_cross_frame(nbuys, nsells, nbi, nsi);
    } else {
    }
}

/// Every fill step is strictly positive: the engine never emits a zero or
/// negative fill, whatever the snapshots hold.
pub proof fn lemma_no_zero_fill(buys: Seq<OrderV>, sells: Seq<OrderV>, bi: int, si: int)
    ensures
        forall|k: int|
            0 <= k < cross_from(buys, sells, bi, si).steps.len() ==> #[trigger] cross_from(
                buys,
                sells,
                bi,
                si,
            ).steps[k].amount > 0,
    decreases buys.len() + sells.len() - bi - si,
{
    let t = cross_from(buys, sells, bi, si);
    if bi < 0 || si < 0 || buys.len() <= bi || sells.len() <= si {
    } else if buys[bi].amount == 0 {
        lemma_no_zero_fill(buys, sells, bi + 1, si);
        assert forall|k: int| 0 <= k < t.steps.len() implies #[trigger] t.steps[k].amount > 0 by {
            assert(t.steps[k] == cross_from(buys, sells, bi + 1, si).steps[k]);
        }
    } else if sells[si].amount == 0 {
        lemma_no_zero_fill(buys, sells, bi, si + 1);
        assert forall|k: int| 0 <= k < t.steps.len() implies #[trigger] t.steps[k].amount > 0 by {
            assert(t.steps[k] == cross_from(buys, sells, bi, si + 1).steps[k]);
        }
    } else if buys[bi].price >= sells[si].price {
        let fill = if buys[bi].amount <= sells[si].amount {
            buys[bi].amount
        } else {
            sells[si].amount
        };
        let nbuys = buys.update(bi, with_amount(buys[bi], (buys[bi].amount - fill) as u128));
        let nsells = sells.update(si, with_amount(sells[si], (sells[si].amount - fill) as u128));
        let nbi = if nbuys[bi].amount == 0 { bi + 1 } else { bi };
        let nsi = if nsells[si].amount == 0 { si + 1 } else { si };
        lemma_no_zero_fill(nbuys, nsells, nbi, nsi);
        let rest = cross_from(nbuys, nsells, nbi, nsi);
        assert forall|k: int| 0 <= k < t.steps.len() implies #[trigger] t.steps[k].amount > 0 by {
            if k == 0 {
                assert(t.steps[0].amount == fill);
            } else {
                assert(t.steps[k] == rest.steps[k - 1]);
            }
        }
    } else {
    }
}

/// The crossing run makes at most one step per order: the step count is
/// bounded by the number of orders still ahead of the cursors, so a run over
/// n buys and m sells makes at most n + m steps.
pub proof fn lemma_step_bound(buys: Seq<OrderV>, sells: Seq<OrderV>, bi: int, si: int)
    requires
        0 <= bi <= buys.len(),
        0 <= si <= sells.len(),
    ensures
        cross_from(buys, sells, bi, si).steps.len() <= (buys.len() - bi) + (sells.len() - si),
    decreases buys.len() + sells.len() - bi - si,
{
    if bi < 0 || si < 0 || buys.len() <= bi || sells.len() <= si {
    } else if buys[bi].amount == 0 {
        lemma_step_bound(buys, sells, bi + 1, si);
    } else if sells[si].amount == 0 {
        lemma_step_bound(buys, sells, bi, si + 1);
    } else if buys[bi].price >= sells[si].price {
        let fill = if buys[bi].amount <= sells[si].amount {
            buys[bi].amount
        } else {
            sells[si].amount
        };
        let nbuys = buys.update(bi, with_amount(buys[bi], (buys[bi].amount - fill) as u128));
        let nsells = sells.update(si, with_amount(sells[si], (sells[si].amount - fill) as u128));
        let nbi = if nbuys[bi].amount == 0 { bi + 1 } else { bi };
        let nsi = if nsells[si].amount == 0 { si + 1 } else { si };
        lemma_step_bound(nbuys, nsells, nbi, nsi);
    } else {
    }
}

/// Conservation of size. Every fill is bounded by both orders' remaining
/// sizes at the moment of the step (the pre-match remainders), and the run
/// subtracts from each order exactly the total filled against it: no size
/// leaks in or out.
pub proof fn lemma_conservation(buys: Seq<OrderV>, sells: Seq<OrderV>, bi: int, si: int)
    ensures
        cross_from(buys, sells, bi, si).buys.len() == buys.len(),
        cross_from(buys, sells, bi, si).sells.len() == sells.len(),
        forall|k: int|
            0 <= k < cross_from(buys, sells, bi, si).steps.len() ==> 0 <= #[trigger] cross_from(
                buys,
                sells,
                bi,
                si,
            ).steps[k].buy < buys.len() && 0 <= cross_from(buys, sells, bi, si).steps[k].sell
                < sells.len(),
        forall|i: int|
            0 <= i < buys.len() ==> #[trigger] cross_from(buys, sells, bi, si).buys[i].amount
                == buys[i].amount - buy_filled(cross_from(buys, sells, bi, si).steps, i),
        forall|i: int|
            0 <= i < sells.len() ==> #[trigger] cross_from(buys, sells, bi, si).sells[i].amount
                == sells[i].amount - sell_filled(cross_from(buys, sells, bi, si).steps, i),
        forall|k: int|
            0 <= k < cross_from(buys, sells, bi, si).steps.len() ==> #[trigger] cross_from(
                buys,
                sells,
                bi,
                si,
            ).steps[k].amount <= buys[cross_from(buys, sells, bi, si).steps[k].buy].amount
                - buy_filled(
                cross_from(buys, sells, bi, si).steps.take(k),
                cross_from(buys, sells, bi, si).steps[k].buy,
            ),
        forall|k: int|
            0 <= k < cross_from(buys, sells, bi, si).steps.len() ==> #[trigger] cross_from(
                buys,
                sells,
                bi,
                si,
            ).steps[k].amount <= sells[cross_from(buys, sells, bi, si).steps[k].sell].amount
                - sell_filled(
                cross_from(buys, sells, bi, si).steps.take(k),
                cross_from(buys, sells, bi, si).steps[k].sell,
            ),
    decreases buys.len() + sells.len() - bi - si,
{
    let t = cross_from(buys, sells, bi, si);
    if bi < 0 || si < 0 || buys.len() <= bi || sells.len() <= si {
    } else if buys[bi].amount == 0 {
        lemma_conservation(buys, sells, bi + 1, si);
        lemma_conservation_bridge(buys, sells, bi, si, bi + 1, si);
    } else if sells[si].amount == 0 {
        lemma_conservation(buys, sells, bi, si + 1);
        lemma_conservation_bridge(buys, sells, bi, si, bi, si + 1);
    } else if buys[bi].price >= sells[si].price {
        let fill = if buys[bi].amount <= sells[si].amount {
            buys[bi].amount
        } else {
            sells[si].amount
        };
        let st = FillStep { buy: bi, sell: si, amount: fill };
        let nbuys = buys.update(bi, with_amount(buys[bi], (buys[bi].amount - fill) as u128));
        let nsells = sells.update(si, with_amount(sells[si], (sells[si].amount - fill) as u128));
        let nbi = if nbuys[bi].amount == 0 { bi + 1 } else { bi };
        let nsi = if nsells[si].amount == 0 { si + 1 } else { si };
        lemma_conservation(nbuys, nsells, nbi, nsi);
        let rest = cross_from(nbuys, nsells, nbi, nsi);
        assert(t.steps =~= seq![st] + rest.steps);
        assert(t.steps.drop_first() =~= rest.steps);

        assert forall|i: int| 0 <= i < buys.len() implies #[trigger] t.buys[i].amount == buys[i].amount
            - buy_filled(t.steps, i) by {
            assert(buy_filled(t.steps, i) == (if i == bi {
                fill as int
            } else {
                0
            }) + buy_filled(rest.steps, i));
            assert(rest.buys[i].amount == nbuys[i].amount - buy_filled(rest.steps, i));
        }
        assert forall|i: int| 0 <= i < sells.len() implies #[trigger] t.sells[i].amount
            == sells[i].amount - sell_filled(t.steps, i) by {
            assert(sell_filled(t.steps, i) == (if i == si {
                fill as int
            } else {
                0
            }) + sell_filled(rest.steps, i));
            assert(rest.sells[i].amount == nsells[i].amount - sell_filled(rest.steps, i));
        }
        assert forall|k: int| 0 <= k < t.steps.len() implies 0 <= #[trigger] t.steps[k].buy
            < buys.len() && 0 <= t.steps[k].sell < sells.len() by {
            if k > 0 {
                assert(t.steps[k] == rest.steps[k - 1]);
            }
        }
        assert forall|k: int| 0 <= k < t.steps.len() implies #[trigger] t.steps[k].amount
            <= buys[t.steps[k].buy].amount - buy_filled(t.steps.take(k), t.steps[k].buy) by {
            if k == 0 {
                assert(t.steps.take(0) =~= Seq::<FillStep>::empty());
            } else {
                assert(t.steps[k] == rest.steps[k - 1]);
                let j = rest.steps[k - 1].buy;
                assert(rest.steps[k - 1].amount <= nbuys[j].amount - buy_filled(
                    rest.steps.take(k - 1),
                    j,
                ));
                assert(t.steps.take(k) =~= seq![st] + rest.steps.take(k - 1));
                assert(t.steps.take(k).drop_first() =~= rest.steps.take(k - 1));
                assert(buy_filled(t.steps.take(k), j) == (if j == bi {
                    fill as int
                } else {
                    0
                }) + buy_filled(rest.steps.take(k - 1), j));
                assert(nbuys[j].amount == buys[j].amount - (if j == bi {
                    fill as int
                } else {
                    0
                }));
            }
        }
        assert forall|k: int| 0 <= k < t.steps.len() implies #[trigger] t.steps[k].amount
            <= sells[t.steps[k].sell].amount - sell_filled(t.steps.take(k), t.steps[k].sell) by {
            if k == 0 {
                assert(t.steps.take(0) =~= Seq::<FillStep>::empty());
            } else {
                assert(t.steps[k] == rest.steps[k - 1]);
                let j = rest.steps[k - 1].sell;
                assert(rest.steps[k - 1].amount <= nsells[j].amount - sell_filled(
                    rest.steps.take(k - 1),
                    j,
                ));
                assert(t.steps.take(k) =~= seq![st] + rest.steps.take(k - 1));
                assert(t.steps.take(k).drop_first() =~= rest.steps.take(k - 1));
                assert(sell_filled(t.steps.take(k), j) == (if j == si {
                    fill as int
                } else {
                    0
                }) + sell_filled(rest.steps.take(k - 1), j));
                assert(nsells[j].amount == sells[j].amount - (if j == si {
                    fill as int
                } else {
                    0
                }));
            }
        }
    } else {
    }
}

/// When the trace at `(bi, si)` equals the trace at `(bi2, si2)` (a skip
/// step), the conservation conclusions carry over verbatim.
proof fn lemma_conservation_bridge(
    buys: Seq<OrderV>,
    sells: Seq<OrderV>,
    bi: int,
    si: int,
    bi2: int,
    si2: int,
)
    requires
        cross_from(buys, sells, bi, si) == cross_from(buys, sells, bi2, si2),
        cross_from(buys, sells, bi2, si2).buys.len() == buys.len(),
        cross_from(buys, sells, bi2, si2).sells.len() == sells.len(),
        forall|k: int|
            0 <= k < cross_from(buys, sells, bi2, si2).steps.len() ==> 0 <= #[trigger] cross_from(
                buys,
                sells,
                bi2,
                si2,
            ).steps[k].buy < buys.len() && 0 <= cross_from(buys, sells, bi2, si2).steps[k].sell
                < sells.len(),
        forall|i: int|
            0 <= i < buys.len() ==> #[trigger] cross_from(buys, sells, bi2, si2).buys[i].amount
                == buys[i].amount - buy_filled(cross_from(buys, sells, bi2, si2).steps, i),
        forall|i: int|
            0 <= i < sells.len() ==> #[trigger] cross_from(buys, sells, bi2, si2).sells[i].amount
                == sells[i].amount - sell_filled(cross_from(buys, sells, bi2, si2).steps, i),
        forall|k: int|
            0 <= k < cross_from(buys, sells, bi2, si2).steps.len() ==> #[trigger] cross_from(
                buys,
                sells,
                bi2,
                si2,
            ).steps[k].amount <= buys[cross_from(buys, sells, bi2, si2).steps[k].buy].amount
                - buy_filled(
                cross_from(buys, sells, bi2, si2).steps.take(k),
                cross_from(buys, sells, bi2, si2).steps[k].buy,
            ),
        forall|k: int|
            0 <= k < cross_from(buys, sells, bi2, si2).steps.len() ==> #[trigger] cross_from(
                buys,
                sells,
                bi2,
                si2,
            ).steps[k].amount <= sells[cross_from(buys, sells, bi2, si2).steps[k].sell].amount
                - sell_filled(
                cross_from(buys, sells, bi2, si2).steps.take(k),
                cross_from(buys, sells, bi2, si2).steps[k].sell,
            ),
    ensures
        forall|k: int|
            0 <= k < cross_from(buys, sells, bi, si).steps.len() ==> 0 <= #[trigger] cross_from(
                buys,
                sells,
                bi,
                si,
            ).steps[k].buy < buys.len() && 0 <= cross_from(buys, sells, bi, si).steps[k].sell
                < sells.len(),
        forall|i: int|
            0 <= i < buys.len() ==> #[trigger] cross_from(buys, sells, bi, si).buys[i].amount
                == buys[i].amount - buy_filled(cross_from(buys, sells, bi, si).steps, i),
        forall|i: int|
            0 <= i < sells.len() ==> #[trigger] cross_from(buys, sells, bi, si).sells[i].amount
                == sells[i].amount - sell_filled(cross_from(buys, sells, bi, si).steps, i),
        forall|k: int|
            0 <= k < cross_from(buys, sells, bi, si).steps.len() ==> #[trigger] cross_from(
                buys,
                sells,
                bi,
                si,
            ).steps[k].amount <= buys[cross_from(buys, sells, bi, si).steps[k].buy].amount
                - buy_filled(
                cross_from(buys, sells, bi, si).steps.take(k),
                cross_from(buys, sells, bi, si).steps[k].buy,
            ),
        forall|k: int|
            0 <= k < cross_from(buys, sells, bi, si).steps.len() ==> #[trigger] cross_from(
                buys,
                sells,
                bi,
                si,
            ).steps[k].amount <= sells[cross_from(buys, sells, bi, si).steps[k].sell].amount
                - sell_filled(
                cross_from(buys, sells, bi, si).steps.take(k),
                cross_from(buys, sells, bi, si).steps[k].sell,
            ),
{
}

/// In-order processing: fill steps are emitted with never-retreating cursors,
/// their indices stay within the side they point into, and every order that a
/// cursor has passed over (every order ahead of a matched one) leaves the run
/// exhausted.
pub proof fn lemma_cursor_order(buys: Seq<OrderV>, sells: Seq<OrderV>, bi: int, si: int)
    requires
        0 <= bi,
        0 <= si,
    ensures
        forall|k: int|
            0 <= k < cross_from(buys, sells, bi, si).steps.len() ==> bi <= #[trigger] cross_from(
                buys,
                sells,
                bi,
                si,
            ).steps[k].buy < buys.len() && si <= cross_from(buys, sells, bi, si).steps[k].sell
                < sells.len(),
        forall|k1: int, k2: int|
            0 <= k1 < k2 < cross_from(buys, sells, bi, si).steps.len() ==> #[trigger] cross_from(
                buys,
                sells,
                bi,
                si,
            ).steps[k1].buy <= #[trigger] cross_from(buys, sells, bi, si).steps[k2].buy
                && cross_from(buys, sells, bi, si).steps[k1].sell <= cross_from(
                buys,
                sells,
                bi,
                si,
            ).steps[k2].sell,
        forall|k: int, j: int|
            0 <= k < cross_from(buys, sells, bi, si).steps.len() && bi <= j < #[trigger] cross_from(
                buys,
                sells,
                bi,
                si,
            ).steps[k].buy ==> #[trigger] cross_from(buys, sells, bi, si).buys[j].amount == 0,
        forall|k: int, j: int|
            0 <= k < cross_from(buys, sells, bi, si).steps.len() && si <= j < #[trigger] cross_from(
                buys,
                sells,
                bi,
                si,
            ).steps[k].sell ==> #[trigger] cross_from(buys, sells, bi, si).sells[j].amount == 0,
    decreases buys.len() + sells.len() - bi - si,
{
    let t = cross_from(buys, sells, bi, si);
    if bi < 0 || si < 0 || buys.len() <= bi || sells.len() <= si {
    } else if buys[bi].amount == 0 {
        lemma_cursor_order(buys, sells, bi + 1, si);
        lemma_cross_frame(buys, sells, bi + 1, si);
        let rest = cross_from(buys, sells, bi + 1, si);
        assert forall|k: int, j: int|
            0 <= k < t.steps.len() && bi <= j < #[trigger] t.steps[k].buy implies #[trigger] t.buys[j].amount
            == 0 by {
            assert(t.steps[k] == rest.steps[k]);
            if j == bi {
                assert(t.buys[bi] == buys[bi]);
            }
        }
        assert forall|k: int| 0 <= k < t.steps.len() implies bi <= #[trigger] t.steps[k].buy
            < buys.len() && si <= t.steps[k].sell < sells.len() by {
            assert(t.steps[k] == rest.steps[k]);
        }
        assert forall|k1: int, k2: int| 0 <= k1 < k2 < t.steps.len() implies #[trigger] t.steps[k1].buy
            <= #[trigger] t.steps[k2].buy && t.steps[k1].sell <= t.steps[k2].sell by {
            assert(t.steps[k1] == rest.steps[k1]);
            assert(t.steps[k2] == rest.steps[k2]);
            assert(rest.steps[k1].buy <= rest.steps[k2].buy && rest.steps[k1].sell
                <= rest.steps[k2].sell);
        }
        assert forall|k: int, j: int|
            0 <= k < t.steps.len() && si <= j < #[trigger] t.steps[k].sell implies #[trigger] t.sells[j].amount
            == 0 by {
            assert(t.steps[k] == rest.steps[k]);
        }
    } else if sells[si].amount == 0 {
        lemma_cursor_order(buys, sells, bi, si + 1);
        lemma_cross_frame(buys, sells, bi, si + 1);
        let rest = cross_from(buys, sells, bi, si + 1);
        assert forall|k: int, j: int|
            0 <= k < t.steps.len() && si <= j < #[trigger] t.steps[k].sell implies #[trigger] t.sells[j].amount
            == 0 by {
            assert(t.steps[k] == rest.steps[k]);
            if j == si {
                assert(t.sells[si] == sells[si]);
            }
        }
        assert forall|k: int| 0 <= k < t.steps.len() implies bi <= #[trigger] t.steps[k].buy
            < buys.len() && si <= t.steps[k].sell < sells.len() by {
            assert(t.steps[k] == rest.steps[k]);
        }
        assert forall|k1: int, k2: int| 0 <= k1 < k2 < t.steps.len() implies #[trigger] t.steps[k1].buy
            <= #[trigger] t.steps[k2].buy && t.steps[k1].sell <= t.steps[k2].sell by {
            assert(t.steps[k1] == rest.steps[k1]);
            assert(t.steps[k2] == rest.steps[k2]);
            assert(rest.steps[k1].buy <= rest.steps[k2].buy && rest.steps[k1].sell
                <= rest.steps[k2].sell);
        }
        assert forall|k: int, j: int|
            0 <= k < t.steps.len() && bi <= j < #[trigger] t.steps[k].buy implies #[trigger] t.buys[j].amount
            == 0 by {
            assert(t.steps[k] == rest.steps[k]);
        }
    } else if buys[bi].price >= sells[si].price {
        let fill = if buys[bi].amount <= sells[si].amount {
            buys[bi].amount
        } else {
            sells[si].amount
        };
        let st = FillStep { buy: bi, sell: si, amount: fill };
        let nbuys = buys.update(bi, with_amount(buys[bi], (buys[bi].amount - fill) as u128));
        let nsells = sells.update(si, with_amount(sells[si], (sells[si].amount - fill) as u128));
        let nbi = if nbuys[bi].amount == 0 { bi + 1 } else { bi };
        let nsi = if nsells[si].amount == 0 { si + 1 } else { si };
        lemma_cursor_order(nbuys, nsells, nbi, nsi);
        lemma_cross_frame(nbuys, nsells, nbi, nsi);
        let rest = cross_from(nbuys, nsells, nbi, nsi);
        assert(t.steps =~= seq![st] + rest.steps);
        assert forall|k: int| 0 <= k < t.steps.len() implies bi <= #[trigger] t.steps[k].buy
            < buys.len() && si <= t.steps[k].sell < sells.len() by {
            if k > 0 {
                assert(t.steps[k] == rest.steps[k - 1]);
            }
        }
        assert forall|k1: int, k2: int| 0 <= k1 < k2 < t.steps.len() implies #[trigger] t.steps[k1].buy
            <= #[trigger] t.steps[k2].buy && t.steps[k1].sell <= t.steps[k2].sell by {
            assert(t.steps[k2] == rest.steps[k2 - 1]);
            assert(nbi <= rest.steps[k2 - 1].buy && nsi <= rest.steps[k2 - 1].sell);
            if k1 > 0 {
                assert(t.steps[k1] == rest.steps[k1 - 1]);
                assert(rest.steps[k1 - 1].buy <= rest.steps[k2 - 1].buy && rest.steps[k1
                    - 1].sell <= rest.steps[k2 - 1].sell);
            }
        }
        assert forall|k: int, j: int|
            0 <= k < t.steps.len() && bi <= j < #[trigger] t.steps[k].buy implies #[trigger] t.buys[j].amount
            == 0 by {
            if k > 0 {
                assert(t.steps[k] == rest.steps[k - 1]);
                if j < nbi {
                    assert(j == bi && nbi == bi + 1);
                    assert(t.buys[bi] == rest.buys[bi]);
                    assert(rest.buys[bi] == nbuys[bi]);
                } else {
                    assert(rest.buys[j].amount == 0);
                }
            }
        }
        assert forall|k: int, j: int|
            0 <= k < t.steps.len() && si <= j < #[trigger] t.steps[k].sell implies #[trigger] t.sells[j].amount
            == 0 by {
            if k > 0 {
                assert(t.steps[k] == rest.steps[k - 1]);
                if j < nsi {
                    assert(j == si && nsi == si + 1);
                    assert(t.sells[si] == rest.sells[si]);
                    assert(rest.sells[si] == nsells[si]);
                } else {
                    assert(rest.sells[j].amount == 0);
                }
            }
        }
    } else {
    }
}

/// Price-time priority. The book hands the engine its snapshots in priority
/// order: buys with the highest price first and, at equal price, the earliest
/// arrival first; sells with the lowest price first, earliest arrival first.
/// Under that ordering, the match sequence never fills an order before every
/// strictly-better-placed order on its side has been exhausted: whenever a
/// step fills the buy at position `j2`, every buy at a position `j < j2`
/// (a higher price, or the same price and an earlier arrival) leaves the run
/// with remaining size zero — and symmetrically for sells. Matches are also
/// emitted in cursor order, never revisiting an earlier position.
pub proof fn lemma_price_time_priority(buys: Seq<OrderV>, sells: Seq<OrderV>)
    requires
        buy_priority_sorted(buys),
        sell_priority_sorted(sells),
    ensures
        forall|k: int|
            0 <= k < cross_from(buys, sells, 0, 0).steps.len() ==> 0 <= #[trigger] cross_from(
                buys,
                sells,
                0,
                0,
            ).steps[k].buy < buys.len() && 0 <= cross_from(buys, sells, 0, 0).steps[k].sell
                < sells.len(),
        forall|k1: int, k2: int|
            0 <= k1 < k2 < cross_from(buys, sells, 0, 0).steps.len() ==> #[trigger] cross_from(
                buys,
                sells,
                0,
                0,
            ).steps[k1].buy <= #[trigger] cross_from(buys, sells, 0, 0).steps[k2].buy
                && cross_from(buys, sells, 0, 0).steps[k1].sell <= cross_from(
                buys,
                sells,
                0,
                0,
            ).steps[k2].sell,
        forall|k: int, j: int|
            0 <= k < cross_from(buys, sells, 0, 0).steps.len() && 0 <= j < #[trigger] cross_from(
                buys,
                sells,
                0,
                0,
            ).steps[k].buy ==> #[trigger] cross_from(buys, sells, 0, 0).buys[j].amount == 0,
        forall|k: int, j: int|
            0 <= k < cross_from(buys, sells, 0, 0).steps.len() && 0 <= j < #[trigger] cross_from(
                buys,
                sells,
                0,
                0,
            ).steps[k].sell ==> #[trigger] cross_from(buys, sells, 0, 0).sells[j].amount == 0,
{
    lemma_cursor_order(buys, sells, 0, 0);
}


/// The crossing run never reorders a side: prices, timestamps and
/// identifiers stay where they were, so both priority orders and the
/// uniqueness of identifiers survive the run (only remaining sizes change).
pub proof fn lemma_cross_sides_ordered(buys: Seq<OrderV>, sells: Seq<OrderV>)
    requires
        buy_priority_sorted(buys),
        sell_priority_sorted(sells),
        crate::book::distinct_ids(buys),
        crate::book::distinct_ids(sells),
    ensures
        buy_priority_sorted(cross_from(buys, sells, 0, 0).buys),
        sell_priority_sorted(cross_from(buys, sells, 0, 0).sells),
        crate::book::distinct_ids(cross_from(buys, sells, 0, 0).buys),
        crate::book::distinct_ids(cross_from(buys, sells, 0, 0).sells),
{
    lemma_cross_frame(buys, sells, 0, 0);
    let t = cross_from(buys, sells, 0, 0);
    assert forall|i: int, j: int| 0 <= i < j < t.buys.len() implies crate::book::buy_rank_leq(
        #[trigger] t.buys[i],
        #[trigger] t.buys[j],
    ) && t.buys[i].id != t.buys[j].id by {
        assert(t.buys[i] == with_amount(buys[i], t.buys[i].amount));
        assert(t.buys[j] == with_amount(buys[j], t.buys[j].amount));
        assert(crate::book::buy_rank_leq(buys[i], buys[j]));
    }
    assert forall|i: int, j: int| 0 <= i < j < t.sells.len() implies crate::book::sell_rank_leq(
        #[trigger] t.sells[i],
        #[trigger] t.sells[j],
    ) && t.sells[i].id != t.sells[j].id by {
        assert(t.sells[i] == with_amount(sells[i], t.sells[i].amount));
        assert(t.sells[j] == with_amount(sells[j], t.sells[j].amount));
        assert(crate::book::sell_rank_leq(sells[i], sells[j]));
    }
}


/// From the cursors on, a finished run leaves no crossing pair behind: with
/// both sides in priority order, any still-positive buy and still-positive
/// sell fail to cross. This is what justifies the early exit — once the best
/// remaining bid is under the best remaining ask, no later pair can cross.
pub proof fn lemma_cross_complete(buys: Seq<OrderV>, sells: Seq<OrderV>, bi: int, si: int)
    requires
        0 <= bi,
        0 <= si,
        buy_priority_sorted(buys),
        sell_priority_sorted(sells),
    ensures
        forall|i: int, j: int|
            bi <= i < buys.len() && si <= j < sells.len() && #[trigger] cross_from(
                buys,
                sells,
                bi,
                si,
            ).buys[i].amount > 0 && #[trigger] cross_from(buys, sells, bi, si).sells[j].amount > 0
                ==> !crate::engine::crossing(
                cross_from(buys, sells, bi, si).buys[i],
                cross_from(buys, sells, bi, si).sells[j],
            ),
    decreases buys.len() + sells.len() - bi - si,
{
    let t = cross_from(buys, sells, bi, si);
    if bi < 0 || si < 0 || buys.len() <= bi || sells.len() <= si {
    } else if buys[bi].amount == 0 {
        lemma_cross_complete(buys, sells, bi + 1, si);
        lemma_cross_frame(buys, sells, bi + 1, si);
        assert forall|i: int, j: int|
            bi <= i < buys.len() && si <= j < sells.len() && #[trigger] t.buys[i].amount > 0
                && #[trigger] t.sells[j].amount > 0 implies !crate::engine::crossing(
            t.buys[i],
            t.sells[j],
        ) by {
            if i == bi {
                assert(t.buys[bi] == buys[bi]);
            }
        }
    } else if sells[si].amount == 0 {
        lemma_cross_complete(buys, sells, bi, si + 1);
        lemma_cross_frame(buys, sells, bi, si + 1);
        assert forall|i: int, j: int|
            bi <= i < buys.len() && si <= j < sells.len() && #[trigger] t.buys[i].amount > 0
                && #[trigger] t.sells[j].amount > 0 implies !crate::engine::crossing(
            t.buys[i],
            t.sells[j],
        ) by {
            if j == si {
                assert(t.sells[si] == sells[si]);
            }
        }
    } else if buys[bi].price >= sells[si].price {
        let fill = if buys[bi].amount <= sells[si].amount {
            buys[bi].amount
        } else {
            sells[si].amount
        };
        let nbuys = buys.update(bi, with_amount(buys[bi], (buys[bi].amount - fill) as u128));
        let nsells = sells.update(si, with_amount(sells[si], (sells[si].amount - fill) as u128));
        let nbi = if nbuys[bi].amount == 0 { bi + 1 } else { bi };
        let nsi = if nsells[si].amount == 0 { si + 1 } else { si };
        assert(buy_priority_sorted(nbuys)) by {
            assert forall|i: int, j: int| 0 <= i < j < nbuys.len() implies crate::book::buy_rank_leq(
                #[trigger] nbuys[i],
                #[trigger] nbuys[j],
            ) by {
                assert(crate::book::buy_rank_leq(buys[i], buys[j]));
            }
        }
        assert(sell_priority_sorted(nsells)) by {
            assert forall|i: int, j: int| 0 <= i < j < nsells.len() implies crate::book::sell_rank_leq(
                #[trigger] nsells[i],
                #[trigger] nsells[j],
            ) by {
                assert(crate::book::sell_rank_leq(sells[i], sells[j]));
            }
        }
        lemma_cross_complete(nbuys, nsells, nbi, nsi);
        lemma_cross_frame(nbuys, nsells, nbi, nsi);
        assert forall|i: int, j: int|
            bi <= i < buys.len() && si <= j < sells.len() && #[trigger] t.buys[i].amount > 0
                && #[trigger] t.sells[j].amount > 0 implies !crate::engine::crossing(
            t.buys[i],
            t.sells[j],
        ) by {
            if i < nbi {
                assert(i == bi && nbi == bi + 1);
                assert(t.buys[bi] == nbuys[bi]);
            } else if j < nsi {
                assert(j == si && nsi == si + 1);
                assert(t.sells[si] == nsells[si]);
            }
        }
    } else {
        assert forall|i: int, j: int|
            bi <= i < buys.len() && si <= j < sells.len() && #[trigger] t.buys[i].amount > 0
                && #[trigger] t.sells[j].amount > 0 implies !crate::engine::crossing(
            t.buys[i],
            t.sells[j],
        ) by {
            if i > bi {
                assert(crate::book::buy_rank_leq(buys[bi], buys[i]));
            }
            if j > si {
                assert(crate::book::sell_rank_leq(sells[si], sells[j]));
            }
        }
    }
}

/// A whole run leaves no crossing pair: among the orders that still have
/// remaining size after the run, every bid is under every ask.
pub proof fn lemma_no_crossing_remains(buys: Seq<OrderV>, sells: Seq<OrderV>)
    requires
        buy_priority_sorted(buys),
        sell_priority_sorted(sells),
    ensures
        forall|i: int, j: int|
            0 <= i < buys.len() && 0 <= j < sells.len() && #[trigger] cross_from(
                buys,
                sells,
                0,
                0,
            ).buys[i].amount > 0 && #[trigger] cross_from(buys, sells, 0, 0).sells[j].amount > 0
                ==> !crate::engine::crossing(
                cross_from(buys, sells, 0, 0).buys[i],
                cross_from(buys, sells, 0, 0).sells[j],
            ),
{
    lemma_cross_complete(buys, sells, 0, 0);
}

} // verus!
