//! One matching cycle, and the run-loop state machine around it.
//!
//! A cycle: evict the orders the ignore-list holds as phantom, run one
//! crossing pass over the book's snapshots, apply the fills to the book and
//! drop the fully filled orders. The caller (the run loop, outside the
//! library) queries the settlement collaborator between cycles and feeds any
//! newly discovered phantom identifiers back in.
//!
//! The run loop itself is a two-state machine: `Chill` between cycles,
//! `Active` while one runs. At most one cycle is ever active: a tick in the
//! `Active` state starts nothing.

use vstd::prelude::*;

verus! {

use crate::book::{
    buy_side_wf, not_listed, positive_order, sell_side_wf, str_views, OrderManager,
};
use crate::engine::{cross, cross_spec, step_match, views, Match};
use crate::engine_laws::lemma_cross_sides_ordered;

/// The run loop's state: `Chill` between matching cycles, `Active` while
/// one is running.
#[derive(Clone, Copy, Debug, PartialEq, Eq, Structural)]
pub enum Status {
    Chill,
    Active,
}

/// One tick of the run loop. A cycle starts only from `Chill`, and only
/// while the admin surface has the matcher switched on — so at most one
/// cycle is active at a time, and `stop` is observed between cycles, never
/// mid-cycle.
pub fn cycle_start(status: Status, active: bool) -> (r: (Status, bool))
    ensures
        r.1 == (status == Status::Chill && active),
        r.0 == (if status == Status::Chill && active {
            Status::Active
        } else {
            status
        }),
{
    if matches!(status, Status::Chill) && active {
        (Status::Active, true)
    } else {
        (status, false)
    }
}

/// The end of a cycle: the loop always returns to `Chill`, and the pause
/// before the next tick is the normal inter-cycle delay on success and the
/// longer backoff delay on error.
pub fn cycle_finish(ok: bool, pause_ms: u64, backoff_ms: u64) -> (r: (Status, u64))
    ensures
        r.0 == Status::Chill,
        r.1 == (if ok {
            pause_ms
        } else {
            backoff_ms
        }),
{
    if ok {
        (Status::Chill, pause_ms)
    } else {
        (Status::Chill, backoff_ms)
    }
}

/// Runs one matching cycle over the book.
///
/// First the orders named by `phantom_ids` are evicted from both sides.
/// Then one crossing pass runs over the cleaned sides, in price-time
/// priority; its fills are applied to the book and fully filled orders are
/// dropped. The returned matches touch only live orders — a phantom leg
/// never reaches a settlement batch, and the counterpart of a dropped
/// candidate keeps its size, since eviction happens before any fill.
pub fn run_match_cycle(book: &mut OrderManager, phantom_ids: &Vec<String>) -> (ms: Vec<Match>)
    requires
        old(book).wf(),
    ensures
        final(book).wf(),
        final(book).buys() == cross_spec(
            old(book).buys().filter(not_listed(str_views(phantom_ids@))),
            old(book).sells().filter(not_listed(str_views(phantom_ids@))),
        ).buys.filter(positive_order()),
        final(book).sells() == cross_spec(
            old(book).buys().filter(not_listed(str_views(phantom_ids@))),
            old(book).sells().filter(not_listed(str_views(phantom_ids@))),
        ).sells.filter(positive_order()),
        ms@.len() == cross_spec(
            old(book).buys().filter(not_listed(str_views(phantom_ids@))),
            old(book).sells().filter(not_listed(str_views(phantom_ids@))),
        ).steps.len(),
        forall|k: int|
            0 <= k < ms@.len() ==> ms@[k]@ == step_match(
                old(book).buys().filter(not_listed(str_views(phantom_ids@))),
                old(book).sells().filter(not_listed(str_views(phantom_ids@))),
                cross_spec(
                    old(book).buys().filter(not_listed(str_views(phantom_ids@))),
                    old(book).sells().filter(not_listed(str_views(phantom_ids@))),
                ).steps[k],
            ),
{
    book.evict_orders(phantom_ids);
    let ghost buys1 = book.buys();
    let ghost sells1 = book.sells();
    let ghost am = choose|a: Seq<char>|
        crate::book::all_asset(buys1, a) && crate::book::all_asset(sells1, a);
    let mut buys = book.get_all_buy_orders();
    let mut sells = book.get_all_sell_orders();
    let ms = cross(&mut buys, &mut sells);
    proof {
        lemma_cross_sides_ordered(buys1, sells1);
        crate::engine_laws::lemma_cross_frame(buys1, sells1, 0, 0);
        let t = cross_spec(buys1, sells1);
        assert forall|i: int| 0 <= i < t.buys.len() implies (#[trigger] t.buys[i]).asset == am by {
            assert(t.buys[i] == crate::engine::with_amount(buys1[i], t.buys[i].amount));
            assert(buys1[i].asset == am);
        }
        assert forall|i: int| 0 <= i < t.sells.len() implies (#[trigger] t.sells[i]).asset == am by {
            assert(t.sells[i] == crate::engine::with_amount(sells1[i], t.sells[i].amount));
            assert(sells1[i].asset == am);
        }
        crate::book::lemma_filter_each(t.buys, positive_order(), |x: crate::model::OrderV| x.asset == am);
        crate::book::lemma_filter_each(t.sells, positive_order(), |x: crate::model::OrderV| x.asset == am);
        assert(crate::book::all_asset(t.buys.filter(positive_order()), am)
            && crate::book::all_asset(t.sells.filter(positive_order()), am));
        crate::book::lemma_filter_pairwise(
            t.buys,
            positive_order(),
            |a: crate::model::OrderV, b: crate::model::OrderV| crate::book::buy_rank_leq(a, b),
        );
        crate::book::lemma_filter_pairwise(
            t.buys,
            positive_order(),
            |a: crate::model::OrderV, b: crate::model::OrderV| a.id != b.id,
        );
        crate::book::lemma_filter_sat(t.buys, positive_order());
        crate::book::lemma_filter_pairwise(
            t.sells,
            positive_order(),
            |a: crate::model::OrderV, b: crate::model::OrderV| crate::book::sell_rank_leq(a, b),
        );
        crate::book::lemma_filter_pairwise(
            t.sells,
            positive_order(),
            |a: crate::model::OrderV, b: crate::model::OrderV| a.id != b.id,
        );
        crate::book::lemma_filter_sat(t.sells, positive_order());
        assert(buy_side_wf(t.buys.filter(positive_order())));
        assert(sell_side_wf(t.sells.filter(positive_order())));
    }
    let buys_left = crate::book::keep_positive(&buys);
    let sells_left = crate::book::keep_positive(&sells);
    book.replace_sides(buys_left, sells_left);
    ms
}

} // verus!
