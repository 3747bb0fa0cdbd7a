//! The order book: the current working set of resting orders.
//!
//! Each side is kept as one sequence in priority order — buys with the
//! highest price first, sells with the lowest price first, and at equal price
//! the earliest arrival first — so a side is already the snapshot the
//! crossing engine consumes. The book's invariant: both sides are in
//! priority order, every resting order has remaining size greater than zero,
//! no identifier occurs twice on a side, and the whole book trades one asset
//! pair — the matcher runs one instance per market.
//!
//! The book runs in incremental mode: a push feed upserts orders one by one,
//! and orders leave the book explicitly — on full fill, on phantom eviction,
//! or through [`OrderManager::clear_orders`] between cycles.

use vstd::prelude::*;

verus! {

use crate::engine::views;
use crate::model::{str_eq, OrderType, OrderV, SpotOrder};

/// `a` may stand at or before `b` on the buy side: a higher price, or the
/// same price and an arrival no later.
pub open spec fn buy_rank_leq(a: OrderV, b: OrderV) -> bool {
    a.price > b.price || (a.price == b.price && a.timestamp <= b.timestamp)
}

/// `a` may stand at or before `b` on the sell side: a lower price, or the
/// same price and an arrival no later.
pub open spec fn sell_rank_leq(a: OrderV, b: OrderV) -> bool {
    a.price < b.price || (a.price == b.price && a.timestamp <= b.timestamp)
}

/// A newly arriving buy `a` goes in front of a resting `b`: strictly better
/// priced, or same price and strictly earlier. At an exact tie the arrival
/// stays behind the resting order, keeping insertion stable.
pub open spec fn buy_precedes(a: OrderV, b: OrderV) -> bool {
    a.price > b.price || (a.price == b.price && a.timestamp < b.timestamp)
}

/// A newly arriving sell `a` goes in front of a resting `b`.
pub open spec fn sell_precedes(a: OrderV, b: OrderV) -> bool {
    a.price < b.price || (a.price == b.price && a.timestamp < b.timestamp)
}

/// Buys are in priority order: best (highest) price first, ties by arrival.
pub open spec fn buy_priority_sorted(s: Seq<OrderV>) -> bool {
    forall|i: int, j: int| 0 <= i < j < s.len() ==> buy_rank_leq(#[trigger] s[i], #[trigger] s[j])
}

/// Sells are in priority order: best (lowest) price first, ties by arrival.
pub open spec fn sell_priority_sorted(s: Seq<OrderV>) -> bool {
    forall|i: int, j: int| 0 <= i < j < s.len() ==> sell_rank_leq(#[trigger] s[i], #[trigger] s[j])
}

/// Every resting order has remaining size greater than zero.
pub open spec fn all_positive(s: Seq<OrderV>) -> bool {
    forall|i: int| 0 <= i < s.len() ==> #[trigger] s[i].amount > 0
}

/// No identifier occurs twice.
pub open spec fn distinct_ids(s: Seq<OrderV>) -> bool {
    forall|i: int, j: int| 0 <= i < j < s.len() ==> (#[trigger] s[i]).id != (#[trigger] s[j]).id
}

/// Well-formedness of a buy side.
pub open spec fn buy_side_wf(s: Seq<OrderV>) -> bool {
    buy_priority_sorted(s) && all_positive(s) && distinct_ids(s)
}

/// Well-formedness of a sell side.
pub open spec fn sell_side_wf(s: Seq<OrderV>) -> bool {
    sell_priority_sorted(s) && all_positive(s) && distinct_ids(s)
}

/// Every order rests on the same asset `a`.
pub open spec fn all_asset(s: Seq<OrderV>, a: Seq<char>) -> bool {
    forall|i: int| 0 <= i < s.len() ==> (#[trigger] s[i]).asset == a
}

/// Both sides trade one asset pair: the book is segmented per market, one
/// matcher instance to one market, so intermixed scanning never happens.
pub open spec fn one_market(b: Seq<OrderV>, s: Seq<OrderV>) -> bool {
    exists|a: Seq<char>| all_asset(b, a) && all_asset(s, a)
}

/// Whether an arriving order trades the book's market. An empty book accepts
/// any asset; a non-empty one only its own.
pub open spec fn fits_market(o: OrderV, b: Seq<OrderV>, s: Seq<OrderV>) -> bool {
    (b.len() > 0 ==> o.asset == b[0].asset) && (s.len() > 0 ==> o.asset == s[0].asset)
}

/// The predicate that keeps every order whose identifier differs from `id`.
pub open spec fn not_id(id: Seq<char>) -> spec_fn(OrderV) -> bool {
    |o: OrderV| o.id != id
}

/// The predicate that keeps every order except the one with the given
/// identifier at the given price.
pub open spec fn not_id_at_price(id: Seq<char>, price: u128) -> spec_fn(OrderV) -> bool {
    |o: OrderV| !(o.id == id && o.price == price)
}

/// The predicate that keeps the orders resting at the given price.
pub open spec fn has_price(price: u128) -> spec_fn(OrderV) -> bool {
    |o: OrderV| o.price == price
}

/// Insertion into a priority-ordered side: `o` goes in front of the first
/// order it precedes, hence behind every resting order of equal price and
/// timestamp.
pub open spec fn insert_by(
    s: Seq<OrderV>,
    o: OrderV,
    prec: spec_fn(OrderV, OrderV) -> bool,
) -> Seq<OrderV>
    decreases s.len(),
{
    if s.len() == 0 {
        seq![o]
    } else if prec(o, s[0]) {
        seq![o] + s
    } else {
        seq![s[0]] + insert_by(s.drop_first(), o, prec)
    }
}

/// The position at which [`insert_by`] places `o`.
pub open spec fn insert_pos_by(
    s: Seq<OrderV>,
    o: OrderV,
    prec: spec_fn(OrderV, OrderV) -> bool,
) -> int
    decreases s.len(),
{
    if s.len() == 0 {
        0
    } else if prec(o, s[0]) {
        0
    } else {
        1 + insert_pos_by(s.drop_first(), o, prec)
    }
}

/// Insertion of a buy into a buy side.
pub open spec fn buy_insert(s: Seq<OrderV>, o: OrderV) -> Seq<OrderV> {
    insert_by(s, o, |a: OrderV, b: OrderV| buy_precedes(a, b))
}

/// Insertion of a sell into a sell side.
pub open spec fn sell_insert(s: Seq<OrderV>, o: OrderV) -> Seq<OrderV> {
    insert_by(s, o, |a: OrderV, b: OrderV| sell_precedes(a, b))
}

/// [`insert_by`] splits the side at [`insert_pos_by`]: everything before the
/// position refuses to yield to `o`, the order at the position (if any)
/// yields, and the result is the side with `o` spliced in there.
pub proof fn lemma_insert_by_shape(s: Seq<OrderV>, o: OrderV, prec: spec_fn(OrderV, OrderV) -> bool)
    ensures
        0 <= insert_pos_by(s, o, prec) <= s.len(),
        forall|i: int| 0 <= i < insert_pos_by(s, o, prec) ==> !prec(o, #[trigger] s[i]),
        insert_pos_by(s, o, prec) < s.len() ==> prec(o, s[insert_pos_by(s, o, prec)]),
        insert_by(s, o, prec) == s.take(insert_pos_by(s, o, prec)) + seq![o] + s.skip(
            insert_pos_by(s, o, prec),
        ),
    decreases s.len(),
{
    if s.len() == 0 {
        assert(insert_by(s, o, prec) =~= s.take(0) + seq![o] + s.skip(0));
    } else if prec(o, s[0]) {
        assert(insert_by(s, o, prec) =~= s.take(0) + seq![o] + s.skip(0));
    } else {
        let d = s.drop_first();
        lemma_insert_by_shape(d, o, prec);
        let p = insert_pos_by(d, o, prec);
        assert(insert_by(s, o, prec) =~= s.take(p + 1) + seq![o] + s.skip(p + 1)) by {
            assert(insert_by(d, o, prec) == d.take(p) + seq![o] + d.skip(p));
        }
        assert forall|i: int| 0 <= i < p + 1 implies !prec(o, #[trigger] s[i]) by {
            if i > 0 {
                assert(s[i] == d[i - 1]);
            }
        }
    }
}

/// Splicing in an order of the side's asset keeps the side on one asset.
pub proof fn lemma_insert_by_asset(
    s: Seq<OrderV>,
    o: OrderV,
    prec: spec_fn(OrderV, OrderV) -> bool,
    a: Seq<char>,
)
    requires
        all_asset(s, a),
        o.asset == a,
    ensures
        all_asset(insert_by(s, o, prec), a),
{
    lemma_insert_by_shape(s, o, prec);
    let p = insert_pos_by(s, o, prec);
    let r = insert_by(s, o, prec);
    assert forall|i: int| 0 <= i < r.len() implies (#[trigger] r[i]).asset == a by {
        if i < p {
            assert(r[i] == s[i]);
        } else if i == p {
            assert(r[i] == o);
        } else {
            assert(r[i] == s[i - 1]);
        }
    }
}

/// A filtered side keeps only elements that satisfy the predicate.
pub proof fn lemma_filter_sat(s: Seq<OrderV>, pred: spec_fn(OrderV) -> bool)
    ensures
        forall|k: int|
            0 <= k < s.filter(pred).len() ==> pred(#[trigger] s.filter(pred)[k]),
    decreases s.len(),
{
    reveal(Seq::filter);
    if s.len() > 0 {
        lemma_filter_sat(s.drop_last(), pred);
        let f = s.filter(pred);
        let fd = s.drop_last().filter(pred);
        assert forall|k: int| 0 <= k < f.len() implies pred(#[trigger] f[k]) by {
            if !(pred(s.last()) && k == f.len() - 1) {
                assert(f[k] == fd[k]);
            }
        }
    }
}

/// If every element of a side is related to `x`, so is every element of a
/// filtered side.
pub proof fn lemma_filter_dominated(
    s: Seq<OrderV>,
    pred: spec_fn(OrderV) -> bool,
    x: OrderV,
    rel: spec_fn(OrderV, OrderV) -> bool,
)
    requires
        forall|i: int| 0 <= i < s.len() ==> rel(#[trigger] s[i], x),
    ensures
        forall|k: int|
            0 <= k < s.filter(pred).len() ==> rel(#[trigger] s.filter(pred)[k], x),
    decreases s.len(),
{
    reveal(Seq::filter);
    if s.len() > 0 {
        assert forall|i: int| 0 <= i < s.drop_last().len() implies rel(
            #[trigger] s.drop_last()[i],
            x,
        ) by {
            assert(s.drop_last()[i] == s[i]);
        }
        lemma_filter_dominated(s.drop_last(), pred, x, rel);
        let f = s.filter(pred);
        let fd = s.drop_last().filter(pred);
        assert forall|k: int| 0 <= k < f.len() implies rel(#[trigger] f[k], x) by {
            if !(pred(s.last()) && k == f.len() - 1) {
                assert(f[k] == fd[k]);
            }
        }
    }
}

/// Filtering keeps every pairwise relation a side had: the survivors stay in
/// their relative order.
pub proof fn lemma_filter_pairwise(
    s: Seq<OrderV>,
    pred: spec_fn(OrderV) -> bool,
    rel: spec_fn(OrderV, OrderV) -> bool,
)
    requires
        forall|i: int, j: int| 0 <= i < j < s.len() ==> rel(#[trigger] s[i], #[trigger] s[j]),
    ensures
        forall|i: int, j: int|
            0 <= i < j < s.filter(pred).len() ==> rel(
                #[trigger] s.filter(pred)[i],
                #[trigger] s.filter(pred)[j],
            ),
        s.filter(pred).len() <= s.len(),
    decreases s.len(),
{
    reveal(Seq::filter);
    if s.len() > 0 {
        let d = s.drop_last();
        assert forall|i: int, j: int| 0 <= i < j < d.len() implies rel(
            #[trigger] d[i],
            #[trigger] d[j],
        ) by {
            assert(d[i] == s[i] && d[j] == s[j]);
        }
        lemma_filter_pairwise(d, pred, rel);
        let f = s.filter(pred);
        let fd = d.filter(pred);
        if pred(s.last()) {
            assert forall|i: int| 0 <= i < d.len() implies rel(#[trigger] d[i], s.last()) by {
                assert(d[i] == s[i]);
            }
            lemma_filter_dominated(d, pred, s.last(), rel);
        }
        assert forall|i: int, j: int| 0 <= i < j < f.len() implies rel(
            #[trigger] f[i],
            #[trigger] f[j],
        ) by {
            if pred(s.last()) && j == f.len() - 1 {
                assert(f[i] == fd[i]);
                assert(f[j] == s.last());
            } else {
                assert(f[i] == fd[i] && f[j] == fd[j]);
            }
        }
    }
}

/// Every element of a filtered side keeps a property the whole side had.
pub proof fn lemma_filter_each(
    s: Seq<OrderV>,
    pred: spec_fn(OrderV) -> bool,
    q: spec_fn(OrderV) -> bool,
)
    requires
        forall|i: int| 0 <= i < s.len() ==> q(#[trigger] s[i]),
    ensures
        forall|k: int| 0 <= k < s.filter(pred).len() ==> q(#[trigger] s.filter(pred)[k]),
    decreases s.len(),
{
    reveal(Seq::filter);
    if s.len() > 0 {
        assert forall|i: int| 0 <= i < s.drop_last().len() implies q(#[trigger] s.drop_last()[i]) by {
            assert(s.drop_last()[i] == s[i]);
        }
        lemma_filter_each(s.drop_last(), pred, q);
        let f = s.filter(pred);
        let fd = s.drop_last().filter(pred);
        assert forall|k: int| 0 <= k < f.len() implies q(#[trigger] f[k]) by {
            if !(pred(s.last()) && k == f.len() - 1) {
                assert(f[k] == fd[k]);
            }
        }
    }
}

/// Filtering a side that already satisfies the predicate everywhere leaves
/// it unchanged.
pub proof fn lemma_filter_noop(s: Seq<OrderV>, pred: spec_fn(OrderV) -> bool)
    requires
        forall|i: int| 0 <= i < s.len() ==> pred(#[trigger] s[i]),
    ensures
        s.filter(pred) == s,
    decreases s.len(),
{
    reveal(Seq::filter);
    if s.len() > 0 {
        assert forall|i: int| 0 <= i < s.drop_last().len() implies pred(#[trigger] s.drop_last()[i]) by {
            assert(s.drop_last()[i] == s[i]);
        }
        lemma_filter_noop(s.drop_last(), pred);
        assert(s.filter(pred) =~= s);
    }
}

/// Inserting a fresh, positively sized buy into a well-formed buy side keeps
/// the side well-formed.
pub proof fn lemma_buy_insert_wf(s: Seq<OrderV>, o: OrderV)
    requires
        buy_side_wf(s),
        o.amount > 0,
        forall|i: int| 0 <= i < s.len() ==> (#[trigger] s[i]).id != o.id,
    ensures
        buy_side_wf(buy_insert(s, o)),
        buy_insert(s, o).len() == s.len() + 1,
{
    let prec = |a: OrderV, b: OrderV| buy_precedes(a, b);
    lemma_insert_by_shape(s, o, prec);
    let p = insert_pos_by(s, o, prec);
    let r = buy_insert(s, o);
    assert forall|i: int, j: int| 0 <= i < j < r.len() implies buy_rank_leq(
        #[trigger] r[i],
        #[trigger] r[j],
    ) by {
        if i < p {
            assert(r[i] == s[i]);
        } else if i == p {
            assert(r[i] == o);
        } else {
            assert(r[i] == s[i - 1]);
        }
        if j < p {
            assert(r[j] == s[j]);
        } else if j == p {
            assert(r[j] == o);
        } else {
            assert(r[j] == s[j - 1]);
        }
    }
    assert forall|i: int| 0 <= i < r.len() implies #[trigger] r[i].amount > 0 by {
        if i < p {
            assert(r[i] == s[i]);
        } else if i == p {
            assert(r[i] == o);
        } else {
            assert(r[i] == s[i - 1]);
        }
    }
    assert forall|i: int, j: int| 0 <= i < j < r.len() implies (#[trigger] r[i]).id != (
    #[trigger] r[j]).id by {
        if i < p {
            assert(r[i] == s[i]);
        } else if i == p {
            assert(r[i] == o);
        } else {
            assert(r[i] == s[i - 1]);
        }
        if j < p {
            assert(r[j] == s[j]);
        } else if j == p {
            assert(r[j] == o);
        } else {
            assert(r[j] == s[j - 1]);
        }
    }
}

/// Inserting a fresh, positively sized sell into a well-formed sell side
/// keeps the side well-formed.
pub proof fn lemma_sell_insert_wf(s: Seq<OrderV>, o: OrderV)
    requires
        sell_side_wf(s),
        o.amount > 0,
        forall|i: int| 0 <= i < s.len() ==> (#[trigger] s[i]).id != o.id,
    ensures
        sell_side_wf(sell_insert(s, o)),
        sell_insert(s, o).len() == s.len() + 1,
{
    let prec = |a: OrderV, b: OrderV| sell_precedes(a, b);
    lemma_insert_by_shape(s, o, prec);
    let p = insert_pos_by(s, o, prec);
    let r = sell_insert(s, o);
    assert forall|i: int, j: int| 0 <= i < j < r.len() implies sell_rank_leq(
        #[trigger] r[i],
        #[trigger] r[j],
    ) by {
        if i < p {
            assert(r[i] == s[i]);
        } else if i == p {
            assert(r[i] == o);
        } else {
            assert(r[i] == s[i - 1]);
        }
        if j < p {
            assert(r[j] == s[j]);
        } else if j == p {
            assert(r[j] == o);
        } else {
            assert(r[j] == s[j - 1]);
        }
    }
    assert forall|i: int| 0 <= i < r.len() implies #[trigger] r[i].amount > 0 by {
        if i < p {
            assert(r[i] == s[i]);
        } else if i == p {
            assert(r[i] == o);
        } else {
            assert(r[i] == s[i - 1]);
        }
    }
    assert forall|i: int, j: int| 0 <= i < j < r.len() implies (#[trigger] r[i]).id != (
    #[trigger] r[j]).id by {
        if i < p {
            assert(r[i] == s[i]);
        } else if i == p {
            assert(r[i] == o);
        } else {
            assert(r[i] == s[i - 1]);
        }
        if j < p {
            assert(r[j] == s[j]);
        } else if j == p {
            assert(r[j] == o);
        } else {
            assert(r[j] == s[j - 1]);
        }
    }
}

/// Filtering a well-formed buy side keeps it well-formed.
pub proof fn lemma_buy_filter_wf(s: Seq<OrderV>, pred: spec_fn(OrderV) -> bool)
    requires
        buy_side_wf(s),
    ensures
        buy_side_wf(s.filter(pred)),
        s.filter(pred).len() <= s.len(),
{
    lemma_filter_pairwise(s, pred, |a: OrderV, b: OrderV| buy_rank_leq(a, b));
    lemma_filter_pairwise(s, pred, |a: OrderV, b: OrderV| a.id != b.id);
    lemma_filter_each(s, pred, |a: OrderV| a.amount > 0);
}

/// Filtering a well-formed sell side keeps it well-formed.
pub proof fn lemma_sell_filter_wf(s: Seq<OrderV>, pred: spec_fn(OrderV) -> bool)
    requires
        sell_side_wf(s),
    ensures
        sell_side_wf(s.filter(pred)),
        s.filter(pred).len() <= s.len(),
{
    lemma_filter_pairwise(s, pred, |a: OrderV, b: OrderV| sell_rank_leq(a, b));
    lemma_filter_pairwise(s, pred, |a: OrderV, b: OrderV| a.id != b.id);
    lemma_filter_each(s, pred, |a: OrderV| a.amount > 0);
}

/// Whether the arriving order `a` goes in front of the resting order `b` on
/// the buy side.
fn buy_precedes_exec(a: &SpotOrder, b: &SpotOrder) -> (r: bool)
    ensures
        r == buy_precedes(a@, b@),
{
    a.price > b.price || (a.price == b.price && a.timestamp < b.timestamp)
}

/// Whether the arriving order `a` goes in front of the resting order `b` on
/// the sell side.
fn sell_precedes_exec(a: &SpotOrder, b: &SpotOrder) -> (r: bool)
    ensures
        r == sell_precedes(a@, b@),
{
    a.price < b.price || (a.price == b.price && a.timestamp < b.timestamp)
}

/// Splices `o` into a buy side at its priority position.
fn insert_buy(v: &mut Vec<SpotOrder>, o: SpotOrder)
    ensures
        views(final(v)@) == buy_insert(views(old(v)@), o@),
{
    let ghost s = views(v@);
    let ghost prec = |a: OrderV, b: OrderV| buy_precedes(a, b);
    let mut i: usize = 0;
    while i < v.len() && !buy_precedes_exec(&o, &v[i])
        invariant
            0 <= i <= v.len(),
            views(v@) == s,
            forall|j: int| 0 <= j < i ==> !buy_precedes(o@, #[trigger] s[j]),
        decreases v@.len() - i,
    {
        proof {
            assert(s[i as int] == v@[i as int]@);
        }
        i = i + 1;
    }
    proof {
        lemma_insert_by_shape(s, o@, prec);
        let p = insert_pos_by(s, o@, prec);
        assert(i as int == p) by {
            if i < v.len() {
                assert(s[i as int] == v@[i as int]@);
                if p < i {
                    assert(prec(o@, s[p]));
                } else if p > i {
                    assert(!prec(o@, s[i as int]));
                }
            } else {
                if p < i {
                    assert(prec(o@, s[p]));
                }
            }
        }
    }
    v.insert(i, o);
    proof {
        let p = insert_pos_by(s, o@, prec);
        assert(views(v@) =~= s.take(p) + seq![o@] + s.skip(p));
    }
}

/// Splices `o` into a sell side at its priority position.
fn insert_sell(v: &mut Vec<SpotOrder>, o: SpotOrder)
    ensures
        views(final(v)@) == sell_insert(views(old(v)@), o@),
{
    let ghost s = views(v@);
    let ghost prec = |a: OrderV, b: OrderV| sell_precedes(a, b);
    let mut i: usize = 0;
    while i < v.len() && !sell_precedes_exec(&o, &v[i])
        invariant
            0 <= i <= v.len(),
            views(v@) == s,
            forall|j: int| 0 <= j < i ==> !sell_precedes(o@, #[trigger] s[j]),
        decreases v@.len() - i,
    {
        proof {
            assert(s[i as int] == v@[i as int]@);
        }
        i = i + 1;
    }
    proof {
        lemma_insert_by_shape(s, o@, prec);
        let p = insert_pos_by(s, o@, prec);
        assert(i as int == p) by {
            if i < v.len() {
                assert(s[i as int] == v@[i as int]@);
                if p < i {
                    assert(prec(o@, s[p]));
                } else if p > i {
                    assert(!prec(o@, s[i as int]));
                }
            } else {
                if p < i {
                    assert(prec(o@, s[p]));
                }
            }
        }
    }
    v.insert(i, o);
    proof {
        let p = insert_pos_by(s, o@, prec);
        assert(views(v@) =~= s.take(p) + seq![o@] + s.skip(p));
    }
}

/// The orders whose identifier differs from `id`, in their original order.
#[verifier::loop_isolation(false)]
fn without_id(v: &Vec<SpotOrder>, id: &str) -> (r: Vec<SpotOrder>)
    ensures
        views(r@) == views(v@).filter(not_id(id@)),
{
    let ghost s = views(v@);
    let ghost pred = not_id(id@);
    let mut r: Vec<SpotOrder> = Vec::new();
    let mut i: usize = 0;
    while i < v.len()
        invariant
            0 <= i <= v.len(),
            views(v@) == s,
            views(r@) == s.take(i as int).filter(pred),
        decreases v@.len() - i,
    {
        let keep = !str_eq(v[i].id.as_str(), id);
        proof {
            reveal(Seq::filter);
            assert(s.take(i + 1).drop_last() =~= s.take(i as int));
            assert(s.take(i + 1).last() == s[i as int]);
            assert(s[i as int] == v@[i as int]@);
            assert(s.take(i + 1).filter(pred) == (if pred(s[i as int]) {
                s.take(i as int).filter(pred).push(s[i as int])
            } else {
                s.take(i as int).filter(pred)
            }));
        }
        if keep {
            r.push(v[i].clone());
            proof {
                assert(views(r@) =~= s.take(i as int).filter(pred).push(s[i as int]));
            }
        }
        i = i + 1;
    }
    proof {
        assert(s.take(s.len() as int) =~= s);
    }
    r
}

/// The orders that do not carry the given identifier at the given price, in
/// their original order.
#[verifier::loop_isolation(false)]
fn without_id_at_price(v: &Vec<SpotOrder>, id: &str, price: u128) -> (r: Vec<SpotOrder>)
    ensures
        views(r@) == views(v@).filter(not_id_at_price(id@, price)),
{
    let ghost s = views(v@);
    let ghost pred = not_id_at_price(id@, price);
    let mut r: Vec<SpotOrder> = Vec::new();
    let mut i: usize = 0;
    while i < v.len()
        invariant
            0 <= i <= v.len(),
            views(v@) == s,
            views(r@) == s.take(i as int).filter(pred),
        decreases v@.len() - i,
    {
        let keep = !(str_eq(v[i].id.as_str(), id) && v[i].price == price);
        proof {
            reveal(Seq::filter);
            assert(s.take(i + 1).drop_last() =~= s.take(i as int));
            assert(s.take(i + 1).last() == s[i as int]);
            assert(s[i as int] == v@[i as int]@);
            assert(s.take(i + 1).filter(pred) == (if pred(s[i as int]) {
                s.take(i as int).filter(pred).push(s[i as int])
            } else {
                s.take(i as int).filter(pred)
            }));
        }
        if keep {
            r.push(v[i].clone());
            proof {
                assert(views(r@) =~= s.take(i as int).filter(pred).push(s[i as int]));
            }
        }
        i = i + 1;
    }
    proof {
        assert(s.take(s.len() as int) =~= s);
    }
    r
}

/// The orders resting at the given price, in their original order.
#[verifier::loop_isolation(false)]
fn at_price(v: &Vec<SpotOrder>, price: u128) -> (r: Vec<SpotOrder>)
    ensures
        views(r@) == views(v@).filter(has_price(price)),
{
    let ghost s = views(v@);
    let ghost pred = has_price(price);
    let mut r: Vec<SpotOrder> = Vec::new();
    let mut i: usize = 0;
    while i < v.len()
        invariant
            0 <= i <= v.len(),
            views(v@) == s,
            views(r@) == s.take(i as int).filter(pred),
        decreases v@.len() - i,
    {
        let keep = v[i].price == price;
        proof {
            reveal(Seq::filter);
            assert(s.take(i + 1).drop_last() =~= s.take(i as int));
            assert(s.take(i + 1).last() == s[i as int]);
            assert(s[i as int] == v@[i as int]@);
            assert(s.take(i + 1).filter(pred) == (if pred(s[i as int]) {
                s.take(i as int).filter(pred).push(s[i as int])
            } else {
                s.take(i as int).filter(pred)
            }));
        }
        if keep {
            r.push(v[i].clone());
            proof {
                assert(views(r@) =~= s.take(i as int).filter(pred).push(s[i as int]));
            }
        }
        i = i + 1;
    }
    proof {
        assert(s.take(s.len() as int) =~= s);
    }
    r
}

/// A copy of a side, order by order.
#[verifier::loop_isolation(false)]
fn clone_orders(v: &Vec<SpotOrder>) -> (r: Vec<SpotOrder>)
    ensures
        views(r@) == views(v@),
{
    let mut r: Vec<SpotOrder> = Vec::new();
    let mut i: usize = 0;
    while i < v.len()
        invariant
            0 <= i <= v.len(),
            views(r@) == views(v@).take(i as int),
        decreases v@.len() - i,
    {
        r.push(v[i].clone());
        proof {
            assert(views(r@).len() == i + 1);
            assert forall|k: int| 0 <= k < i + 1 implies views(r@)[k] == views(v@).take(i + 1)[k] by {
                assert(views(r@)[k] == r@[k]@);
                assert(views(v@).take(i + 1)[k] == v@[k]@);
                if k < i {
                    assert(r@[k]@ == views(r@.take(i as int))[k]);
                }
            }
            assert(views(r@) =~= views(v@).take(i + 1));
        }
        i = i + 1;
    }
    proof {
        assert(views(v@).take(v@.len() as int) =~= views(v@));
    }
    r
}

} // verus!


verus! {

use crate::model::OrderType as _;

} // verus!

verus! {

/// One upsert into a buy side: any resting order with the same identifier
/// leaves, and the arrival takes its priority position — unless its size is
/// zero, in which case only the removal happens.
pub open spec fn buy_upsert(s: Seq<OrderV>, o: OrderV) -> Seq<OrderV> {
    if o.amount > 0 {
        buy_insert(s.filter(not_id(o.id)), o)
    } else {
        s.filter(not_id(o.id))
    }
}

/// One upsert into a sell side.
pub open spec fn sell_upsert(s: Seq<OrderV>, o: OrderV) -> Seq<OrderV> {
    if o.amount > 0 {
        sell_insert(s.filter(not_id(o.id)), o)
    } else {
        s.filter(not_id(o.id))
    }
}

/// The buy side that results from upserting a list of orders, in order, into
/// an empty side.
pub open spec fn buy_book_of(s: Seq<OrderV>) -> Seq<OrderV>
    decreases s.len(),
{
    if s.len() == 0 {
        Seq::empty()
    } else {
        buy_upsert(buy_book_of(s.drop_last()), s.last())
    }
}

/// The sell side that results from upserting a list of orders, in order,
/// into an empty side.
pub open spec fn sell_book_of(s: Seq<OrderV>) -> Seq<OrderV>
    decreases s.len(),
{
    if s.len() == 0 {
        Seq::empty()
    } else {
        sell_upsert(sell_book_of(s.drop_last()), s.last())
    }
}

/// Upserts `o` into a well-formed buy side.
fn upsert_buy_side(v: &mut Vec<SpotOrder>, o: SpotOrder)
    requires
        buy_side_wf(views(old(v)@)),
    ensures
        buy_side_wf(views(final(v)@)),
        views(final(v)@) == buy_upsert(views(old(v)@), o@),
{
    let ghost s0 = views(v@);
    let ghost ov = o@;
    let mut cleaned = without_id(v, o.id.as_str());
    proof {
        lemma_buy_filter_wf(s0, not_id(ov.id));
        lemma_filter_sat(s0, not_id(ov.id));
    }
    if o.amount > 0 {
        let ghost cv = views(cleaned@);
        insert_buy(&mut cleaned, o);
        proof {
            lemma_buy_insert_wf(cv, ov);
        }
    }
    *v = cleaned;
}

/// Upserts `o` into a well-formed sell side.
fn upsert_sell_side(v: &mut Vec<SpotOrder>, o: SpotOrder)
    requires
        sell_side_wf(views(old(v)@)),
    ensures
        sell_side_wf(views(final(v)@)),
        views(final(v)@) == sell_upsert(views(old(v)@), o@),
{
    let ghost s0 = views(v@);
    let ghost ov = o@;
    let mut cleaned = without_id(v, o.id.as_str());
    proof {
        lemma_sell_filter_wf(s0, not_id(ov.id));
        lemma_filter_sat(s0, not_id(ov.id));
    }
    if o.amount > 0 {
        let ghost cv = views(cleaned@);
        insert_sell(&mut cleaned, o);
        proof {
            lemma_sell_insert_wf(cv, ov);
        }
    }
    *v = cleaned;
}

/// The order book: the resting buy and sell sides, each in priority order.
pub struct OrderManager {
    buy_orders: Vec<SpotOrder>,
    sell_orders: Vec<SpotOrder>,
}

impl OrderManager {
    /// The buy side, best price first.
    pub closed spec fn buys(&self) -> Seq<OrderV> {
        views(self.buy_orders@)
    }

    /// The sell side, best price first.
    pub closed spec fn sells(&self) -> Seq<OrderV> {
        views(self.sell_orders@)
    }

    /// The book invariant: both sides in priority order, all sizes positive,
    /// identifiers unique per side, and one asset pair across the whole book.
    pub open spec fn wf(&self) -> bool {
        buy_side_wf(self.buys()) && sell_side_wf(self.sells()) && one_market(
            self.buys(),
            self.sells(),
        )
    }

    /// An empty book.
    pub fn new() -> (r: Self)
        ensures
            r.wf(),
            r.buys() == Seq::<OrderV>::empty(),
            r.sells() == Seq::<OrderV>::empty(),
    {
        let r = OrderManager { buy_orders: Vec::new(), sell_orders: Vec::new() };
        proof {
            assert(views(r.buy_orders@) =~= Seq::<OrderV>::empty());
            assert(views(r.sell_orders@) =~= Seq::<OrderV>::empty());
            assert(all_asset(r.buys(), Seq::<char>::empty()) && all_asset(
                r.sells(),
                Seq::<char>::empty(),
            ));
        }
        r
    }

    /// Upserts one order into its side: a resting order with the same
    /// identifier is replaced, a new order is spliced in at its priority
    /// position, and an order with zero remaining size only removes its
    /// namesake. The book is segmented per market, so an order that trades
    /// another asset than the book's is not admitted and leaves the book
    /// unchanged.
    pub fn add_order(&mut self, order: SpotOrder)
        requires
            old(self).wf(),
        ensures
            final(self).wf(),
            fits_market(order@, old(self).buys(), old(self).sells()) && order.order_type
                == OrderType::Buy ==> final(self).buys() == buy_upsert(old(self).buys(), order@)
                && final(self).sells() == old(self).sells(),
            fits_market(order@, old(self).buys(), old(self).sells()) && order.order_type
                == OrderType::Sell ==> final(self).sells() == sell_upsert(
                old(self).sells(),
                order@,
            ) && final(self).buys() == old(self).buys(),
            !fits_market(order@, old(self).buys(), old(self).sells()) ==> final(self).buys()
                == old(self).buys() && final(self).sells() == old(self).sells(),
    {
        let ghost b0 = self.buys();
        let ghost s0 = self.sells();
        let ghost a0 = choose|a: Seq<char>| all_asset(b0, a) && all_asset(s0, a);
        let fits = if self.buy_orders.len() > 0 {
            str_eq(order.asset.as_str(), self.buy_orders[0].asset.as_str())
        } else if self.sell_orders.len() > 0 {
            str_eq(order.asset.as_str(), self.sell_orders[0].asset.as_str())
        } else {
            true
        };
        proof {
            if b0.len() > 0 {
                assert(b0[0] == self.buy_orders@[0]@);
                assert(b0[0].asset == a0);
            }
            if s0.len() > 0 {
                assert(s0[0] == self.sell_orders@[0]@);
                assert(s0[0].asset == a0);
            }
            assert(fits == fits_market(order@, b0, s0));
        }
        if !fits {
            return ;
        }
        let ghost ov = order@;
        let ghost w: Seq<char> = if b0.len() == 0 && s0.len() == 0 {
            ov.asset
        } else {
            a0
        };
        proof {
            assert(ov.asset == w);
            assert(all_asset(b0, w) && all_asset(s0, w));
        }
        match order.order_type {
            OrderType::Buy => {
                upsert_buy_side(&mut self.buy_orders, order);
                proof {
                    lemma_filter_each(b0, not_id(ov.id), |x: OrderV| x.asset == w);
                    if ov.amount > 0 {
                        lemma_insert_by_asset(
                            b0.filter(not_id(ov.id)),
                            ov,
                            |a: OrderV, b: OrderV| buy_precedes(a, b),
                            w,
                        );
                    }
                    assert(all_asset(self.buys(), w) && all_asset(self.sells(), w));
                }
            },
            OrderType::Sell => {
                upsert_sell_side(&mut self.sell_orders, order);
                proof {
                    lemma_filter_each(s0, not_id(ov.id), |x: OrderV| x.asset == w);
                    if ov.amount > 0 {
                        lemma_insert_by_asset(
                            s0.filter(not_id(ov.id)),
                            ov,
                            |a: OrderV, b: OrderV| sell_precedes(a, b),
                            w,
                        );
                    }
                    assert(all_asset(self.buys(), w) && all_asset(self.sells(), w));
                }
            },
        }
    }

    /// Removes the order with the given identifier and price from a side.
    /// (An empty price level vanishes with it, since levels are implicit in
    /// the flat representation.)
    pub fn remove_order(&mut self, order_id: &str, price: u128, order_type: OrderType)
        requires
            old(self).wf(),
        ensures
            final(self).wf(),
            order_type == OrderType::Buy ==> final(self).buys() == old(self).buys().filter(
                not_id_at_price(order_id@, price),
            ) && final(self).sells() == old(self).sells(),
            order_type == OrderType::Sell ==> final(self).sells() == old(self).sells().filter(
                not_id_at_price(order_id@, price),
            ) && final(self).buys() == old(self).buys(),
    {
        match order_type {
            OrderType::Buy => {
                let ghost s0 = self.buys();
                let ghost a0 = choose|a: Seq<char>|
                    all_asset(self.buys(), a) && all_asset(self.sells(), a);
                self.buy_orders = without_id_at_price(&self.buy_orders, order_id, price);
                proof {
                    lemma_buy_filter_wf(s0, not_id_at_price(order_id@, price));
                    lemma_filter_each(s0, not_id_at_price(order_id@, price), |x: OrderV| x.asset == a0);
                    assert(all_asset(self.buys(), a0) && all_asset(self.sells(), a0));
                }
            },
            OrderType::Sell => {
                let ghost s0 = self.sells();
                let ghost a0 = choose|a: Seq<char>|
                    all_asset(self.buys(), a) && all_asset(self.sells(), a);
                self.sell_orders = without_id_at_price(&self.sell_orders, order_id, price);
                proof {
                    lemma_sell_filter_wf(s0, not_id_at_price(order_id@, price));
                    lemma_filter_each(s0, not_id_at_price(order_id@, price), |x: OrderV| x.asset == a0);
                    assert(all_asset(self.buys(), a0) && all_asset(self.sells(), a0));
                }
            },
        }
    }

    /// The orders resting at one price level of a side, in time priority.
    pub fn get_orders(&self, price: u128, order_type: OrderType) -> (r: Vec<SpotOrder>)
        ensures
            order_type == OrderType::Buy ==> views(r@) == self.buys().filter(has_price(price)),
            order_type == OrderType::Sell ==> views(r@) == self.sells().filter(has_price(price)),
    {
        match order_type {
            OrderType::Buy => at_price(&self.buy_orders, price),
            OrderType::Sell => at_price(&self.sell_orders, price),
        }
    }

    /// A snapshot of the buy side in priority order. A read, not a drain.
    pub fn get_all_buy_orders(&self) -> (r: Vec<SpotOrder>)
        ensures
            views(r@) == self.buys(),
    {
        clone_orders(&self.buy_orders)
    }

    /// A snapshot of the sell side in priority order. A read, not a drain.
    pub fn get_all_sell_orders(&self) -> (r: Vec<SpotOrder>)
        ensures
            views(r@) == self.sells(),
    {
        clone_orders(&self.sell_orders)
    }

    /// Snapshots of both sides.
    pub fn get_all_orders2(&self) -> (r: (Vec<SpotOrder>, Vec<SpotOrder>))
        ensures
            views(r.0@) == self.buys(),
            views(r.1@) == self.sells(),
    {
        (self.get_all_buy_orders(), self.get_all_sell_orders())
    }

    /// Snapshots of both sides.
    pub fn get_all_orders(&self) -> (r: (Vec<SpotOrder>, Vec<SpotOrder>))
        ensures
            views(r.0@) == self.buys(),
            views(r.1@) == self.sells(),
    {
        self.get_all_orders2()
    }

    /// Replaces the whole book: clears both sides, then upserts the given
    /// orders in order, buys into the buy side and sells into the sell side.
    pub fn reset_and_fill_orders(
        &mut self,
        new_buy_orders: Vec<SpotOrder>,
        new_sell_orders: Vec<SpotOrder>,
    )
        requires
            one_market(views(new_buy_orders@), views(new_sell_orders@)),
        ensures
            final(self).wf(),
            final(self).buys() == buy_book_of(views(new_buy_orders@)),
            final(self).sells() == sell_book_of(views(new_sell_orders@)),
    {
        self.clear_orders();
        let ghost nb = views(new_buy_orders@);
        let ghost ns = views(new_sell_orders@);
        let ghost w = choose|a: Seq<char>| all_asset(nb, a) && all_asset(ns, a);
        proof {
            assert(all_asset(self.buys(), w) && all_asset(self.sells(), w));
        }
        let mut i: usize = 0;
        while i < new_buy_orders.len()
            invariant
                0 <= i <= new_buy_orders.len(),
                nb == views(new_buy_orders@),
                self.wf(),
                all_asset(nb, w) && all_asset(ns, w),
                all_asset(self.buys(), w) && all_asset(self.sells(), w),
                self.buys() == buy_book_of(nb.take(i as int)),
                self.sells() == Seq::<OrderV>::empty(),
            decreases new_buy_orders@.len() - i,
        {
            let o = new_buy_orders[i].clone();
            proof {
                assert(nb[i as int] == new_buy_orders@[i as int]@);
            }
            let ghost before = self.buys();
            upsert_buy_side(&mut self.buy_orders, o);
            proof {
                assert(nb.take(i + 1).drop_last() =~= nb.take(i as int));
                assert(nb.take(i + 1).last() == nb[i as int]);
                lemma_filter_each(before, not_id(nb[i as int].id), |x: OrderV| x.asset == w);
                if nb[i as int].amount > 0 {
                    lemma_insert_by_asset(
                        before.filter(not_id(nb[i as int].id)),
                        nb[i as int],
                        |a: OrderV, b: OrderV| buy_precedes(a, b),
                        w,
                    );
                }
                assert(all_asset(self.buys(), w) && all_asset(self.sells(), w));
            }
            i = i + 1;
        }
        proof {
            assert(nb.take(nb.len() as int) =~= nb);
        }
        let mut j: usize = 0;
        while j < new_sell_orders.len()
            invariant
                0 <= j <= new_sell_orders.len(),
                ns == views(new_sell_orders@),
                self.wf(),
                all_asset(nb, w) && all_asset(ns, w),
                all_asset(self.buys(), w) && all_asset(self.sells(), w),
                self.buys() == buy_book_of(views(new_buy_orders@)),
                self.sells() == sell_book_of(ns.take(j as int)),
            decreases new_sell_orders@.len() - j,
        {
            let o = new_sell_orders[j].clone();
            proof {
                assert(ns[j as int] == new_sell_orders@[j as int]@);
            }
            let ghost before = self.sells();
            upsert_sell_side(&mut self.sell_orders, o);
            proof {
                assert(ns.take(j + 1).drop_last() =~= ns.take(j as int));
                assert(ns.take(j + 1).last() == ns[j as int]);
                lemma_filter_each(before, not_id(ns[j as int].id), |x: OrderV| x.asset == w);
                if ns[j as int].amount > 0 {
                    lemma_insert_by_asset(
                        before.filter(not_id(ns[j as int].id)),
                        ns[j as int],
                        |a: OrderV, b: OrderV| sell_precedes(a, b),
                        w,
                    );
                }
                assert(all_asset(self.buys(), w) && all_asset(self.sells(), w));
            }
            j = j + 1;
        }
        proof {
            assert(ns.take(ns.len() as int) =~= ns);
        }
    }

    /// Removes every order from both sides.
    pub fn clear_orders(&mut self)
        ensures
            final(self).wf(),
            final(self).buys() == Seq::<OrderV>::empty(),
            final(self).sells() == Seq::<OrderV>::empty(),
    {
        self.buy_orders = Vec::new();
        self.sell_orders = Vec::new();
        proof {
            assert(views(self.buy_orders@) =~= Seq::<OrderV>::empty());
            assert(views(self.sell_orders@) =~= Seq::<OrderV>::empty());
            assert(all_asset(self.buys(), Seq::<char>::empty()) && all_asset(
                self.sells(),
                Seq::<char>::empty(),
            ));
        }
    }
}

} // verus!

verus! {

/// The views of a list of identifiers.
pub open spec fn str_views(s: Seq<String>) -> Seq<Seq<char>> {
    s.map_values(|x: String| x@)
}

/// Whether `id` occurs in a list of identifiers.
pub open spec fn id_in(ids: Seq<Seq<char>>, id: Seq<char>) -> bool {
    exists|k: int| 0 <= k < ids.len() && ids[k] == id
}

/// The predicate that keeps every order whose identifier is not in `ids`.
pub open spec fn not_listed(ids: Seq<Seq<char>>) -> spec_fn(OrderV) -> bool {
    |o: OrderV| !id_in(ids, o.id)
}

/// The predicate that keeps the orders with remaining size greater than zero.
pub open spec fn positive_order() -> spec_fn(OrderV) -> bool {
    |o: OrderV| o.amount > 0
}

/// Whether `id` occurs in the list.
pub(crate) fn contains_id(ids: &Vec<String>, id: &str) -> (r: bool)
    ensures
        r == id_in(str_views(ids@), id@),
{
    let ghost sv = str_views(ids@);
    let mut k: usize = 0;
    while k < ids.len()
        invariant
            0 <= k <= ids.len(),
            sv == str_views(ids@),
            forall|j: int| 0 <= j < k ==> sv[j] != id@,
        decreases ids@.len() - k,
    {
        proof {
            assert(sv[k as int] == ids@[k as int]@);
        }
        if str_eq(ids[k].as_str(), id) {
            return true;
        }
        k = k + 1;
    }
    false
}

/// The orders whose remaining size is greater than zero, in their original
/// order.
#[verifier::loop_isolation(false)]
pub(crate) fn keep_positive(v: &Vec<SpotOrder>) -> (r: Vec<SpotOrder>)
    ensures
        views(r@) == views(v@).filter(positive_order()),
{
    let ghost s = views(v@);
    let ghost pred = positive_order();
    let mut r: Vec<SpotOrder> = Vec::new();
    let mut i: usize = 0;
    while i < v.len()
        invariant
            0 <= i <= v.len(),
            views(v@) == s,
            views(r@) == s.take(i as int).filter(pred),
        decreases v@.len() - i,
    {
        let keep = v[i].amount > 0;
        proof {
            reveal(Seq::filter);
            assert(s.take(i + 1).drop_last() =~= s.take(i as int));
            assert(s.take(i + 1).last() == s[i as int]);
            assert(s[i as int] == v@[i as int]@);
            assert(s.take(i + 1).filter(pred) == (if pred(s[i as int]) {
                s.take(i as int).filter(pred).push(s[i as int])
            } else {
                s.take(i as int).filter(pred)
            }));
        }
        if keep {
            r.push(v[i].clone());
            proof {
                assert(views(r@) =~= s.take(i as int).filter(pred).push(s[i as int]));
            }
        }
        i = i + 1;
    }
    proof {
        assert(s.take(s.len() as int) =~= s);
    }
    r
}

/// The orders whose identifier is not in `ids`, in their original order.
#[verifier::loop_isolation(false)]
fn without_listed(v: &Vec<SpotOrder>, ids: &Vec<String>) -> (r: Vec<SpotOrder>)
    ensures
        views(r@) == views(v@).filter(not_listed(str_views(ids@))),
{
    let ghost s = views(v@);
    let ghost pred = not_listed(str_views(ids@));
    let mut r: Vec<SpotOrder> = Vec::new();
    let mut i: usize = 0;
    while i < v.len()
        invariant
            0 <= i <= v.len(),
            views(v@) == s,
            views(r@) == s.take(i as int).filter(pred),
        decreases v@.len() - i,
    {
        let keep = !contains_id(ids, v[i].id.as_str());
        proof {
            reveal(Seq::filter);
            assert(s.take(i + 1).drop_last() =~= s.take(i as int));
            assert(s.take(i + 1).last() == s[i as int]);
            assert(s[i as int] == v@[i as int]@);
            assert(s.take(i + 1).filter(pred) == (if pred(s[i as int]) {
                s.take(i as int).filter(pred).push(s[i as int])
            } else {
                s.take(i as int).filter(pred)
            }));
        }
        if keep {
            r.push(v[i].clone());
            proof {
                assert(views(r@) =~= s.take(i as int).filter(pred).push(s[i as int]));
            }
        }
        i = i + 1;
    }
    proof {
        assert(s.take(s.len() as int) =~= s);
    }
    r
}

impl OrderManager {
    /// Evicts one order from both sides, wherever it rests. Used when the
    /// settlement ledger reports the order gone: the indexer's view lagged.
    pub fn evict_order(&mut self, order_id: &str)
        requires
            old(self).wf(),
        ensures
            final(self).wf(),
            final(self).buys() == old(self).buys().filter(not_id(order_id@)),
            final(self).sells() == old(self).sells().filter(not_id(order_id@)),
    {
        let ghost b0 = self.buys();
        let ghost s0 = self.sells();
        let ghost a0 = choose|a: Seq<char>| all_asset(b0, a) && all_asset(s0, a);
        self.buy_orders = without_id(&self.buy_orders, order_id);
        self.sell_orders = without_id(&self.sell_orders, order_id);
        proof {
            lemma_buy_filter_wf(b0, not_id(order_id@));
            lemma_sell_filter_wf(s0, not_id(order_id@));
            lemma_filter_each(b0, not_id(order_id@), |x: OrderV| x.asset == a0);
            lemma_filter_each(s0, not_id(order_id@), |x: OrderV| x.asset == a0);
            assert(all_asset(self.buys(), a0) && all_asset(self.sells(), a0));
        }
    }

    /// Evicts every order whose identifier is in the list, from both sides.
    pub fn evict_orders(&mut self, ids: &Vec<String>)
        requires
            old(self).wf(),
        ensures
            final(self).wf(),
            final(self).buys() == old(self).buys().filter(not_listed(str_views(ids@))),
            final(self).sells() == old(self).sells().filter(not_listed(str_views(ids@))),
    {
        let ghost b0 = self.buys();
        let ghost s0 = self.sells();
        let ghost a0 = choose|a: Seq<char>| all_asset(b0, a) && all_asset(s0, a);
        self.buy_orders = without_listed(&self.buy_orders, ids);
        self.sell_orders = without_listed(&self.sell_orders, ids);
        proof {
            lemma_buy_filter_wf(b0, not_listed(str_views(ids@)));
            lemma_sell_filter_wf(s0, not_listed(str_views(ids@)));
            lemma_filter_each(b0, not_listed(str_views(ids@)), |x: OrderV| x.asset == a0);
            lemma_filter_each(s0, not_listed(str_views(ids@)), |x: OrderV| x.asset == a0);
            assert(all_asset(self.buys(), a0) && all_asset(self.sells(), a0));
        }
    }

    /// Replaces both sides with already well-formed vectors.
    pub(crate) fn replace_sides(&mut self, buys: Vec<SpotOrder>, sells: Vec<SpotOrder>)
        requires
            buy_side_wf(views(buys@)),
            sell_side_wf(views(sells@)),
            one_market(views(buys@), views(sells@)),
        ensures
            final(self).wf(),
            final(self).buys() == views(buys@),
            final(self).sells() == views(sells@),
    {
        self.buy_orders = buys;
        self.sell_orders = sells;
    }
}

} // verus!
