//! The phantom filter.
//!
//! The indexer's view can lag the settlement ledger: an order it still shows
//! may already be filled or cancelled on-chain. Before candidate matches are
//! batched, the caller asks the settlement collaborator which legs are still
//! live; the identifiers reported gone are phantom. Phantom orders are
//! evicted from the book ([`crate::book::OrderManager::evict_orders`]), kept
//! on an ignore-list for the rest of the cycle, and no match touching them
//! enters any settlement batch.

use vstd::prelude::*;

verus! {

use crate::book::{id_in, lemma_filter_noop, lemma_filter_sat, not_id, not_listed, str_views};
use crate::engine::{Match, MatchV};
use crate::model::OrderV;

/// The views of a sequence of matches.
pub open spec fn match_views(s: Seq<Match>) -> Seq<MatchV> {
    s.map_values(|m: Match| m@)
}

/// The predicate that keeps a match only when neither of its legs is on the
/// phantom list.
pub open spec fn live_match(ids: Seq<Seq<char>>) -> spec_fn(MatchV) -> bool {
    |m: MatchV| !id_in(ids, m.buy_id) && !id_in(ids, m.sell_id)
}

/// The ignore-list of one matching cycle: the identifiers found phantom so
/// far. It is cleared between cycles, so it cannot grow without bound.
pub struct IgnoreList {
    ids: Vec<String>,
}

impl IgnoreList {
    /// The identifiers on the list.
    pub closed spec fn ids(&self) -> Seq<Seq<char>> {
        str_views(self.ids@)
    }

    /// An empty ignore-list, for the start of a cycle.
    pub fn new() -> (r: Self)
        ensures
            r.ids() == Seq::<Seq<char>>::empty(),
    {
        let r = IgnoreList { ids: Vec::new() };
        proof {
            assert(str_views(r.ids@) =~= Seq::<Seq<char>>::empty());
        }
        r
    }

    /// Records one identifier reported phantom.
    pub fn add(&mut self, id: String)
        ensures
            final(self).ids() == old(self).ids().push(id@),
    {
        let ghost s0 = str_views(self.ids@);
        self.ids.push(id);
        proof {
            assert(str_views(self.ids@) =~= s0.push(self.ids@.last()@));
        }
    }

    /// Whether an identifier is on the list.
    pub fn contains(&self, id: &str) -> (r: bool)
        ensures
            r == id_in(self.ids(), id@),
    {
        crate::book::contains_id(&self.ids, id)
    }

    /// The identifiers, for eviction from the book.
    pub fn as_ids(&self) -> (r: &Vec<String>)
        ensures
            str_views(r@) == self.ids(),
    {
        &self.ids
    }
}

/// The candidate matches both of whose legs are live: no match that touches
/// a phantom order enters a settlement batch.
#[verifier::loop_isolation(false)]
pub fn filter_matches(ms: &Vec<Match>, phantom_ids: &Vec<String>) -> (r: Vec<Match>)
    ensures
        match_views(r@) == match_views(ms@).filter(live_match(str_views(phantom_ids@))),
{
    let ghost s = match_views(ms@);
    let ghost pred = live_match(str_views(phantom_ids@));
    let mut r: Vec<Match> = Vec::new();
    let mut i: usize = 0;
    while i < ms.len()
        invariant
            0 <= i <= ms.len(),
            match_views(ms@) == s,
            match_views(r@) == s.take(i as int).filter(pred),
        decreases ms@.len() - i,
    {
        let keep = !crate::book::contains_id(phantom_ids, ms[i].buy_id.as_str())
            && !crate::book::contains_id(phantom_ids, ms[i].sell_id.as_str());
        proof {
            reveal(Seq::filter);
            assert(s.take(i + 1).drop_last() =~= s.take(i as int));
            assert(s.take(i + 1).last() == s[i as int]);
            assert(s[i as int] == ms@[i as int]@);
            assert(s.take(i + 1).filter(pred) == (if pred(s[i as int]) {
                s.take(i as int).filter(pred).push(s[i as int])
            } else {
                s.take(i as int).filter(pred)
            }));
        }
        if keep {
            r.push(ms[i].clone());
            proof {
                assert(match_views(r@) =~= s.take(i as int).filter(pred).push(s[i as int]));
            }
        }
        i = i + 1;
    }
    proof {
        assert(s.take(s.len() as int) =~= s);
    }
    r
}

/// Idempotence of phantom eviction: evicting the same identifier from a side
/// a second time is a no-op — the order is already gone.
pub proof fn lemma_evict_idempotent(s: Seq<OrderV>, id: Seq<char>)
    ensures
        s.filter(not_id(id)).filter(not_id(id)) == s.filter(not_id(id)),
{
    lemma_filter_sat(s, not_id(id));
    lemma_filter_noop(s.filter(not_id(id)), not_id(id));
}

/// Idempotence of phantom eviction for a whole ignore-list: a second pass
/// with the same list removes nothing further.
pub proof fn lemma_evict_list_idempotent(s: Seq<OrderV>, ids: Seq<Seq<char>>)
    ensures
        s.filter(not_listed(ids)).filter(not_listed(ids)) == s.filter(not_listed(ids)),
{
    lemma_filter_sat(s, not_listed(ids));
    lemma_filter_noop(s.filter(not_listed(ids)), not_listed(ids));
}

} // verus!
