//! The settlement batcher.
//!
//! Matches are grouped into bounded batches and submitted to the settlement
//! collaborator. When a whole batch fails, the batch is not dropped: the
//! fallback resubmits each pair on its own, so one bad pair cannot block the
//! rest. The submissions themselves are network calls and live outside the
//! library; this module plans the batches, plans the per-pair fallback, and
//! folds the collaborator's answers back into settled and failed pairs.

use vstd::prelude::*;

verus! {

use crate::engine::{Match, MatchV};
use crate::phantom::match_views;

/// The `i`-th batch of a sequence chunked with the given bound.
pub open spec fn chunk_of(s: Seq<MatchV>, max: int, i: int) -> Seq<MatchV> {
    s.subrange(
        i * max,
        if (i + 1) * max <= s.len() {
            (i + 1) * max
        } else {
            s.len() as int
        },
    )
}

/// Splits the matches into consecutive batches of at most `max` pairs.
/// Every match lands in exactly one batch, in order; only the last batch may
/// be short, and no batch is empty.
#[verifier::loop_isolation(false)]
pub fn chunk_matches(ms: &Vec<Match>, max: usize) -> (r: Vec<Vec<Match>>)
    requires
        max > 0,
    ensures
        ms@.len() <= r@.len() * max,
        r@.len() * max < ms@.len() + max,
        forall|i: int|
            0 <= i < r@.len() ==> match_views(#[trigger] r@[i]@) == chunk_of(
                match_views(ms@),
                max as int,
                i,
            ),
{
    let ghost s = match_views(ms@);
    let mut r: Vec<Vec<Match>> = Vec::new();
    let mut start: usize = 0;
    while start < ms.len()
        invariant
            0 <= start <= ms.len(),
            s == match_views(ms@),
            max > 0,
            start as int == (if r@.len() * max <= s.len() {
                r@.len() * (max as int)
            } else {
                s.len() as int
            }),
            r@.len() * max < s.len() + max,
            forall|i: int|
                0 <= i < r@.len() ==> match_views(#[trigger] r@[i]@) == chunk_of(s, max as int, i),
        decreases ms@.len() - start,
    {
        proof {
            assert(r@.len() * max == start as int) by {
                if r@.len() * max > s.len() {
                    assert(start as int == s.len() as int);
                }
            }
        }
        let remaining = ms.len() - start;
        let end = if remaining > max {
            start + max
        } else {
            ms.len()
        };
        let mut chunk: Vec<Match> = Vec::new();
        let mut j: usize = start;
        while j < end
            invariant
                start <= j <= end <= ms.len(),
                s == match_views(ms@),
                match_views(chunk@) == s.subrange(start as int, j as int),
            decreases end - j,
        {
            chunk.push(ms[j].clone());
            proof {
                assert(s[j as int] == ms@[j as int]@);
                assert(match_views(chunk@) =~= s.subrange(start as int, j + 1));
            }
            j = j + 1;
        }
        let ghost n0 = r@.len();
        r.push(chunk);
        proof {
            assert((n0 + 1) * max == n0 * max + max) by (nonlinear_arith);
            assert(match_views(r@[n0 as int]@) == chunk_of(s, max as int, n0 as int)) by {
                assert(chunk_of(s, max as int, n0 as int) == s.subrange(
                    start as int,
                    end as int,
                ));
            }
            assert forall|i: int| 0 <= i < r@.len() implies match_views(#[trigger] r@[i]@)
                == chunk_of(s, max as int, i) by {
                if i < n0 {
                    assert(r@[i] == r@.subrange(0, n0 as int)[i]);
                }
            }
        }
        start = end;
    }
    proof {
        if r@.len() * max > s.len() {
        } else {
            assert(start as int == r@.len() * max);
        }
    }
    r
}

/// The per-pair fallback plan for a failed batch: each pair becomes a
/// submission of its own, in the batch's order.
#[verifier::loop_isolation(false)]
pub fn plan_retries(batch: &Vec<Match>) -> (r: Vec<Vec<Match>>)
    ensures
        r@.len() == batch@.len(),
        forall|i: int|
            0 <= i < r@.len() ==> match_views(#[trigger] r@[i]@) == seq![batch@[i]@],
{
    let mut r: Vec<Vec<Match>> = Vec::new();
    let mut i: usize = 0;
    while i < batch.len()
        invariant
            0 <= i <= batch.len(),
            r@.len() == i,
            forall|k: int|
                0 <= k < i ==> match_views(#[trigger] r@[k]@) == seq![batch@[k]@],
        decreases batch@.len() - i,
    {
        let mut one: Vec<Match> = Vec::new();
        one.push(batch[i].clone());
        proof {
            assert(match_views(one@) =~= seq![batch@[i as int]@]);
        }
        r.push(one);
        i = i + 1;
    }
    r
}

/// The pairs of a retry plan whose own submission came back with the given
/// outcome, in order.
pub open spec fn with_outcome(plan: Seq<Seq<MatchV>>, res: Seq<bool>, want: bool) -> Seq<MatchV>
    decreases plan.len(),
{
    if plan.len() == 0 || res.len() < plan.len() {
        Seq::empty()
    } else {
        with_outcome(plan.drop_last(), res.take(plan.len() - 1), want) + (if res[plan.len() - 1]
            == want {
            seq![plan.last()[0]]
        } else {
            Seq::empty()
        })
    }
}

/// Folds the collaborator's per-submission answers back into the settled
/// pairs and the failed pairs.
#[verifier::loop_isolation(false)]
pub fn settle_outcomes(plan: &Vec<Vec<Match>>, results: &Vec<bool>) -> (r: (Vec<Match>, Vec<Match>))
    requires
        plan@.len() == results@.len(),
        forall|i: int| 0 <= i < plan@.len() ==> (#[trigger] plan@[i]@).len() == 1,
    ensures
        match_views(r.0@) == with_outcome(plan_views(plan@), results@, true),
        match_views(r.1@) == with_outcome(plan_views(plan@), results@, false),
{
    let ghost pv = plan_views(plan@);
    let mut settled: Vec<Match> = Vec::new();
    let mut failed: Vec<Match> = Vec::new();
    let mut i: usize = 0;
    while i < plan.len()
        invariant
            0 <= i <= plan.len(),
            plan@.len() == results@.len(),
            pv == plan_views(plan@),
            forall|k: int| 0 <= k < plan@.len() ==> (#[trigger] plan@[k]@).len() == 1,
            match_views(settled@) == with_outcome(pv.take(i as int), results@.take(i as int), true),
            match_views(failed@) == with_outcome(pv.take(i as int), results@.take(i as int), false),
        decreases plan@.len() - i,
    {
        proof {
            assert(pv.take(i + 1).drop_last() =~= pv.take(i as int));
            assert(results@.take(i + 1).take(i as int) =~= results@.take(i as int));
            assert(pv.take(i + 1).last() == pv[i as int]);
            assert(pv[i as int] == match_views(plan@[i as int]@));
            assert(pv[i as int][0] == plan@[i as int]@[0]@);
        }
        if results[i] {
            settled.push(plan[i][0].clone());
            proof {
                assert(match_views(settled@) =~= with_outcome(
                    pv.take(i as int),
                    results@.take(i as int),
                    true,
                ).push(pv[i as int][0]));
                assert(with_outcome(pv.take(i + 1), results@.take(i + 1), true)
                    =~= with_outcome(pv.take(i as int), results@.take(i as int), true).push(
                    pv[i as int][0],
                ));
            }
        } else {
            failed.push(plan[i][0].clone());
            proof {
                assert(match_views(failed@) =~= with_outcome(
                    pv.take(i as int),
                    results@.take(i as int),
                    false,
                ).push(pv[i as int][0]));
                assert(with_outcome(pv.take(i + 1), results@.take(i + 1), false)
                    =~= with_outcome(pv.take(i as int), results@.take(i as int), false).push(
                    pv[i as int][0],
                ));
            }
        }
        i = i + 1;
    }
    proof {
        assert(pv.take(pv.len() as int) =~= pv);
        assert(results@.take(results@.len() as int) =~= results@);
    }
    (settled, failed)
}

/// The views of a retry plan.
pub open spec fn plan_views(plan: Seq<Vec<Match>>) -> Seq<Seq<MatchV>> {
    plan.map_values(|b: Vec<Match>| match_views(b@))
}


/// Batch isolation. With the per-pair fallback engaged, each pair's fate
/// depends on its own submission alone: every pair whose retry succeeded is
/// among the settled pairs, and every pair whose retry failed is among the
/// failed ones — so one failing pair within a batch of K pairs never keeps
/// the other K - 1 pairs from being settled. Settled and failed together
/// account for the whole batch.
pub proof fn lemma_batch_isolation(plan: Seq<Seq<MatchV>>, res: Seq<bool>)
    requires
        plan.len() == res.len(),
        forall|i: int| 0 <= i < plan.len() ==> (#[trigger] plan[i]).len() == 1,
    ensures
        forall|i: int|
            0 <= i < plan.len() && res[i] ==> with_outcome(plan, res, true).contains(
                #[trigger] plan[i][0],
            ),
        forall|i: int|
            0 <= i < plan.len() && !res[i] ==> with_outcome(plan, res, false).contains(
                #[trigger] plan[i][0],
            ),
        with_outcome(plan, res, true).len() + with_outcome(plan, res, false).len() == plan.len(),
    decreases plan.len(),
{
    if plan.len() == 0 {
    } else {
        let n = plan.len() - 1;
        let dp = plan.drop_last();
        let dr = res.take(n);
        assert forall|i: int| 0 <= i < dp.len() implies (#[trigger] dp[i]).len() == 1 by {
            assert(dp[i] == plan[i]);
        }
        lemma_batch_isolation(dp, dr);
        let wt = with_outcome(plan, res, true);
        let wf_ = with_outcome(plan, res, false);
        let pt = with_outcome(dp, dr, true);
        let pf = with_outcome(dp, dr, false);
        assert(wt == pt + (if res[n] == true {
            seq![plan.last()[0]]
        } else {
            Seq::<MatchV>::empty()
        }));
        assert(wf_ == pf + (if res[n] == false {
            seq![plan.last()[0]]
        } else {
            Seq::<MatchV>::empty()
        }));
        assert forall|i: int| 0 <= i < plan.len() && res[i] implies wt.contains(
            #[trigger] plan[i][0],
        ) by {
            if i == n {
                assert(wt[wt.len() - 1] == plan[i][0]);
            } else {
                assert(dp[i] == plan[i] && dr[i] == res[i]);
                assert(pt.contains(plan[i][0]));
                let k = choose|k: int| 0 <= k < pt.len() && pt[k] == plan[i][0];
                assert(wt[k] == plan[i][0]);
            }
        }
        assert forall|i: int| 0 <= i < plan.len() && !res[i] implies wf_.contains(
            #[trigger] plan[i][0],
        ) by {
            if i == n {
                assert(wf_[wf_.len() - 1] == plan[i][0]);
            } else {
                assert(dp[i] == plan[i] && dr[i] == res[i]);
                assert(pf.contains(plan[i][0]));
                let k = choose|k: int| 0 <= k < pf.len() && pf[k] == plan[i][0];
                assert(wf_[k] == plan[i][0]);
            }
        }
    }
}

} // verus!
