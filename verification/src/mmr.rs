//! Maximal marginal relevance: a diversity-aware re-ranking that trades
//! relevance against redundancy with already-selected results.
//!
//! At each step the remaining candidate maximizing
//! `lambda * relevance - (1 - lambda) * max_similarity_to_selected` is
//! selected, with a zero similarity contribution for the first pick; ties go
//! to the earliest candidate. The marginal values are compared as exact
//! integer products, with no fixed-point rounding, so the selection follows
//! the formula precisely.

use vstd::prelude::*;
use crate::SCALE;
use crate::traverse::TraversalCandidate;

verus! {

/// A pairwise similarity between items, as fixed-point scores.
pub trait Similarity {
    /// The similarity this source reports for a pair of items.
    spec fn sim_spec(&self, a: i64, b: i64) -> i64;

    /// Compute the similarity of two items; always within `[-SCALE, SCALE]`.
    fn sim(&self, a: i64, b: i64) -> (r: i64)
        ensures
            r == self.sim_spec(a, b),
            -(SCALE as int) <= r <= SCALE as int,
    ;
}

/// The largest similarity between an item and any already-selected one, at
/// least zero: the first pick contributes nothing.
pub open spec fn max_sim_to<S: Similarity>(sim: &S, selected: Seq<TraversalCandidate>, id: i64) -> int
    decreases selected.len(),
{
    if selected.len() == 0 {
        0
    } else {
        let prev = max_sim_to(sim, selected.drop_last(), id);
        let cur = sim.sim_spec(id, selected.last().book_id) as int;
        if cur > prev {
            cur
        } else {
            prev
        }
    }
}

/// The marginal-relevance value of a candidate against a selected prefix,
/// as an exact integer: `lambda` times the relevance, minus one-minus-lambda
/// times the largest similarity to anything already selected.
pub open spec fn mmr_value<S: Similarity>(
    sim: &S,
    selected: Seq<TraversalCandidate>,
    lambda: u64,
    c: &TraversalCandidate,
) -> int {
    (lambda as int) * (c.score as int) - ((SCALE - lambda) as int) * max_sim_to(
        sim,
        selected,
        c.book_id,
    )
}

/// Each selected candidate had the greatest marginal relevance, against the
/// candidates already selected before it, of everything selected at its turn
/// or later.
pub open spec fn greedy_selection<S: Similarity>(
    sim: &S,
    lambda: u64,
    r: Seq<TraversalCandidate>,
) -> bool {
    forall|i: int, j: int| 0 <= i < j < r.len() ==> mmr_value(
        sim,
        r.take(i),
        lambda,
        &(#[trigger] r[i]),
    ) >= mmr_value(sim, r.take(i), lambda, &(#[trigger] r[j]))
}

/// Select a diverse top-k from scored candidates by maximal marginal
/// relevance.
///
/// Greedy selection, ties to the earliest candidate. The result holds
/// `min(top_k, candidates.len())` of the candidates, never invents or
/// duplicates one, and is a greedy selection: each entry maximized the
/// marginal-relevance value at its turn among everything selected from then
/// on. The first entry in particular maximizes `lambda * relevance` over all
/// candidates, and with `top_k` at least the number of candidates the result
/// holds exactly the input candidates.
pub fn maximal_marginal_relevance<S: Similarity>(
    candidates: Vec<TraversalCandidate>,
    sim: &S,
    lambda: u64,
    top_k: usize,
) -> (r: Vec<TraversalCandidate>)
    requires
        lambda <= SCALE,
        forall|k: int| 0 <= k < candidates@.len() ==> (#[trigger] candidates@[k]).score <= SCALE,
    ensures
        r@.len() == if top_k <= candidates@.len() {
            top_k as int
        } else {
            candidates@.len() as int
        },
        forall|x: TraversalCandidate| #[trigger] r@.to_multiset().count(x)
            <= candidates@.to_multiset().count(x),
        top_k >= candidates@.len() ==> r@.to_multiset() == candidates@.to_multiset(),
        greedy_selection(sim, lambda, r@),
        r@.len() > 0 ==> forall|k: int| 0 <= k < candidates@.len() ==> (lambda as int) * (
        r@[0].score as int) >= (lambda as int) * ((#[trigger] candidates@[k]).score as int),
        (lambda > 0 && r@.len() > 0) ==> forall|k: int| 0 <= k < candidates@.len()
            ==> r@[0].score >= (#[trigger] candidates@[k]).score,
        exists|rest: Seq<TraversalCandidate>|
            {
                &&& #[trigger] r@.to_multiset().add(rest.to_multiset())
                    == candidates@.to_multiset()
                &&& forall|i: int, j: int|
                    0 <= i < r@.len() && 0 <= j < rest.len() ==> mmr_value(
                        sim,
                        r@.take(i),
                        lambda,
                        &(#[trigger] r@[i]),
                    ) >= mmr_value(sim, r@.take(i), lambda, &(#[trigger] rest[j]))
            },
{
    broadcast use vstd::multiset::group_multiset_axioms;

    let ghost orig = candidates@;
    let mut remaining = candidates;
    let mut selected: Vec<TraversalCandidate> = Vec::new();
    proof {
        assert forall|x: TraversalCandidate|
            selected@.to_multiset().add(remaining@.to_multiset()).count(x)
                == orig.to_multiset().count(x) by {
            vstd::seq_lib::to_multiset_contains(selected@, x);
        }
        assert(selected@.to_multiset().add(remaining@.to_multiset()) =~= orig.to_multiset());
    }
    while selected.len() < top_k && remaining.len() > 0
        invariant
            lambda <= SCALE,
            selected@.len() + remaining@.len() == orig.len(),
            selected@.len() <= top_k,
            selected@.to_multiset().add(remaining@.to_multiset()) == orig.to_multiset(),
            forall|k: int| 0 <= k < remaining@.len() ==> (#[trigger] remaining@[k]).score
                <= SCALE,
            forall|k: int| 0 <= k < selected@.len() ==> (#[trigger] selected@[k]).score
                <= SCALE,
            greedy_selection(sim, lambda, selected@),
            forall|i: int, j: int|
                0 <= i < selected@.len() && 0 <= j < remaining@.len() ==> mmr_value(
                    sim,
                    selected@.take(i),
                    lambda,
                    &(#[trigger] selected@[i]),
                ) >= mmr_value(sim, selected@.take(i), lambda, &(#[trigger] remaining@[j])),
            selected@.len() > 0 ==> forall|k: int| 0 <= k < remaining@.len() ==> (
            lambda as int) * (selected@[0].score as int) >= (lambda as int) * ((
            #[trigger] remaining@[k]).score as int),
            selected@.len() > 0 ==> forall|k: int| 0 <= k < selected@.len() ==> (
            lambda as int) * (selected@[0].score as int) >= (lambda as int) * ((
            #[trigger] selected@[k]).score as int),
        decreases remaining@.len(),
    {
        let mut best_idx: usize = 0;
        let mut best_val: i64 = mmr_of(sim, &selected, lambda, &remaining, 0);
        let mut j: usize = 1;
        while j < remaining.len()
            invariant
                lambda <= SCALE,
                remaining@.len() > 0,
                best_idx < j <= remaining@.len(),
                forall|k: int| 0 <= k < remaining@.len() ==> (#[trigger] remaining@[k]).score
                    <= SCALE,
                forall|k: int| 0 <= k < selected@.len() ==> (#[trigger] selected@[k]).score
                    <= SCALE,
                best_val == mmr_value(sim, selected@, lambda, &remaining@[best_idx as int]),
                forall|k: int| 0 <= k < j ==> best_val >= mmr_value(
                    sim,
                    selected@,
                    lambda,
                    &(#[trigger] remaining@[k]),
                ),
            decreases remaining@.len() - j,
        {
            let v = mmr_of(sim, &selected, lambda, &remaining, j);
            if v > best_val {
                best_val = v;
                best_idx = j;
            }
            j = j + 1;
        }
        let ghost old_selected = selected@;
        let ghost old_remaining = remaining@;
        let x = remaining.remove(best_idx);
        selected.push(x);
        proof {
            vstd::seq_lib::to_multiset_remove(old_remaining, best_idx as int);
            vstd::seq_lib::to_multiset_build(old_selected, x);
            assert(old_remaining.contains(x)) by {
                assert(old_remaining[best_idx as int] == x);
            }
            vstd::seq_lib::to_multiset_contains(old_remaining, x);
            assert(selected@.to_multiset().add(remaining@.to_multiset()) =~= orig.to_multiset());
            assert(selected@.take(old_selected.len() as int) =~= old_selected);
            assert forall|i: int| 0 <= i < old_selected.len() implies selected@.take(i)
                =~= old_selected.take(i) by {}
            assert forall|i: int, jj: int| 0 <= i < jj < selected@.len() implies mmr_value(
                sim,
                selected@.take(i),
                lambda,
                &(#[trigger] selected@[i]),
            ) >= mmr_value(sim, selected@.take(i), lambda, &(#[trigger] selected@[jj])) by {
                if jj < old_selected.len() {
                    assert(mmr_value(sim, old_selected.take(i), lambda, &old_selected[i])
                        >= mmr_value(sim, old_selected.take(i), lambda, &old_selected[jj]));
                } else {
                    assert(selected@[jj] == x);
                    assert(mmr_value(sim, old_selected.take(i), lambda, &old_selected[i])
                        >= mmr_value(
                        sim,
                        old_selected.take(i),
                        lambda,
                        &old_remaining[best_idx as int],
                    ));
                }
            }
            // the removed-from list keeps every other element
            assert forall|i: int, jj: int|
                0 <= i < selected@.len() && 0 <= jj < remaining@.len() implies mmr_value(
                sim,
                selected@.take(i),
                lambda,
                &selected@[i],
            ) >= mmr_value(sim, selected@.take(i), lambda, &remaining@[jj]) by {
                let prev_j = if jj < best_idx {
                    jj
                } else {
                    jj + 1
                };
                assert(remaining@[jj] == old_remaining[prev_j]);
                if i < old_selected.len() {
                    assert(mmr_value(sim, old_selected.take(i), lambda, &old_selected[i])
                        >= mmr_value(sim, old_selected.take(i), lambda, &old_remaining[prev_j]));
                } else {
                    assert(selected@[i] == x);
                    assert(best_val >= mmr_value(sim, old_selected, lambda, &old_remaining[prev_j]));
                }
            }
            if old_selected.len() == 0 {
                // the first pick maximizes the pure relevance half
                assert forall|k: int| 0 <= k < old_remaining.len() implies (lambda as int) * (
                x.score as int) >= (lambda as int) * ((#[trigger] old_remaining[k]).score
                    as int) by {
                    assert(old_selected.take(0) =~= Seq::<TraversalCandidate>::empty());
                    assert(mmr_value(sim, old_selected, lambda, &old_remaining[k]) == (
                    lambda as int) * (old_remaining[k].score as int));
                    assert(best_val >= mmr_value(sim, old_selected, lambda, &old_remaining[k]));
                }
            }
        }
    }
    proof {
        if remaining@.len() == 0 {
            assert forall|x: TraversalCandidate|
                selected@.to_multiset().count(x) == orig.to_multiset().count(x) by {
                vstd::seq_lib::to_multiset_contains(remaining@, x);
            }
            assert(selected@.to_multiset() =~= orig.to_multiset());
        }
        if selected@.len() > 0 {
            assert forall|k: int| 0 <= k < orig.len() implies (lambda as int) * (
            selected@[0].score as int) >= (lambda as int) * ((#[trigger] orig[k]).score
                as int) by {
                let x = orig[k];
                assert(orig.contains(x));
                vstd::seq_lib::to_multiset_contains(orig, x);
                vstd::seq_lib::to_multiset_contains(selected@, x);
                vstd::seq_lib::to_multiset_contains(remaining@, x);
                if selected@.contains(x) {
                    let m = choose|m: int| 0 <= m < selected@.len() && selected@[m] == x;
                } else {
                    assert(remaining@.contains(x));
                    let m = choose|m: int| 0 <= m < remaining@.len() && remaining@[m] == x;
                }
            }
            if lambda > 0 {
                assert forall|k: int| 0 <= k < orig.len() implies selected@[0].score >= (
                #[trigger] orig[k]).score by {
                    assert((lambda as int) * (selected@[0].score as int) >= (lambda as int) * (
                    orig[k].score as int));
                    assert(selected@[0].score as int >= orig[k].score as int)
                        by (nonlinear_arith)
                        requires
                            (lambda as int) * (selected@[0].score as int) >= (lambda as int) * (
                            orig[k].score as int),
                            lambda > 0,
                    ;
                }
            }
        }
        // whatever was never selected is outdone at every pick
        assert(selected@.to_multiset().add(remaining@.to_multiset()) == orig.to_multiset());
    }
    selected
}

/// Compute the marginal-relevance value of `remaining[j]` against the
/// selected list.
fn mmr_of<S: Similarity>(
    sim: &S,
    selected: &Vec<TraversalCandidate>,
    lambda: u64,
    remaining: &Vec<TraversalCandidate>,
    j: usize,
) -> (r: i64)
    requires
        lambda <= SCALE,
        j < remaining@.len(),
        remaining@[j as int].score <= SCALE,
    ensures
        r == mmr_value(sim, selected@, lambda, &remaining@[j as int]),
{
    let c_id = remaining[j].book_id;
    let relevance = remaining[j].score;
    let mut max_sim: i64 = 0;
    let mut i: usize = 0;
    while i < selected.len()
        invariant
            0 <= i <= selected@.len(),
            max_sim == max_sim_to(sim, selected@.take(i as int), c_id),
            0 <= max_sim <= SCALE as int,
        decreases selected@.len() - i,
    {
        let s = sim.sim(c_id, selected[i].book_id);
        proof {
            assert(selected@.take(i as int + 1).drop_last() =~= selected@.take(i as int));
            assert(selected@.take(i as int + 1).last() == selected@[i as int]);
        }
        if s > max_sim {
            max_sim = s;
        }
        i = i + 1;
    }
    proof {
        assert(selected@.take(selected@.len() as int) =~= selected@);
        assert(0 <= (lambda as int) * (relevance as int) <= (SCALE as int) * (SCALE as int))
            by (nonlinear_arith)
            requires
                0 <= lambda <= SCALE,
                0 <= relevance <= SCALE,
        ;
        assert(0 <= ((SCALE - lambda) as int) * (max_sim as int) <= (SCALE as int) * (
        SCALE as int)) by (nonlinear_arith)
            requires
                0 <= SCALE - lambda <= SCALE,
                0 <= max_sim <= SCALE as int,
        ;
    }
    let gain: i128 = (lambda as i128) * (relevance as i128);
    let penalty: i128 = ((SCALE - lambda) as i128) * (max_sim as i128);
    (gain - penalty) as i64
}

} // verus!
