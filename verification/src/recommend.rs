//! The full hybrid recommendation pipeline: multi-hop traversal seeds the
//! candidate set, personalized PageRank scores global relevance, the two
//! scores are fused, and maximal marginal relevance re-ranks for diversity.

use vstd::prelude::*;
use crate::{mul_fp_spec, SCALE};
use crate::catalog::Book;
use crate::fusion::EdgeKind;
use crate::graph::BookGraph;
use crate::mmr::{max_sim_to, maximal_marginal_relevance, Similarity};
use crate::pagerank::{
    ints_of, pagerank_iterated, personalization_of, personalized_pagerank, score_of,
    score_of_spec, uniform_scores, PageRankConfig,
};
use crate::traverse::{
    copy_ids, copy_kinds, default_sound_walk, has_candidate_id, hop_threshold,
    lemma_sound_candidate_default, multi_hop_traversal, sound_candidate, walk_with_weights,
    step_ok, TraversalCandidate, TraversalConfig,
};

verus! {

/// Weight of the traversal score in the fused score.
pub const TRAVERSAL_SHARE: u64 = 700_000;

/// Weight of the PageRank score in the fused score.
pub const PAGERANK_SHARE: u64 = 300_000;

/// Trade-off used for the diversity re-ranking: seven tenths relevance.
pub const MMR_LAMBDA: u64 = 700_000;

/// A fully scored recommendation.
pub struct RecommendationScore {
    pub book_id: i64,
    pub traversal_score: u64,
    pub pagerank_score: u64,
    pub combined_score: u64,
    pub path: Vec<i64>,
    pub edge_types: Vec<EdgeKind>,
}

/// The fused score: seven tenths traversal, three tenths PageRank.
pub open spec fn combine_spec(t: int, p: int) -> int {
    ((TRAVERSAL_SHARE as int) * t + (PAGERANK_SHARE as int) * p) / (SCALE as int)
}

/// Fusing two scores gives a score.
pub proof fn lemma_combine_bounds(t: int, p: int)
    requires
        0 <= t <= SCALE as int,
        0 <= p <= SCALE as int,
    ensures
        0 <= combine_spec(t, p) <= SCALE as int,
{
    assert((TRAVERSAL_SHARE as int) * t <= (TRAVERSAL_SHARE as int) * (SCALE as int)
        && 0 <= (TRAVERSAL_SHARE as int) * t) by (nonlinear_arith)
        requires
            0 <= t <= SCALE as int,
    ;
    assert((PAGERANK_SHARE as int) * p <= (PAGERANK_SHARE as int) * (SCALE as int) && 0 <= (
    PAGERANK_SHARE as int) * p) by (nonlinear_arith)
        requires
            0 <= p <= SCALE as int,
    ;
    assert((TRAVERSAL_SHARE as int) * (SCALE as int) + (PAGERANK_SHARE as int) * (SCALE as int)
        == (SCALE as int) * (SCALE as int)) by (nonlinear_arith);
    vstd::arithmetic::div_mod::lemma_div_is_ordered(
        (TRAVERSAL_SHARE as int) * t + (PAGERANK_SHARE as int) * p,
        (SCALE as int) * (SCALE as int),
        SCALE as int,
    );
    vstd::arithmetic::div_mod::lemma_div_by_multiple(SCALE as int, SCALE as int);
    vstd::arithmetic::div_mod::lemma_div_pos_is_pos(
        (TRAVERSAL_SHARE as int) * t + (PAGERANK_SHARE as int) * p,
        SCALE as int,
    );
}

/// Compute the fused score of a traversal score and a PageRank score.
pub fn combine_scores(t: u64, p: u64) -> (r: u64)
    requires
        t <= SCALE,
        p <= SCALE,
    ensures
        r == combine_spec(t as int, p as int),
        r <= SCALE,
{
    proof {
        lemma_combine_bounds(t as int, p as int);
    }
    (TRAVERSAL_SHARE * t + PAGERANK_SHARE * p) / SCALE
}

/// Similarity read off a fused score table: items with close scores count as
/// similar. One minus the score gap, never below zero.
pub struct ScoreGapSimilarity {
    pub scores: Vec<(i64, u64)>,
}

impl Similarity for ScoreGapSimilarity {
    open spec fn sim_spec(&self, a: i64, b: i64) -> i64 {
        let sa = score_of_spec(self.scores@, a) as int;
        let sb = score_of_spec(self.scores@, b) as int;
        let gap = if sa >= sb {
            sa - sb
        } else {
            sb - sa
        };
        if gap >= SCALE as int {
            0i64
        } else {
            (SCALE as int - gap) as i64
        }
    }

    fn sim(&self, a: i64, b: i64) -> (r: i64)
        ensures
            r == self.sim_spec(a, b),
            -(SCALE as int) <= r <= SCALE as int,
    {
        let sa = score_of(&self.scores, a);
        let sb = score_of(&self.scores, b);
        let gap = if sa >= sb {
            sa - sb
        } else {
            sb - sa
        };
        if gap >= SCALE {
            0
        } else {
            (SCALE - gap) as i64
        }
    }
}

/// A constant similarity: every pair of items is equally similar.
pub struct UniformSimilarity {
    pub value: i64,
}

impl Similarity for UniformSimilarity {
    open spec fn sim_spec(&self, a: i64, b: i64) -> i64 {
        if -(SCALE as int) <= self.value <= SCALE as int {
            self.value
        } else {
            0i64
        }
    }

    fn sim(&self, a: i64, b: i64) -> (r: i64)
        ensures
            r == self.sim_spec(a, b),
            -(SCALE as int) <= r <= SCALE as int,
    {
        if self.value >= -(SCALE as i64) && self.value <= SCALE as i64 {
            self.value
        } else {
            0
        }
    }
}

/// A recommendation's traversal fields are genuine: its path is a walk from
/// the source meeting the default per-hop thresholds, two to four items
/// long, named by its last item, and its traversal score is that walk's
/// accumulated fixed-point score.
pub open spec fn from_expansion(graph: &BookGraph, source: i64, rec: &RecommendationScore) -> bool {
    &&& default_sound_walk(graph, source, rec.path@, rec.edge_types@, rec.traversal_score)
    &&& 2 <= rec.path@.len() <= 4
    &&& rec.book_id == rec.path@.last()
}

/// A PageRank table for the pipeline's default configuration: one pair per
/// node in node order, the values being exactly the iterated scores for the
/// given seed and preference sets.
pub open spec fn is_pagerank_table(
    graph: &BookGraph,
    seeds: Seq<i64>,
    preferences: Seq<i64>,
    table: Seq<(i64, u64)>,
) -> bool {
    &&& table.len() == graph.node_ids().len()
    &&& forall|i: int| 0 <= i < table.len() ==> (#[trigger] table[i]).0 == graph.node_ids()[i]
    &&& ints_of(table.map_values(|p: (i64, u64)| p.1)) == pagerank_iterated(
        graph,
        personalization_of(graph, seeds, preferences, 300_000, table.len() as int),
        850_000,
        1,
        uniform_scores(table.len() as int),
        20,
    )
}

/// The fused score table over a candidate list and a PageRank table: each
/// candidate's identifier with its fused score.
pub open spec fn fused_table(cands: Seq<TraversalCandidate>, pr: Seq<(i64, u64)>) -> Seq<
    (i64, u64),
> {
    Seq::new(
        cands.len(),
        |k: int| (
            cands[k].book_id,
            combine_spec(cands[k].score as int, score_of_spec(pr, cands[k].book_id) as int) as u64,
        ),
    )
}

/// A selection reduced to identifier and score pairs.
pub open spec fn selection_pairs(s: Seq<TraversalCandidate>) -> Seq<(i64, u64)> {
    s.map_values(|c: TraversalCandidate| (c.book_id, c.score))
}

/// The score-gap similarity as a function of its score table.
pub open spec fn gap_sim(table: Seq<(i64, u64)>, a: i64, b: i64) -> int {
    let sa = score_of_spec(table, a) as int;
    let sb = score_of_spec(table, b) as int;
    let gap = if sa >= sb {
        sa - sb
    } else {
        sb - sa
    };
    if gap >= SCALE as int {
        0
    } else {
        SCALE as int - gap
    }
}

/// The largest score-gap similarity between an item and the already-selected
/// pairs, at least zero.
pub open spec fn gap_max_sim(table: Seq<(i64, u64)>, selected: Seq<(i64, u64)>, id: i64) -> int
    decreases selected.len(),
{
    if selected.len() == 0 {
        0
    } else {
        let prev = gap_max_sim(table, selected.drop_last(), id);
        let cur = gap_sim(table, id, selected.last().0);
        if cur > prev {
            cur
        } else {
            prev
        }
    }
}

/// The marginal-relevance value of a pair against a selected prefix, under
/// the score-gap similarity of the given table.
pub open spec fn gap_mmr_value(
    table: Seq<(i64, u64)>,
    selected: Seq<(i64, u64)>,
    lambda: u64,
    c: (i64, u64),
) -> int {
    (lambda as int) * (c.1 as int) - ((SCALE - lambda) as int) * gap_max_sim(table, selected, c.0)
}

/// The selection is greedy by marginal relevance under the score-gap
/// similarity: each pair had the greatest value, against the pairs selected
/// before it, of everything selected at its turn or later.
pub open spec fn gap_greedy(table: Seq<(i64, u64)>, lambda: u64, s: Seq<(i64, u64)>) -> bool {
    forall|i: int, j: int| 0 <= i < j < s.len() ==> gap_mmr_value(
        table,
        s.take(i),
        lambda,
        #[trigger] s[i],
    ) >= gap_mmr_value(table, s.take(i), lambda, #[trigger] s[j])
}

/// The score-gap similarity of a table value agrees with the table function.
proof fn lemma_gap_sim_agrees(sim: &ScoreGapSimilarity, a: i64, b: i64)
    ensures
        sim.sim_spec(a, b) as int == gap_sim(sim.scores@, a, b),
{
}

/// The running maximum agrees between the similarity value and its table.
proof fn lemma_gap_max_agrees(sim: &ScoreGapSimilarity, selected: Seq<TraversalCandidate>, id: i64)
    ensures
        max_sim_to(sim, selected, id) == gap_max_sim(sim.scores@, selection_pairs(selected), id),
    decreases selected.len(),
{
    if selected.len() > 0 {
        lemma_gap_max_agrees(sim, selected.drop_last(), id);
        assert(selection_pairs(selected).drop_last() =~= selection_pairs(selected.drop_last()));
        lemma_gap_sim_agrees(sim, id, selected.last().book_id);
        assert(selection_pairs(selected).last().0 == selected.last().book_id);
    }
}

/// A greedy selection under the similarity value is greedy under its table.
proof fn lemma_gap_greedy_agrees(
    sim: &ScoreGapSimilarity,
    lambda: u64,
    sel: Seq<TraversalCandidate>,
)
    requires
        crate::mmr::greedy_selection(sim, lambda, sel),
    ensures
        gap_greedy(sim.scores@, lambda, selection_pairs(sel)),
{
    let pairs = selection_pairs(sel);
    assert forall|i: int, j: int| 0 <= i < j < pairs.len() implies gap_mmr_value(
        sim.scores@,
        pairs.take(i),
        lambda,
        #[trigger] pairs[i],
    ) >= gap_mmr_value(sim.scores@, pairs.take(i), lambda, #[trigger] pairs[j]) by {
        assert(pairs.take(i) =~= selection_pairs(sel.take(i)));
        lemma_gap_max_agrees(sim, sel.take(i), sel[i].book_id);
        lemma_gap_max_agrees(sim, sel.take(i), sel[j].book_id);
        assert(crate::mmr::mmr_value(sim, sel.take(i), lambda, &sel[i]) >= crate::mmr::mmr_value(
            sim,
            sel.take(i),
            lambda,
            &sel[j],
        ));
    }
}

/// Generate recommendations for a source item with the full hybrid pipeline:
/// traversal from the source, personalized PageRank seeded at the source and
/// biased toward the user's highly-rated items, score fusion, and maximal
/// marginal relevance for diversity.
///
/// At most `limit` recommendations come back; the source item is never among
/// them; every entry's fused score combines its traversal and PageRank
/// scores by `combine_spec`, and all three scores are fixed-point values in
/// the unit interval. An empty candidate expansion gives an empty result.
pub fn generate_recommendations(
    graph: &BookGraph,
    source_book_id: i64,
    user_highly_rated: &Vec<i64>,
    limit: usize,
) -> (r: Vec<RecommendationScore>)
    requires
        graph.wf(),
        user_highly_rated@.len() <= 999_999_999,
    ensures
        r@.len() <= limit,
        forall|k: int| 0 <= k < r@.len() ==> (#[trigger] r@[k]).book_id != source_book_id,
        forall|k: int| 0 <= k < r@.len() ==> (#[trigger] r@[k]).combined_score == combine_spec(
            r@[k].traversal_score as int,
            r@[k].pagerank_score as int,
        ),
        forall|k: int| 0 <= k < r@.len() ==> (#[trigger] r@[k]).traversal_score <= SCALE
            && r@[k].pagerank_score <= SCALE && r@[k].combined_score <= SCALE,
        forall|k: int| 0 <= k < r@.len() ==> from_expansion(
            graph,
            source_book_id,
            &(#[trigger] r@[k]),
        ),
        (limit > 0 && exists|j: int|
            0 <= j < graph.neighbors_spec(source_book_id).len() && (
            #[trigger] graph.neighbors_spec(source_book_id)[j]).1 >= 500_000
                && graph.neighbors_spec(source_book_id)[j].0 != source_book_id) ==> r@.len()
            > 0,
        (forall|j: int|
            0 <= j < graph.neighbors_spec(source_book_id).len() ==> (
            #[trigger] graph.neighbors_spec(source_book_id)[j]).1 < 500_000) ==> r@.len() == 0,
        r@.len() > 0 ==> exists|cands: Seq<TraversalCandidate>, pr: Seq<(i64, u64)>|
            #![trigger fused_table(cands, pr)]
            {
                &&& is_pagerank_table(
                    graph,
                    seq![source_book_id],
                    user_highly_rated@,
                    pr,
                )
                &&& forall|m: int| 0 <= m < cands.len() ==> (default_sound_walk(
                    graph,
                    source_book_id,
                    (#[trigger] cands[m]).path@,
                    cands[m].edge_types@,
                    cands[m].score,
                ) && 2 <= cands[m].path@.len() <= 4 && cands[m].book_id
                    == cands[m].path@.last() && cands[m].book_id != source_book_id)
                &&& r@.len() == if limit as int <= cands.len() {
                    limit as int
                } else {
                    cands.len() as int
                }
                &&& gap_greedy(
                    fused_table(cands, pr),
                    MMR_LAMBDA,
                    r@.map_values(|rec: RecommendationScore| (rec.book_id, rec.combined_score)),
                )
                &&& forall|k: int| 0 <= k < r@.len() ==> exists|m: int|
                    0 <= m < cands.len() && (#[trigger] r@[k]).book_id == (
                    #[trigger] cands[m]).book_id && r@[k].traversal_score == cands[m].score
                        && r@[k].path@ == cands[m].path@ && r@[k].edge_types@
                        == cands[m].edge_types@
                &&& forall|k: int| 0 <= k < r@.len() ==> (#[trigger] r@[k]).pagerank_score
                    == score_of_spec(pr, r@[k].book_id)
            },
{
    let seeds: Vec<i64> = vec![source_book_id];
    assert(seeds@ =~= seq![source_book_id]);

    let traversal_config = TraversalConfig::default();
    let candidates = multi_hop_traversal(graph, &seeds, &traversal_config);
    proof {
        if limit > 0 && exists|j: int|
            0 <= j < graph.neighbors_spec(source_book_id).len() && (
            #[trigger] graph.neighbors_spec(source_book_id)[j]).1 >= 500_000
                && graph.neighbors_spec(source_book_id)[j].0 != source_book_id {
            let j = choose|j: int|
                0 <= j < graph.neighbors_spec(source_book_id).len() && (
                #[trigger] graph.neighbors_spec(source_book_id)[j]).1 >= 500_000
                    && graph.neighbors_spec(source_book_id)[j].0 != source_book_id;
            assert(hop_threshold(&traversal_config, 0) == 500_000);
            if candidates@.len() + seeds@.len() < traversal_config.max_candidates {
                assert(!seeds@.contains(graph.neighbors_spec(source_book_id)[j].0)) by {
                    assert(seeds@[0] == source_book_id);
                }
                assert(seeds@[0] == source_book_id);
                assert(has_candidate_id(
                    candidates@,
                    graph.neighbors_spec(seeds@[0])[j].0,
                ));
                assert(candidates@.len() > 0);
            } else {
                assert(candidates@.len() > 0);
            }
        }
    }
    proof {
        // with no qualifying first-hop edge there can be no sound candidate
        if forall|j: int|
            0 <= j < graph.neighbors_spec(source_book_id).len() ==> (
            #[trigger] graph.neighbors_spec(source_book_id)[j]).1 < 500_000 {
            if candidates@.len() > 0 {
                let c = candidates@[0];
                assert(sound_candidate(graph, &traversal_config, seeds@, &c));
                let ws = choose|ws: Seq<u64>|
                    walk_with_weights(
                        graph,
                        &traversal_config,
                        seeds@,
                        c.path@,
                        c.edge_types@,
                        c.score,
                        ws,
                    );
                assert(step_ok(
                    graph,
                    &traversal_config,
                    c.path@[0],
                    c.path@[1],
                    ws[0],
                    c.edge_types@[0],
                    0,
                ));
                assert(c.path@[0] == source_book_id) by {
                    assert(seeds@.contains(c.path@[0]));
                }
                assert(hop_threshold(&traversal_config, 0) == 500_000);
                let ns = graph.neighbors_spec(source_book_id);
                assert(ns.contains((c.path@[1], ws[0], c.edge_types@[0])));
                let j = choose|j: int|
                    0 <= j < ns.len() && ns[j] == (c.path@[1], ws[0], c.edge_types@[0]);
                assert(ns[j].1 >= 500_000);
                assert(false);
            }
        }
    }
    if candidates.len() == 0 {
        let r: Vec<RecommendationScore> = Vec::new();
        return r;
    }

    let pagerank_config = PageRankConfig::default();
    let pagerank_scores = personalized_pagerank(graph, &seeds, user_highly_rated, &pagerank_config);

    // fuse the two signals per candidate
    let mut scored: Vec<RecommendationScore> = Vec::new();
    let mut fused: Vec<TraversalCandidate> = Vec::new();
    let mut score_table: Vec<(i64, u64)> = Vec::new();
    let mut i: usize = 0;
    while i < candidates.len()
        invariant
            0 <= i <= candidates@.len(),
            forall|k: int| 0 <= k < candidates@.len() ==> (#[trigger] candidates@[k]).score
                <= SCALE,
            forall|k: int| 0 <= k < candidates@.len() ==> !seeds@.contains(
                (#[trigger] candidates@[k]).book_id,
            ),
            seeds@ == seq![source_book_id],
            forall|k: int| 0 <= k < pagerank_scores@.len()
                ==> (#[trigger] pagerank_scores@[k]).1 <= SCALE,
            scored@.len() == i,
            fused@.len() == i,
            forall|k: int| 0 <= k < i ==> (#[trigger] scored@[k]).book_id != source_book_id,
            forall|k: int| 0 <= k < i ==> (#[trigger] scored@[k]).combined_score == combine_spec(
                scored@[k].traversal_score as int,
                scored@[k].pagerank_score as int,
            ),
            forall|k: int| 0 <= k < i ==> (#[trigger] scored@[k]).traversal_score <= SCALE
                && scored@[k].pagerank_score <= SCALE && scored@[k].combined_score <= SCALE,
            forall|k: int| 0 <= k < i ==> (#[trigger] fused@[k]).score <= SCALE,
            forall|k: int| 0 <= k < i ==> (#[trigger] fused@[k]).book_id == scored@[k].book_id
                && fused@[k].score == scored@[k].combined_score,
            forall|k: int| 0 <= k < candidates@.len() ==> sound_candidate(
                graph,
                &traversal_config,
                seeds@,
                &(#[trigger] candidates@[k]),
            ),
            traversal_config.min_weights@ == seq![500_000u64, 400_000u64, 300_000u64],
            traversal_config.decay_factor == 750_000u64,
            traversal_config.max_hops == 3,
            forall|k: int| 0 <= k < i ==> from_expansion(
                graph,
                source_book_id,
                &(#[trigger] scored@[k]),
            ),
            forall|k: int| 0 <= k < i ==> ((#[trigger] scored@[k]).book_id == candidates@[
                k
            ].book_id && scored@[k].traversal_score == candidates@[k].score && scored@[k].path@
                == candidates@[k].path@ && scored@[k].edge_types@ == candidates@[
                k
            ].edge_types@),
            forall|k: int| 0 <= k < i ==> (#[trigger] scored@[k]).pagerank_score
                == score_of_spec(pagerank_scores@, scored@[k].book_id),
            score_table@.len() == i,
            forall|k: int| 0 <= k < i ==> #[trigger] score_table@[k] == (
                candidates@[k].book_id,
                fused@[k].score,
            ),
        decreases candidates@.len() - i,
    {
        let c = &candidates[i];
        let pr_score = score_of(&pagerank_scores, c.book_id);
        proof {
            crate::pagerank::lemma_score_of_bounded(pagerank_scores@, c.book_id);
            assert(!seeds@.contains(candidates@[i as int].book_id));
            assert(seeds@[0] == source_book_id);
            assert(seeds@ == seq![source_book_id]);
            lemma_sound_candidate_default(
                graph,
                &traversal_config,
                source_book_id,
                &candidates@[i as int],
            );
        }
        let combined = combine_scores(c.score, pr_score);
        scored.push(
            RecommendationScore {
                book_id: c.book_id,
                traversal_score: c.score,
                pagerank_score: pr_score,
                combined_score: combined,
                path: copy_ids(&c.path),
                edge_types: copy_kinds(&c.edge_types),
            },
        );
        fused.push(
            TraversalCandidate {
                book_id: c.book_id,
                score: combined,
                path: copy_ids(&c.path),
                edge_types: copy_kinds(&c.edge_types),
            },
        );
        score_table.push((c.book_id, combined));
        i = i + 1;
    }

    // diversity re-ranking over the fused scores
    let ghost fused_view = fused@;
    proof {
        assert(score_table@ =~= fused_table(candidates@, pagerank_scores@));
    }
    let sim = ScoreGapSimilarity { scores: score_table };
    let diverse = maximal_marginal_relevance(fused, &sim, MMR_LAMBDA, limit);

    // return the full records of the selected candidates, in selection order
    let mut result: Vec<RecommendationScore> = Vec::new();
    let mut di: usize = 0;
    while di < diverse.len()
        invariant
            0 <= di <= diverse@.len(),
            diverse@.len() <= limit,
            result@.len() == di,
            fused_view.len() == scored@.len(),
            forall|k: int| 0 <= k < scored@.len() ==> (#[trigger] fused_view[k]).book_id
                == scored@[k].book_id,
            forall|x: TraversalCandidate| #[trigger] diverse@.to_multiset().count(x)
                <= fused_view.to_multiset().count(x),
            forall|k: int| 0 <= k < scored@.len() ==> (#[trigger] scored@[k]).book_id
                != source_book_id,
            forall|k: int| 0 <= k < scored@.len() ==> (#[trigger] scored@[k]).combined_score
                == combine_spec(
                scored@[k].traversal_score as int,
                scored@[k].pagerank_score as int,
            ),
            forall|k: int| 0 <= k < scored@.len() ==> (#[trigger] scored@[k]).traversal_score
                <= SCALE && scored@[k].pagerank_score <= SCALE && scored@[k].combined_score
                <= SCALE,
            forall|k: int| 0 <= k < result@.len() ==> (#[trigger] result@[k]).book_id
                != source_book_id,
            forall|k: int| 0 <= k < result@.len() ==> (#[trigger] result@[k]).combined_score
                == combine_spec(
                result@[k].traversal_score as int,
                result@[k].pagerank_score as int,
            ),
            forall|k: int| 0 <= k < result@.len() ==> (#[trigger] result@[k]).traversal_score
                <= SCALE && result@[k].pagerank_score <= SCALE && result@[k].combined_score
                <= SCALE,
            forall|k: int| 0 <= k < scored@.len() ==> from_expansion(
                graph,
                source_book_id,
                &(#[trigger] scored@[k]),
            ),
            forall|k: int| 0 <= k < result@.len() ==> from_expansion(
                graph,
                source_book_id,
                &(#[trigger] result@[k]),
            ),
            scored@.len() == candidates@.len(),
            forall|k: int| 0 <= k < scored@.len() ==> ((#[trigger] scored@[k]).book_id
                == candidates@[k].book_id && scored@[k].traversal_score == candidates@[k].score
                && scored@[k].path@ == candidates@[k].path@ && scored@[k].edge_types@
                == candidates@[k].edge_types@),
            forall|k: int| 0 <= k < scored@.len() ==> (#[trigger] scored@[k]).pagerank_score
                == score_of_spec(pagerank_scores@, scored@[k].book_id),
            forall|k1: int, k2: int| 0 <= k1 < k2 < scored@.len()
                ==> (#[trigger] scored@[k1]).book_id != (#[trigger] scored@[k2]).book_id,
            forall|k: int| 0 <= k < fused_view.len() ==> (#[trigger] fused_view[k]).score
                == scored@[k].combined_score,
            forall|k: int| 0 <= k < result@.len() ==> ((#[trigger] result@[k]).book_id
                == diverse@[k].book_id && result@[k].combined_score == diverse@[k].score),
            forall|k: int| 0 <= k < result@.len() ==> (#[trigger] result@[k]).pagerank_score
                == score_of_spec(pagerank_scores@, result@[k].book_id),
            forall|k: int| 0 <= k < result@.len() ==> exists|m: int|
                0 <= m < candidates@.len() && (#[trigger] result@[k]).book_id == (
                #[trigger] candidates@[m]).book_id && result@[k].traversal_score
                    == candidates@[m].score && result@[k].path@ == candidates@[m].path@
                    && result@[k].edge_types@ == candidates@[m].edge_types@,
        decreases diverse@.len() - di,
    {
        let id = diverse[di].book_id;
        let ghost mut mstar: int = 0;
        proof {
            // the selected candidate came from the fused list, so a scored
            // record with its identifier exists
            assert(diverse@.contains(diverse@[di as int]));
            vstd::seq_lib::to_multiset_contains(diverse@, diverse@[di as int]);
            vstd::seq_lib::to_multiset_contains(fused_view, diverse@[di as int]);
            assert(fused_view.contains(diverse@[di as int]));
            let m = choose|m: int|
                0 <= m < fused_view.len() && fused_view[m] == diverse@[di as int];
            assert(scored@[m].book_id == id);
            mstar = m;
        }
        let mut si: usize = 0;
        let mut found: Option<usize> = None;
        while si < scored.len()
            invariant
                0 <= si <= scored@.len(),
                match found {
                    Some(f) => f < scored@.len() && scored@[f as int].book_id == id,
                    None => forall|k: int| 0 <= k < si ==> (#[trigger] scored@[k]).book_id
                        != id,
                },
            decreases scored@.len() - si,
        {
            if scored[si].book_id == id {
                found = Some(si);
                si = scored.len();
            } else {
                si = si + 1;
            }
        }
        proof {
            if found is None {
                let m = choose|m: int|
                    0 <= m < fused_view.len() && #[trigger] fused_view[m] == diverse@[di as int];
                assert(scored@[m].book_id == id);
                assert(false);
            }
        }
        match found {
            Some(f) => {
                proof {
                    // the identifiers are unique, so the found record is the
                    // very one the selection picked
                    assert(fused_view[f as int].book_id == scored@[f as int].book_id);
                    assert(fused_view[mstar].book_id == scored@[mstar].book_id);
                    assert(f as int == mstar);
                    assert(diverse@[di as int].score == scored@[f as int].combined_score);
                }
                let s = &scored[f];
                result.push(
                    RecommendationScore {
                        book_id: s.book_id,
                        traversal_score: s.traversal_score,
                        pagerank_score: s.pagerank_score,
                        combined_score: s.combined_score,
                        path: copy_ids(&s.path),
                        edge_types: copy_kinds(&s.edge_types),
                    },
                );
                proof {
                    assert forall|k: int| 0 <= k < result@.len() implies exists|m: int|
                        0 <= m < candidates@.len() && (#[trigger] result@[k]).book_id == (
                        #[trigger] candidates@[m]).book_id && result@[k].traversal_score
                            == candidates@[m].score && result@[k].path@ == candidates@[m].path@
                            && result@[k].edge_types@ == candidates@[m].edge_types@ by {
                        if k == result@.len() - 1 {
                            assert(result@[k].book_id == candidates@[f as int].book_id
                                && result@[k].traversal_score == candidates@[f as int].score
                                && result@[k].path@ == candidates@[f as int].path@
                                && result@[k].edge_types@ == candidates@[f as int].edge_types@);
                        }
                    }
                }
            },
            None => {},
        }
        di = di + 1;
    }
    proof {
        assert(result@.len() == diverse@.len());
        if result@.len() > 0 {
            // the selection is greedy under the fused score table
            lemma_gap_greedy_agrees(&sim, MMR_LAMBDA, diverse@);
            assert(selection_pairs(diverse@) =~= result@.map_values(
                |rec: RecommendationScore| (rec.book_id, rec.combined_score),
            ));
            assert(gap_greedy(
                fused_table(candidates@, pagerank_scores@),
                MMR_LAMBDA,
                result@.map_values(|rec: RecommendationScore| (rec.book_id, rec.combined_score)),
            ));
            // the PageRank table the pipeline consulted
            assert(is_pagerank_table(
                graph,
                seq![source_book_id],
                user_highly_rated@,
                pagerank_scores@,
            )) by {
                assert(seeds@ == seq![source_book_id]);
            }
            // the candidate set behind the result
            assert forall|m: int| 0 <= m < candidates@.len() implies (default_sound_walk(
                graph,
                source_book_id,
                (#[trigger] candidates@[m]).path@,
                candidates@[m].edge_types@,
                candidates@[m].score,
            ) && 2 <= candidates@[m].path@.len() <= 4 && candidates@[m].book_id
                == candidates@[m].path@.last() && candidates@[m].book_id != source_book_id) by {
                assert(seeds@ == seq![source_book_id]);
                lemma_sound_candidate_default(
                    graph,
                    &traversal_config,
                    source_book_id,
                    &candidates@[m],
                );
                assert(!seeds@.contains(candidates@[m].book_id));
                assert(seeds@[0] == source_book_id);
            }
        }
    }
    result
}

/// Why an item is recommended.
pub enum RecommendationReason {
    SimilarContent { similarity: u64 },
    SameAuthor { author: String },
    SameSeries { series: String, position: String },
    TagOverlap { tags: Vec<String> },
    ReadersAlsoLiked { based_on: String },
    NextInSeries { previous: String },
}

/// Explain an edge to a reader: a content edge names the similarity, a
/// shared author or series names it, a series edge also says whether the
/// target comes next, earlier or elsewhere in the series.
pub fn build_reasons(source: &Book, target: &Book, kind: EdgeKind, weight: u64) -> (r: Vec<
    RecommendationReason,
>)
    ensures
        r@.len() <= 1,
        kind is Content ==> r@ =~= seq![
            RecommendationReason::SimilarContent { similarity: weight },
        ],
        kind is Author && target.author is Some ==> (r@.len() == 1 && (r@[0] matches
            RecommendationReason::SameAuthor { author } && author@ == target.author->0@)),
        kind is Author && target.author is None ==> r@.len() == 0,
        kind is Series && target.series is None ==> r@.len() == 0,
        kind is Series && target.series is Some ==> (r@.len() == 1 && (r@[0] matches
            RecommendationReason::SameSeries { series, position } && series@
            == target.series->0@)),
        kind is Unrelated ==> r@ =~= seq![
            RecommendationReason::SimilarContent { similarity: weight },
        ],
{
    let mut reasons: Vec<RecommendationReason> = Vec::new();
    match kind {
        EdgeKind::Content => {
            reasons.push(RecommendationReason::SimilarContent { similarity: weight });
        },
        EdgeKind::Author => {
            match &target.author {
                Some(author) => {
                    reasons.push(
                        RecommendationReason::SameAuthor { author: author.clone() },
                    );
                },
                None => {},
            }
        },
        EdgeKind::Series => {
            match &target.series {
                Some(series) => {
                    let position: String = match (source.series_index, target.series_index) {
                        (Some(src), Some(tgt)) => {
                            if tgt > src {
                                "next".to_owned()
                            } else if tgt < src {
                                "previous".to_owned()
                            } else {
                                "in series".to_owned()
                            }
                        },
                        _ => "in series".to_owned(),
                    };
                    reasons.push(
                        RecommendationReason::SameSeries { series: series.clone(), position },
                    );
                },
                None => {},
            }
        },
        EdgeKind::Unrelated => {
            reasons.push(RecommendationReason::SimilarContent { similarity: weight });
        },
    }
    reasons
}

} // verus!
