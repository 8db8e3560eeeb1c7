//! Multi-hop candidate expansion: breadth-first traversal from a set of seed
//! items across bounded hops with per-hop weight thresholds and score decay.
//!
//! Every returned candidate carries its discovery path and the kinds of the
//! edges along it, and the contract states that the path is a genuine walk of
//! the graph: each step follows a stored edge whose weight meets that hop's
//! threshold, and the score is the fixed-point product of the step weights
//! and the per-hop decay factors.

use vstd::prelude::*;
use crate::{mul_fp, mul_fp_spec, lemma_mul_fp_bounds, SCALE};
use crate::fusion::EdgeKind;
use crate::graph::BookGraph;
use std::collections::HashSet;

verus! {

broadcast use {vstd::std_specs::hash::group_hash_axioms, vstd::multiset::group_multiset_axioms};

/// Threshold a hop falls back to when the configured list is shorter.
pub const DEFAULT_HOP_THRESHOLD: u64 = 300_000;

/// Configuration of a multi-hop traversal.
pub struct TraversalConfig {
    /// Greatest number of hops to walk from a seed.
    pub max_hops: usize,
    /// Minimum edge weight per hop level; deeper hops beyond the end of the
    /// list use `DEFAULT_HOP_THRESHOLD`.
    pub min_weights: Vec<u64>,
    /// Score decay per hop, applied as the hop-th fixed-point power.
    pub decay_factor: u64,
    /// Greatest number of distinct candidates to materialize.
    pub max_candidates: usize,
}

impl TraversalConfig {
    /// A usable configuration: the decay factor is a score.
    pub open spec fn wf(&self) -> bool {
        self.decay_factor <= SCALE
    }
}

impl Default for TraversalConfig {
    /// Three hops with decreasing thresholds, a quarter of the score lost
    /// per hop, at most five hundred candidates.
    fn default() -> (r: Self)
        ensures
            r.max_hops == 3,
            r.min_weights@ == seq![500_000u64, 400_000u64, 300_000u64],
            r.decay_factor == 750_000u64,
            r.max_candidates == 500,
            r.wf(),
    {
        let r = TraversalConfig {
            max_hops: 3,
            min_weights: vec![500_000u64, 400_000u64, 300_000u64],
            decay_factor: 750_000,
            max_candidates: 500,
        };
        assert(r.min_weights@ =~= seq![500_000u64, 400_000u64, 300_000u64]);
        r
    }
}

/// A candidate found by traversal: the item, its accumulated score, the path
/// of item identifiers from the seed, and the kinds of the edges walked.
pub struct TraversalCandidate {
    pub book_id: i64,
    pub score: u64,
    pub path: Vec<i64>,
    pub edge_types: Vec<EdgeKind>,
}

/// The minimum edge weight demanded at a hop.
pub open spec fn hop_threshold(config: &TraversalConfig, hop: int) -> u64 {
    if 0 <= hop < config.min_weights@.len() {
        config.min_weights@[hop]
    } else {
        DEFAULT_HOP_THRESHOLD
    }
}

/// The decay factor taken to the `h`-th fixed-point power.
pub open spec fn decay_pow(decay: int, h: nat) -> int
    decreases h,
{
    if h == 0 {
        SCALE as int
    } else {
        mul_fp_spec(decay_pow(decay, (h - 1) as nat), decay)
    }
}

/// A fixed-point power of a score is a score.
pub proof fn lemma_decay_pow_bounds(decay: int, h: nat)
    requires
        0 <= decay <= SCALE as int,
    ensures
        0 <= decay_pow(decay, h) <= SCALE as int,
    decreases h,
{
    if h > 0 {
        lemma_decay_pow_bounds(decay, (h - 1) as nat);
        lemma_mul_fp_bounds(decay_pow(decay, (h - 1) as nat), decay);
    }
}

/// The score accumulated after walking edges of the given weights, one per
/// hop starting at hop zero: starts at one, and each hop multiplies in the
/// edge weight and the hop's decay power.
pub open spec fn score_after(ws: Seq<u64>, decay: int) -> int
    decreases ws.len(),
{
    if ws.len() == 0 {
        SCALE as int
    } else {
        mul_fp_spec(
            mul_fp_spec(score_after(ws.drop_last(), decay), ws.last() as int),
            decay_pow(decay, (ws.len() - 1) as nat),
        )
    }
}

/// An accumulated score is a score.
pub proof fn lemma_score_after_bounds(ws: Seq<u64>, decay: int)
    requires
        0 <= decay <= SCALE as int,
        forall|k: int| 0 <= k < ws.len() ==> #[trigger] ws[k] <= SCALE,
    ensures
        0 <= score_after(ws, decay) <= SCALE as int,
    decreases ws.len(),
{
    if ws.len() > 0 {
        assert(forall|k: int| 0 <= k < ws.drop_last().len() ==> #[trigger] ws.drop_last()[k]
            <= SCALE);
        lemma_score_after_bounds(ws.drop_last(), decay);
        lemma_mul_fp_bounds(score_after(ws.drop_last(), decay), ws.last() as int);
        lemma_decay_pow_bounds(decay, (ws.len() - 1) as nat);
        lemma_mul_fp_bounds(
            mul_fp_spec(score_after(ws.drop_last(), decay), ws.last() as int),
            decay_pow(decay, (ws.len() - 1) as nat),
        );
    }
}

/// One traversal step is sound: the graph stores an edge from `from` to `to`
/// of this weight and kind, and the weight meets the hop's threshold.
pub open spec fn step_ok(
    graph: &BookGraph,
    config: &TraversalConfig,
    from: i64,
    to: i64,
    w: u64,
    kind: EdgeKind,
    hop: int,
) -> bool {
    &&& graph.neighbors_spec(from).contains((to, w, kind))
    &&& w >= hop_threshold(config, hop)
}

/// A path with the given step weights is a sound walk from a seed whose
/// accumulated score is `score`.
pub open spec fn walk_with_weights(
    graph: &BookGraph,
    config: &TraversalConfig,
    seeds: Seq<i64>,
    path: Seq<i64>,
    kinds: Seq<EdgeKind>,
    score: u64,
    ws: Seq<u64>,
) -> bool {
    &&& path.len() >= 1
    &&& seeds.contains(path[0])
    &&& kinds.len() == path.len() - 1
    &&& ws.len() == path.len() - 1
    &&& forall|k: int| 0 <= k < ws.len() ==> step_ok(
        graph,
        config,
        path[k],
        path[k + 1],
        ws[k],
        kinds[k],
        k,
    )
    &&& score as int == score_after(ws, config.decay_factor as int)
}

/// There are step weights making the path a sound walk from a seed.
pub open spec fn sound_walk(
    graph: &BookGraph,
    config: &TraversalConfig,
    seeds: Seq<i64>,
    path: Seq<i64>,
    kinds: Seq<EdgeKind>,
    score: u64,
) -> bool {
    exists|ws: Seq<u64>| walk_with_weights(graph, config, seeds, path, kinds, score, ws)
}

/// A sound traversal candidate: at least one hop away from a seed, within
/// the hop bound, named by the last item of its path, and backed by a sound
/// walk.
pub open spec fn sound_candidate(
    graph: &BookGraph,
    config: &TraversalConfig,
    seeds: Seq<i64>,
    c: &TraversalCandidate,
) -> bool {
    &&& 2 <= c.path@.len() <= config.max_hops + 1
    &&& c.book_id == c.path@.last()
    &&& sound_walk(graph, config, seeds, c.path@, c.edge_types@, c.score)
}

/// Scores descend along the list.
pub open spec fn sorted_by_score_desc(s: Seq<TraversalCandidate>) -> bool {
    forall|i: int, j: int| 0 <= i < j < s.len() ==> (#[trigger] s[i]).score
        >= (#[trigger] s[j]).score
}

/// No item appears twice.
pub open spec fn distinct_ids(s: Seq<TraversalCandidate>) -> bool {
    forall|i: int, j: int| 0 <= i < j < s.len() ==> (#[trigger] s[i]).book_id
        != (#[trigger] s[j]).book_id
}

/// The per-hop threshold of the default configuration: one half at the
/// first hop, then four tenths, then three tenths from the third hop on.
pub open spec fn default_hop_threshold(hop: int) -> u64 {
    if hop == 0 {
        500_000
    } else if hop == 1 {
        400_000
    } else {
        300_000
    }
}

/// A walk from the source whose every step follows a stored edge meeting
/// the default per-hop thresholds, with `score` the walk's accumulated
/// fixed-point score under the default decay.
pub open spec fn default_sound_walk(
    graph: &BookGraph,
    source: i64,
    path: Seq<i64>,
    kinds: Seq<EdgeKind>,
    score: u64,
) -> bool {
    exists|ws: Seq<u64>|
        {
            &&& path.len() >= 1
            &&& path[0] == source
            &&& kinds.len() == path.len() - 1
            &&& #[trigger] ws.len() == path.len() - 1
            &&& forall|k: int|
                0 <= k < ws.len() ==> (#[trigger] graph.neighbors_spec(path[k]).contains(
                    (path[k + 1], ws[k], kinds[k]),
                ) && ws[k] >= default_hop_threshold(k))
            &&& score as int == score_after(ws, 750_000)
        }
}

/// A candidate of a default-configured traversal from a single seed is a
/// default-threshold walk from that seed.
pub proof fn lemma_sound_candidate_default(
    graph: &BookGraph,
    config: &TraversalConfig,
    source: i64,
    c: &TraversalCandidate,
)
    requires
        sound_candidate(graph, config, seq![source], c),
        config.min_weights@ == seq![500_000u64, 400_000u64, 300_000u64],
        config.decay_factor == 750_000,
    ensures
        default_sound_walk(graph, source, c.path@, c.edge_types@, c.score),
        c.path@[0] == source,
        c.book_id == c.path@.last(),
{
    let ws = choose|ws: Seq<u64>|
        walk_with_weights(graph, config, seq![source], c.path@, c.edge_types@, c.score, ws);
    assert(c.path@[0] == source) by {
        assert(seq![source].contains(c.path@[0]));
    }
    assert forall|k: int| 0 <= k < ws.len() implies (#[trigger] graph.neighbors_spec(
        c.path@[k],
    ).contains((c.path@[k + 1], ws[k], c.edge_types@[k])) && ws[k] >= default_hop_threshold(
        k,
    )) by {
        assert(step_ok(graph, config, c.path@[k], c.path@[k + 1], ws[k], c.edge_types@[k], k));
        assert(hop_threshold(config, k) == default_hop_threshold(k));
    }
    assert(score_after(ws, config.decay_factor as int) == score_after(ws, 750_000));
}

/// Whether some recorded candidate is for the item.
pub open spec fn has_candidate_id(cands: Seq<TraversalCandidate>, id: i64) -> bool {
    exists|k: int| 0 <= k < cands.len() && (#[trigger] cands[k]).book_id == id
}

/// Whether some recorded candidate is for the item with at least the given
/// score: once a walk to an item is scored, only strictly better walks
/// replace it, so the kept score never drops below any discovered one.
pub open spec fn has_candidate_with(cands: Seq<TraversalCandidate>, id: i64, w: u64) -> bool {
    exists|k: int| 0 <= k < cands.len() && (#[trigger] cands[k]).book_id == id && cands[k].score
        >= w
}

/// Every direct neighbour of one of the first `upto` seeds whose edge meets
/// the first hop's threshold has a recorded candidate scoring at least that
/// edge's weight (the exact score of the one-hop walk to it).
pub open spec fn first_hop_covered(
    graph: &BookGraph,
    config: &TraversalConfig,
    seeds: Seq<i64>,
    upto: int,
    cands: Seq<TraversalCandidate>,
) -> bool {
    forall|si: int, j: int|
        0 <= si < upto && 0 <= j < graph.neighbors_spec(seeds[si]).len() && (
        #[trigger] graph.neighbors_spec(seeds[si])[j]).1 >= hop_threshold(config, 0)
            ==> has_candidate_with(
            cands,
            graph.neighbors_spec(seeds[si])[j].0,
            graph.neighbors_spec(seeds[si])[j].1,
        )
}

/// Coverage carries over to a candidate list that keeps every recorded item.
proof fn lemma_coverage_carries(
    graph: &BookGraph,
    config: &TraversalConfig,
    seeds: Seq<i64>,
    upto: int,
    old_c: Seq<TraversalCandidate>,
    new_c: Seq<TraversalCandidate>,
)
    requires
        first_hop_covered(graph, config, seeds, upto, old_c),
        forall|id: i64, w: u64| #[trigger] has_candidate_with(old_c, id, w)
            ==> has_candidate_with(new_c, id, w),
    ensures
        first_hop_covered(graph, config, seeds, upto, new_c),
{
    assert forall|si: int, j: int|
        0 <= si < upto && 0 <= j < graph.neighbors_spec(seeds[si]).len() && (
        #[trigger] graph.neighbors_spec(seeds[si])[j]).1 >= hop_threshold(config, 0)
            implies has_candidate_with(
        new_c,
        graph.neighbors_spec(seeds[si])[j].0,
        graph.neighbors_spec(seeds[si])[j].1,
    ) by {
        assert(has_candidate_with(
            old_c,
            graph.neighbors_spec(seeds[si])[j].0,
            graph.neighbors_spec(seeds[si])[j].1,
        ));
    }
}

/// An in-flight traversal state: a walk that may still be expanded.
struct PathState {
    node: i64,
    score: u64,
    path: Vec<i64>,
    edge_types: Vec<EdgeKind>,
}

/// A state at hop `h` is sound: its walk has `h` steps, ends at its node,
/// and its score is a score.
spec fn sound_state(
    graph: &BookGraph,
    config: &TraversalConfig,
    seeds: Seq<i64>,
    st: &PathState,
    h: int,
) -> bool {
    &&& st.path@.len() == h + 1
    &&& st.node == st.path@.last()
    &&& st.score <= SCALE
    &&& sound_walk(graph, config, seeds, st.path@, st.edge_types@, st.score)
}

/// Copy a vector of identifiers.
pub(crate) fn copy_ids(v: &Vec<i64>) -> (r: Vec<i64>)
    ensures
        r@ == v@,
{
    let mut r: Vec<i64> = Vec::new();
    let mut i: usize = 0;
    while i < v.len()
        invariant
            0 <= i <= v@.len(),
            r@ == v@.take(i as int),
        decreases v@.len() - i,
    {
        r.push(v[i]);
        assert(r@ =~= v@.take(i as int + 1));
        i = i + 1;
    }
    assert(r@ =~= v@);
    r
}

/// Copy a vector of edge kinds.
pub(crate) fn copy_kinds(v: &Vec<EdgeKind>) -> (r: Vec<EdgeKind>)
    ensures
        r@ == v@,
{
    let mut r: Vec<EdgeKind> = Vec::new();
    let mut i: usize = 0;
    while i < v.len()
        invariant
            0 <= i <= v@.len(),
            r@ == v@.take(i as int),
        decreases v@.len() - i,
    {
        r.push(v[i]);
        assert(r@ =~= v@.take(i as int + 1));
        i = i + 1;
    }
    assert(r@ =~= v@);
    r
}

/// Whether a list of identifiers holds the given one.
pub(crate) fn contains_id(v: &Vec<i64>, x: i64) -> (r: bool)
    ensures
        r == v@.contains(x),
{
    let mut i: usize = 0;
    while i < v.len()
        invariant
            0 <= i <= v@.len(),
            forall|k: int| 0 <= k < i ==> v@[k] != x,
        decreases v@.len() - i,
    {
        if v[i] == x {
            return true;
        }
        i = i + 1;
    }
    false
}

/// The position of a candidate for an item, if one is recorded.
fn find_candidate(cands: &Vec<TraversalCandidate>, id: i64) -> (r: Option<usize>)
    ensures
        match r {
            Some(i) => i < cands@.len() && cands@[i as int].book_id == id,
            None => forall|k: int| 0 <= k < cands@.len() ==> (#[trigger] cands@[k]).book_id != id,
        },
{
    let mut i: usize = 0;
    while i < cands.len()
        invariant
            0 <= i <= cands@.len(),
            forall|k: int| 0 <= k < i ==> (#[trigger] cands@[k]).book_id != id,
        decreases cands@.len() - i,
    {
        if cands[i].book_id == id {
            return Some(i);
        }
        i = i + 1;
    }
    None
}

/// Sort candidates by descending score. The result holds exactly the same
/// candidates.
fn sort_candidates_desc(input: Vec<TraversalCandidate>) -> (r: Vec<TraversalCandidate>)
    ensures
        r@.to_multiset() == input@.to_multiset(),
        r@.len() == input@.len(),
        sorted_by_score_desc(r@),
{
    let mut rest = input;
    let mut out: Vec<TraversalCandidate> = Vec::new();
    proof {
        assert forall|x: TraversalCandidate|
            out@.to_multiset().add(rest@.to_multiset()).count(x) == rest@.to_multiset().count(
                x,
            ) by {
            vstd::seq_lib::to_multiset_contains(out@, x);
        }
        assert(out@.to_multiset().add(rest@.to_multiset()) =~= rest@.to_multiset());
    }
    while rest.len() > 0
        invariant
            out@.to_multiset().add(rest@.to_multiset()) == input@.to_multiset(),
            out@.len() + rest@.len() == input@.len(),
            sorted_by_score_desc(out@),
            forall|i: int, j: int| 0 <= i < out@.len() && 0 <= j < rest@.len() ==> (
            #[trigger] out@[i]).score >= (#[trigger] rest@[j]).score,
        decreases rest@.len(),
    {
        let mut best: usize = 0;
        let mut j: usize = 1;
        while j < rest.len()
            invariant
                best < j <= rest@.len(),
                rest@.len() > 0,
                forall|k: int| 0 <= k < j ==> (#[trigger] rest@[k]).score
                    <= rest@[best as int].score,
            decreases rest@.len() - j,
        {
            if rest[j].score > rest[best].score {
                best = j;
            }
            j = j + 1;
        }
        let ghost old_out = out@;
        let ghost old_rest = rest@;
        let x = rest.remove(best);
        out.push(x);
        proof {
            vstd::seq_lib::to_multiset_remove(old_rest, best as int);
            vstd::seq_lib::to_multiset_build(old_out, x);
            assert(old_rest.contains(x)) by {
                assert(old_rest[best as int] == x);
            }
            vstd::seq_lib::to_multiset_contains(old_rest, x);
            assert(out@.to_multiset().add(rest@.to_multiset()) =~= input@.to_multiset());
        }
    }
    proof {
        vstd::seq_lib::to_multiset_len(out@);
        vstd::seq_lib::to_multiset_len(input@);
        assert(out@.to_multiset().add(rest@.to_multiset()) =~= out@.to_multiset());
    }
    out
}

/// Whatever holds of each member of a sequence holds of each member of a
/// rearrangement of it: membership transfers through multiset equality.
proof fn lemma_permutation_members(a: Seq<TraversalCandidate>, b: Seq<TraversalCandidate>)
    requires
        a.to_multiset() == b.to_multiset(),
    ensures
        forall|k: int| 0 <= k < a.len() ==> b.contains(#[trigger] a[k]),
{
    assert forall|k: int| 0 <= k < a.len() implies b.contains(a[k]) by {
        assert(a.contains(a[k]));
        vstd::seq_lib::to_multiset_contains(a, a[k]);
        vstd::seq_lib::to_multiset_contains(b, a[k]);
    }
}

/// A rearrangement of a list with pairwise distinct item identifiers has
/// pairwise distinct item identifiers.
proof fn lemma_permutation_distinct(a: Seq<TraversalCandidate>, b: Seq<TraversalCandidate>)
    requires
        a.to_multiset() == b.to_multiset(),
        distinct_ids(a),
    ensures
        distinct_ids(b),
{
    assert(a.no_duplicates()) by {
        assert forall|i: int, j: int| 0 <= i < j < a.len() implies a[i] != a[j] by {
            assert(a[i].book_id != a[j].book_id);
        }
    }
    a.lemma_multiset_has_no_duplicates();
    b.lemma_multiset_has_no_duplicates_conv();
    lemma_permutation_members(b, a);
    assert forall|i: int, j: int| 0 <= i < j < b.len() implies (#[trigger] b[i]).book_id != (
    #[trigger] b[j]).book_id by {
        if b[i].book_id == b[j].book_id {
            assert(b[i] != b[j]);
            assert(a.contains(b[i]));
            assert(a.contains(b[j]));
            let m1 = choose|m: int| 0 <= m < a.len() && a[m] == b[i];
            let m2 = choose|m: int| 0 <= m < a.len() && a[m] == b[j];
            assert(m1 != m2);
            assert(a[m1].book_id != a[m2].book_id);
        }
    }
}

/// Expand candidates outward from a set of seed items by breadth-first
/// traversal, at most `config.max_hops` hops deep, following only edges whose
/// weight meets the threshold of the hop being walked.
///
/// The result holds at most `config.max_candidates` candidates, none of them
/// a seed, each backed by a sound walk from a seed with the accumulated
/// fixed-point score, each item at most once, sorted by descending score.
/// When an item is reached along several walks, the best-scoring one found is
/// kept. And the expansion is not idle: unless the candidate cap cut it
/// short, every direct neighbour of a seed whose edge meets the first hop's
/// threshold appears among the candidates (unless it is itself a seed).
pub fn multi_hop_traversal(
    graph: &BookGraph,
    seeds: &Vec<i64>,
    config: &TraversalConfig,
) -> (r: Vec<TraversalCandidate>)
    requires
        graph.wf(),
        config.wf(),
    ensures
        r@.len() <= config.max_candidates,
        forall|k: int| 0 <= k < r@.len() ==> !seeds@.contains((#[trigger] r@[k]).book_id),
        forall|k: int| 0 <= k < r@.len() ==> sound_candidate(graph, config, seeds@, &r@[k]),
        forall|k: int| 0 <= k < r@.len() ==> (#[trigger] r@[k]).score <= SCALE,
        sorted_by_score_desc(r@),
        distinct_ids(r@),
        (config.max_hops >= 1 && r@.len() + seeds@.len() < config.max_candidates)
            ==> forall|si: int, j: int|
            0 <= si < seeds@.len() && 0 <= j < graph.neighbors_spec(seeds@[si]).len() && (
            #[trigger] graph.neighbors_spec(seeds@[si])[j]).1 >= hop_threshold(config, 0)
                && !seeds@.contains(graph.neighbors_spec(seeds@[si])[j].0)
                ==> has_candidate_with(
                r@,
                graph.neighbors_spec(seeds@[si])[j].0,
                graph.neighbors_spec(seeds@[si])[j].1,
            ),
{
    let mut cands: Vec<TraversalCandidate> = Vec::new();
    let mut visited: HashSet<i64> = HashSet::new();
    let mut level: Vec<PathState> = Vec::new();

    let mut si: usize = 0;
    while si < seeds.len()
        invariant
            graph.wf(),
            config.wf(),
            0 <= si <= seeds@.len(),
            level@.len() == si,
            forall|k: int| 0 <= k < si ==> (#[trigger] level@[k]).node == seeds@[k],
            forall|k: int| 0 <= k < si ==> (#[trigger] level@[k]).score == SCALE,
            forall|k: int| 0 <= k < level@.len() ==> sound_state(
                graph,
                config,
                seeds@,
                &(#[trigger] level@[k]),
                0,
            ),
        decreases seeds@.len() - si,
    {
        let seed = seeds[si];
        visited.insert(seed);
        let st = PathState {
            node: seed,
            score: SCALE,
            path: vec![seed],
            edge_types: Vec::new(),
        };
        proof {
            let ws = Seq::<u64>::empty();
            assert(st.path@ =~= seq![seed]);
            assert(walk_with_weights(graph, config, seeds@, st.path@, st.edge_types@, SCALE, ws));
        }
        level.push(st);
        si = si + 1;
    }

    let mut hop: usize = 0;
    while hop < config.max_hops
        invariant
            graph.wf(),
            config.wf(),
            hop <= config.max_hops,
            forall|k: int| 0 <= k < level@.len() ==> sound_state(
                graph,
                config,
                seeds@,
                &(#[trigger] level@[k]),
                hop as int,
            ),
            forall|k: int| 0 <= k < cands@.len() ==> sound_candidate(
                graph,
                config,
                seeds@,
                &(#[trigger] cands@[k]),
            ),
            distinct_ids(cands@),
            hop == 0 ==> (level@.len() == seeds@.len() && forall|k: int|
                0 <= k < seeds@.len() ==> (#[trigger] level@[k]).node == seeds@[k]),
            hop == 0 ==> forall|k: int| 0 <= k < level@.len() ==> (#[trigger] level@[k]).score
                == SCALE,
            hop >= 1 ==> (cands@.len() < config.max_candidates ==> first_hop_covered(
                graph,
                config,
                seeds@,
                seeds@.len() as int,
                cands@,
            )),
        decreases config.max_hops - hop,
    {
        let mut next: Vec<PathState> = Vec::new();
        let mut e: usize = 0;
        while e < level.len()
            invariant
                graph.wf(),
                config.wf(),
                hop < config.max_hops,
                0 <= e <= level@.len(),
                forall|k: int| 0 <= k < level@.len() ==> sound_state(
                    graph,
                    config,
                    seeds@,
                    &(#[trigger] level@[k]),
                    hop as int,
                ),
                forall|k: int| 0 <= k < next@.len() ==> sound_state(
                    graph,
                    config,
                    seeds@,
                    &(#[trigger] next@[k]),
                    hop as int + 1,
                ),
                forall|k: int| 0 <= k < cands@.len() ==> sound_candidate(
                    graph,
                    config,
                    seeds@,
                    &(#[trigger] cands@[k]),
                ),
                distinct_ids(cands@),
                hop == 0 ==> (level@.len() == seeds@.len() && forall|k: int|
                    0 <= k < seeds@.len() ==> (#[trigger] level@[k]).node == seeds@[k]),
                hop == 0 ==> forall|k: int| 0 <= k < level@.len()
                    ==> (#[trigger] level@[k]).score == SCALE,
                hop == 0 ==> (cands@.len() < config.max_candidates ==> first_hop_covered(
                    graph,
                    config,
                    seeds@,
                    e as int,
                    cands@,
                )),
                hop >= 1 ==> (cands@.len() < config.max_candidates ==> first_hop_covered(
                    graph,
                    config,
                    seeds@,
                    seeds@.len() as int,
                    cands@,
                )),
            decreases level@.len() - e,
        {
            if cands.len() >= config.max_candidates {
                e = e + 1;
                continue;
            }
            let node = level[e].node;
            let acc = level[e].score;
            let min_weight = if hop < config.min_weights.len() {
                config.min_weights[hop]
            } else {
                DEFAULT_HOP_THRESHOLD
            };
            let decay = decay_power(config.decay_factor, hop);
            let neighbors = graph.neighbors(node);
            let mut ni: usize = 0;
            while ni < neighbors.len()
                invariant
                    graph.wf(),
                    config.wf(),
                    hop < config.max_hops,
                    e < level@.len(),
                    node == level@[e as int].node,
                    acc == level@[e as int].score,
                    sound_state(graph, config, seeds@, &level@[e as int], hop as int),
                    min_weight == hop_threshold(config, hop as int),
                    decay as int == decay_pow(config.decay_factor as int, hop as nat),
                    decay <= SCALE,
                    neighbors@ == graph.neighbors_spec(node),
                    forall|j: int| 0 <= j < neighbors@.len() ==> (#[trigger] neighbors@[j]).1
                        <= SCALE,
                    0 <= ni <= neighbors@.len(),
                    forall|k: int| 0 <= k < level@.len() ==> sound_state(
                        graph,
                        config,
                        seeds@,
                        &(#[trigger] level@[k]),
                        hop as int,
                    ),
                    forall|k: int| 0 <= k < next@.len() ==> sound_state(
                        graph,
                        config,
                        seeds@,
                        &(#[trigger] next@[k]),
                        hop as int + 1,
                    ),
                    forall|k: int| 0 <= k < cands@.len() ==> sound_candidate(
                        graph,
                        config,
                        seeds@,
                        &(#[trigger] cands@[k]),
                    ),
                    distinct_ids(cands@),
                    hop == 0 ==> node == seeds@[e as int],
                    hop == 0 ==> acc == SCALE,
                    hop == 0 ==> (cands@.len() < config.max_candidates ==> first_hop_covered(
                        graph,
                        config,
                        seeds@,
                        e as int,
                        cands@,
                    )),
                    hop == 0 ==> forall|j2: int|
                        0 <= j2 < ni && (#[trigger] neighbors@[j2]).1 >= min_weight
                            ==> has_candidate_with(cands@, neighbors@[j2].0, neighbors@[j2].1),
                    hop >= 1 ==> (cands@.len() < config.max_candidates ==> first_hop_covered(
                        graph,
                        config,
                        seeds@,
                        seeds@.len() as int,
                        cands@,
                    )),
                decreases neighbors@.len() - ni,
            {
                let (neighbor, edge_weight, edge_kind) = neighbors[ni];
                if edge_weight < min_weight {
                    ni = ni + 1;
                    continue;
                }
                let new_score = mul_fp(mul_fp(acc, edge_weight), decay);
                proof {
                    if hop == 0 {
                        // one hop from a seed scores exactly the edge weight
                        assert(decay_pow(config.decay_factor as int, 0) == SCALE as int);
                        assert((SCALE as int) * (edge_weight as int) == (edge_weight as int) * (
                        SCALE as int)) by (nonlinear_arith);
                        vstd::arithmetic::div_mod::lemma_div_by_multiple(
                            edge_weight as int,
                            SCALE as int,
                        );
                        assert(mul_fp_spec(SCALE as int, edge_weight as int)
                            == edge_weight as int);
                        assert(mul_fp_spec(edge_weight as int, SCALE as int)
                            == edge_weight as int);
                        assert(new_score == edge_weight);
                    }
                }
                let mut new_path = copy_ids(&level[e].path);
                new_path.push(neighbor);
                let mut new_kinds = copy_kinds(&level[e].edge_types);
                new_kinds.push(edge_kind);
                proof {
                    let st = &level@[e as int];
                    let ws = choose|ws: Seq<u64>|
                        walk_with_weights(
                            graph,
                            config,
                            seeds@,
                            st.path@,
                            st.edge_types@,
                            st.score,
                            ws,
                        );
                    let ws2 = ws.push(edge_weight);
                    assert(neighbors@[ni as int] == (neighbor, edge_weight, edge_kind));
                    assert(graph.neighbors_spec(node).contains((neighbor, edge_weight, edge_kind)));
                    assert(ws2.drop_last() =~= ws);
                    assert forall|k: int| 0 <= k < ws2.len() implies step_ok(
                        graph,
                        config,
                        new_path@[k],
                        new_path@[k + 1],
                        ws2[k],
                        new_kinds@[k],
                        k,
                    ) by {
                        if k < ws.len() {
                            assert(step_ok(
                                graph,
                                config,
                                st.path@[k],
                                st.path@[k + 1],
                                ws[k],
                                st.edge_types@[k],
                                k,
                            ));
                        }
                    }
                    assert(walk_with_weights(
                        graph,
                        config,
                        seeds@,
                        new_path@,
                        new_kinds@,
                        new_score,
                        ws2,
                    ));
                }
                // record or improve the candidate for this neighbor
                let ghost old_cands = cands@;
                match find_candidate(&cands, neighbor) {
                    Some(ci) => {
                        if new_score > cands[ci].score {
                            let path_copy = copy_ids(&new_path);
                            let kinds_copy = copy_kinds(&new_kinds);
                            cands[ci] = TraversalCandidate {
                                book_id: neighbor,
                                score: new_score,
                                path: path_copy,
                                edge_types: kinds_copy,
                            };
                        }
                        assert(cands@[ci as int].book_id == neighbor);
                    },
                    None => {
                        let path_copy = copy_ids(&new_path);
                        let kinds_copy = copy_kinds(&new_kinds);
                        cands.push(
                            TraversalCandidate {
                                book_id: neighbor,
                                score: new_score,
                                path: path_copy,
                                edge_types: kinds_copy,
                            },
                        );
                        assert(cands@[cands@.len() - 1].book_id == neighbor);
                    },
                }
                proof {
                    assert forall|id: i64, w: u64| #[trigger] has_candidate_with(
                        old_cands,
                        id,
                        w,
                    ) implies has_candidate_with(cands@, id, w) by {
                        let k = choose|k: int|
                            0 <= k < old_cands.len() && (#[trigger] old_cands[k]).book_id == id
                                && old_cands[k].score >= w;
                        assert(cands@[k].book_id == id && cands@[k].score >= w);
                    }
                    if hop == 0 {
                        assert(has_candidate_with(cands@, neighbor, edge_weight));
                    }
                    if cands@.len() < config.max_candidates {
                        if hop == 0 {
                            lemma_coverage_carries(graph, config, seeds@, e as int, old_cands, cands@);
                        } else {
                            lemma_coverage_carries(
                                graph,
                                config,
                                seeds@,
                                seeds@.len() as int,
                                old_cands,
                                cands@,
                            );
                        }
                    }
                }
                // enqueue for the next level if not seen before
                if !visited.contains(&neighbor) {
                    visited.insert(neighbor);
                    next.push(
                        PathState {
                            node: neighbor,
                            score: new_score,
                            path: new_path,
                            edge_types: new_kinds,
                        },
                    );
                }
                ni = ni + 1;
            }
            proof {
                if hop == 0 && cands@.len() < config.max_candidates {
                    assert(first_hop_covered(graph, config, seeds@, e as int + 1, cands@)) by {
                        assert forall|si2: int, j2: int|
                            0 <= si2 < e as int + 1 && 0 <= j2 < graph.neighbors_spec(
                                seeds@[si2],
                            ).len() && (#[trigger] graph.neighbors_spec(seeds@[si2])[j2]).1
                                >= hop_threshold(config, 0) implies has_candidate_with(
                            cands@,
                            graph.neighbors_spec(seeds@[si2])[j2].0,
                            graph.neighbors_spec(seeds@[si2])[j2].1,
                        ) by {
                            if si2 == e as int {
                                assert(neighbors@ == graph.neighbors_spec(seeds@[si2]));
                                assert(neighbors@[j2].1 >= min_weight);
                            }
                        }
                    }
                }
            }
            e = e + 1;
        }
        level = next;
        hop = hop + 1;
    }

    // seeds are never candidates, even when a cycle leads back to one
    let ghost cands_view = cands@;
    let mut filtered: Vec<TraversalCandidate> = Vec::new();
    let ghost mut removed_ids: Seq<i64> = Seq::<i64>::empty();
    let mut ci: usize = 0;
    while ci < cands.len()
        invariant
            graph.wf(),
            config.wf(),
            cands_view == cands@,
            0 <= ci <= cands@.len(),
            filtered@.len() <= ci,
            removed_ids.len() == ci - filtered@.len(),
            forall|m: int| 0 <= m < removed_ids.len() ==> seeds@.contains(
                #[trigger] removed_ids[m],
            ),
            forall|m: int| 0 <= m < removed_ids.len() ==> exists|k: int|
                0 <= k < ci && #[trigger] removed_ids[m] == (#[trigger] cands@[k].book_id),
            removed_ids.no_duplicates(),
            forall|k: int| 0 <= k < ci && !seeds@.contains((#[trigger] cands@[k]).book_id)
                ==> has_candidate_with(filtered@, cands@[k].book_id, cands@[k].score),
            forall|k: int| 0 <= k < cands@.len() ==> sound_candidate(
                graph,
                config,
                seeds@,
                &(#[trigger] cands@[k]),
            ),
            distinct_ids(cands@),
            forall|k: int| 0 <= k < filtered@.len() ==> sound_candidate(
                graph,
                config,
                seeds@,
                &(#[trigger] filtered@[k]),
            ),
            forall|k: int| 0 <= k < filtered@.len() ==> !seeds@.contains(
                (#[trigger] filtered@[k]).book_id,
            ),
            distinct_ids(filtered@),
            forall|k: int| 0 <= k < filtered@.len() ==> exists|m: int|
                0 <= m < ci && (#[trigger] filtered@[k]).book_id == (
                #[trigger] cands@[m].book_id),
        decreases cands@.len() - ci,
    {
        let c = &cands[ci];
        let is_seed = contains_id(seeds, c.book_id);
        if !is_seed {
            assert(!seeds@.contains(cands@[ci as int].book_id));
            let path_copy = copy_ids(&c.path);
            let kinds_copy = copy_kinds(&c.edge_types);
            let c2 = TraversalCandidate {
                book_id: c.book_id,
                score: c.score,
                path: path_copy,
                edge_types: kinds_copy,
            };
            assert(sound_candidate(graph, config, seeds@, &c2));
            let ghost old_filtered = filtered@;
            filtered.push(c2);
            proof {
                assert forall|k: int| 0 <= k < filtered@.len() implies exists|m: int|
                    0 <= m < ci + 1 && (#[trigger] filtered@[k]).book_id == (
                    #[trigger] cands@[m].book_id) by {
                    if k < old_filtered.len() {
                        let m = choose|m: int|
                            0 <= m < ci && (old_filtered[k]).book_id
                                == (#[trigger] cands@[m].book_id);
                        assert(0 <= m < ci + 1 && filtered@[k].book_id == cands@[m].book_id);
                    } else {
                        assert(filtered@[k].book_id == cands@[ci as int].book_id);
                    }
                }
                assert forall|k: int|
                    0 <= k < ci + 1 && !seeds@.contains((#[trigger] cands@[k]).book_id)
                        implies has_candidate_with(
                    filtered@,
                    cands@[k].book_id,
                    cands@[k].score,
                ) by {
                    if k < ci as int {
                        assert(has_candidate_with(old_filtered, cands@[k].book_id, cands@[
                            k
                        ].score));
                        let w = choose|w: int|
                            0 <= w < old_filtered.len() && (#[trigger] old_filtered[w]).book_id
                                == cands@[k].book_id && old_filtered[w].score >= cands@[k].score;
                        assert(filtered@[w].book_id == cands@[k].book_id && filtered@[w].score
                            >= cands@[k].score);
                    } else {
                        assert(filtered@[filtered@.len() - 1].book_id == cands@[k].book_id
                            && filtered@[filtered@.len() - 1].score >= cands@[k].score);
                    }
                }
            }
        } else {
            proof {
                assert(seeds@.contains(cands@[ci as int].book_id));
                let ghost new_removed = removed_ids.push(cands@[ci as int].book_id);
                assert(new_removed.no_duplicates()) by {
                    assert forall|a: int, b: int| 0 <= a < b < new_removed.len()
                        implies new_removed[a] != new_removed[b] by {
                        if b == new_removed.len() - 1 {
                            let k = choose|k: int|
                                0 <= k < ci && #[trigger] removed_ids[a] == (
                                #[trigger] cands@[k].book_id);
                            assert(cands@[k].book_id != cands@[ci as int].book_id);
                        }
                    }
                }
                removed_ids = new_removed;
            }
        }
        ci = ci + 1;
    }
    proof {
        // the removed identifiers are distinct and all seeds, so there are
        // at most as many of them as seeds
        removed_ids.unique_seq_to_set();
        assert(removed_ids.to_set().subset_of(seeds@.to_set()));
        vstd::seq_lib::seq_to_set_is_finite(seeds@);
        vstd::set_lib::lemma_len_subset(removed_ids.to_set(), seeds@.to_set());
        seeds@.lemma_cardinality_of_set();
        assert(cands@.len() <= filtered@.len() + seeds@.len());
    }

    let ghost filtered_view = filtered@;
    let mut result = sort_candidates_desc(filtered);
    proof {
        lemma_permutation_members(result@, filtered_view);
        lemma_permutation_distinct(filtered_view, result@);
        assert forall|k: int| 0 <= k < result@.len() implies sound_candidate(
            graph,
            config,
            seeds@,
            &(#[trigger] result@[k]),
        ) && !seeds@.contains(result@[k].book_id) by {
            assert(filtered_view.contains(result@[k]));
            let m = choose|m: int| 0 <= m < filtered_view.len() && filtered_view[m] == result@[k];
        }
    }
    // the candidate list can exceed the cap within one level of expansion;
    // enforce the exact bound here
    let ghost sorted_view = result@;
    while result.len() > config.max_candidates
        invariant
            forall|k: int| 0 <= k < result@.len() ==> sound_candidate(
                graph,
                config,
                seeds@,
                &(#[trigger] result@[k]),
            ),
            forall|k: int| 0 <= k < result@.len() ==> !seeds@.contains(
                (#[trigger] result@[k]).book_id,
            ),
            sorted_by_score_desc(result@),
            distinct_ids(result@),
            result@.len() >= config.max_candidates || result@ == sorted_view,
        decreases result@.len(),
    {
        result.pop();
    }
    proof {
        if config.max_hops >= 1 && result@.len() + seeds@.len() < config.max_candidates {
            assert(result@ == sorted_view);
            assert(cands_view.len() < config.max_candidates);
            assert(first_hop_covered(
                graph,
                config,
                seeds@,
                seeds@.len() as int,
                cands_view,
            ));
            assert forall|si2: int, j2: int|
                0 <= si2 < seeds@.len() && 0 <= j2 < graph.neighbors_spec(seeds@[si2]).len()
                    && (#[trigger] graph.neighbors_spec(seeds@[si2])[j2]).1 >= hop_threshold(
                    config,
                    0,
                ) && !seeds@.contains(graph.neighbors_spec(seeds@[si2])[j2].0)
                    implies has_candidate_with(
                result@,
                graph.neighbors_spec(seeds@[si2])[j2].0,
                graph.neighbors_spec(seeds@[si2])[j2].1,
            ) by {
                let id = graph.neighbors_spec(seeds@[si2])[j2].0;
                let wt = graph.neighbors_spec(seeds@[si2])[j2].1;
                assert(has_candidate_with(cands_view, id, wt));
                let k = choose|k: int|
                    0 <= k < cands_view.len() && (#[trigger] cands_view[k]).book_id == id
                        && cands_view[k].score >= wt;
                assert(has_candidate_with(filtered_view, id, cands_view[k].score));
                let w = choose|w: int|
                    0 <= w < filtered_view.len() && (#[trigger] filtered_view[w]).book_id == id
                        && filtered_view[w].score >= cands_view[k].score;
                lemma_permutation_members(filtered_view, result@);
                assert(result@.contains(filtered_view[w]));
                let w2 = choose|w2: int|
                    0 <= w2 < result@.len() && result@[w2] == filtered_view[w];
                assert(result@[w2].book_id == id && result@[w2].score >= wt);
            }
        }
    }
    proof {
        assert forall|k: int| 0 <= k < result@.len() implies (#[trigger] result@[k]).score
            <= SCALE by {
            assert(sound_candidate(graph, config, seeds@, &result@[k]));
            let c = result@[k];
            let ws = choose|ws: Seq<u64>|
                walk_with_weights(graph, config, seeds@, c.path@, c.edge_types@, c.score, ws);
            lemma_walk_weights_bounded(graph, config, seeds@, c.path@, c.edge_types@, c.score, ws);
        }
    }
    result
}

/// Every weight along a sound walk is a score, so the accumulated score is
/// one too.
proof fn lemma_walk_weights_bounded(
    graph: &BookGraph,
    config: &TraversalConfig,
    seeds: Seq<i64>,
    path: Seq<i64>,
    kinds: Seq<EdgeKind>,
    score: u64,
    ws: Seq<u64>,
)
    requires
        graph.wf(),
        config.wf(),
        walk_with_weights(graph, config, seeds, path, kinds, score, ws),
    ensures
        score <= SCALE,
{
    assert forall|k: int| 0 <= k < ws.len() implies #[trigger] ws[k] <= SCALE by {
        assert(step_ok(graph, config, path[k], path[k + 1], ws[k], kinds[k], k));
        let ns = graph.neighbors_spec(path[k]);
        assert(ns.contains((path[k + 1], ws[k], kinds[k])));
        let j = choose|j: int| 0 <= j < ns.len() && ns[j] == (path[k + 1], ws[k], kinds[k]);
        lemma_neighbors_weights_bounded(graph, path[k], j);
    }
    lemma_score_after_bounds(ws, config.decay_factor as int);
}

/// Every weight a neighbour list reports is a score.
proof fn lemma_neighbors_weights_bounded(graph: &BookGraph, id: i64, j: int)
    requires
        graph.wf(),
        0 <= j < graph.neighbors_spec(id).len(),
    ensures
        graph.neighbors_spec(id)[j].1 <= SCALE,
{
    let ns = graph.neighbors_spec(id);
    if graph.id_to_node@.contains_key(id) {
        let idx = graph.id_to_node@[id];
        let kept = crate::graph::edges_from(crate::graph::graph_edge_list(graph.graph), idx);
        let m = kept.len() - 1 - j;
        crate::graph::lemma_edges_from_member(
            crate::graph::graph_edge_list(graph.graph),
            idx,
            m,
        );
    }
}

/// Compute a fixed-point power of the decay factor.
fn decay_power(decay: u64, h: usize) -> (r: u64)
    requires
        decay <= SCALE,
    ensures
        r as int == decay_pow(decay as int, h as nat),
        r <= SCALE,
{
    let mut r: u64 = SCALE;
    let mut i: usize = 0;
    while i < h
        invariant
            decay <= SCALE,
            0 <= i <= h,
            r as int == decay_pow(decay as int, i as nat),
            r <= SCALE,
        decreases h - i,
    {
        r = mul_fp(r, decay);
        i = i + 1;
    }
    r
}

} // verus!
