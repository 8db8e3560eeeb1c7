//! Personalized PageRank: a global relevance signal over the whole graph,
//! biased toward a seed set and a preference set, computed by power
//! iteration.
//!
//! Each iteration recomputes every node's score as the damped sum of the
//! contributions flowing along incoming edges plus the undamped share of the
//! node's personalization mass. The contract guarantees the shape of the
//! result (one score per node, in node order), that every score is a
//! fixed-point value in the unit interval, and that the scores together
//! never exceed one: the iteration cannot diverge.

use vstd::prelude::*;
use vstd::arithmetic::div_mod::{
    lemma_div_is_ordered, lemma_div_by_multiple, lemma_div_pos_is_pos, lemma_div_denominator,
    lemma_fundamental_div_mod,
};
use vstd::arithmetic::mul::{lemma_mul_inequality, lemma_mul_is_distributive_add};
use crate::SCALE;
use crate::graph::BookGraph;

verus! {

/// Configuration of a personalized PageRank computation.
pub struct PageRankConfig {
    /// Damping factor: the share of score that flows along edges.
    pub damping: u64,
    /// Share of the personalization mass given to the preference set; the
    /// seed set receives the rest.
    pub preference_weight: u64,
    /// Number of power iterations.
    pub iterations: usize,
    /// Early-exit threshold: iteration stops once no score moved by this
    /// much.
    pub epsilon: u64,
}

impl PageRankConfig {
    /// A usable configuration: damping and preference weight are scores.
    pub open spec fn wf(&self) -> bool {
        &&& self.damping <= SCALE
        &&& self.preference_weight <= SCALE
    }
}

impl Default for PageRankConfig {
    /// The classic damping of 0.85, preferences holding three tenths of the
    /// personalization mass, twenty iterations, and an epsilon of one
    /// fixed-point unit (a millionth).
    fn default() -> (r: Self)
        ensures
            r.damping == 850_000u64,
            r.preference_weight == 300_000u64,
            r.iterations == 20,
            r.epsilon == 1,
            r.wf(),
    {
        PageRankConfig { damping: 850_000, preference_weight: 300_000, iterations: 20, epsilon: 1 }
    }
}

/// The sum of the first `n` scores.
pub open spec fn sum_scores(s: Seq<u64>, n: int) -> int
    decreases n,
{
    if n <= 0 {
        0
    } else {
        sum_scores(s, n - 1) + s[n - 1]
    }
}

/// The total of a score map's values.
pub open spec fn total_score(s: Seq<(i64, u64)>) -> int
    decreases s.len(),
{
    if s.len() == 0 {
        0
    } else {
        total_score(s.drop_last()) + s.last().1
    }
}

/// A score vector seen as integers.
pub open spec fn ints_of(s: Seq<u64>) -> Seq<int> {
    s.map_values(|x: u64| x as int)
}

/// A zero vector of the given length.
pub open spec fn zero_scores(n: int) -> Seq<int> {
    Seq::new(n as nat, |i: int| 0)
}

/// The uniform start: every node holds one over the node count.
pub open spec fn uniform_scores(n: int) -> Seq<int> {
    Seq::new(n as nat, |i: int| (SCALE as int) / n)
}

/// Personalization mass added for the listed identifiers, folded in order:
/// each identifier with a node adds `w` at that node's index, the rest add
/// nothing.
pub open spec fn mass_added(graph: &BookGraph, pers: Seq<int>, ids: Seq<i64>, w: int) -> Seq<
    int,
>
    decreases ids.len(),
{
    if ids.len() == 0 {
        pers
    } else {
        let prev = mass_added(graph, pers, ids.drop_last(), w);
        let id = ids.last();
        if graph.id_to_node@.contains_key(id) && (graph.id_to_node@[id] as int) < prev.len() {
            let idx = graph.id_to_node@[id] as int;
            prev.update(idx, prev[idx] + w)
        } else {
            prev
        }
    }
}

/// The personalization vector: the seeds share the mass left over by the
/// preference weight and the preferences share the preference weight, each
/// set's share split evenly among its members; with neither set listed the
/// personalization is the uniform start.
pub open spec fn personalization_of(
    graph: &BookGraph,
    seeds: Seq<i64>,
    preferences: Seq<i64>,
    preference_weight: u64,
    n: int,
) -> Seq<int> {
    if seeds.len() + preferences.len() > 0 {
        let sl: int = if seeds.len() == 0 {
            1
        } else {
            seeds.len() as int
        };
        let pl: int = if preferences.len() == 0 {
            1
        } else {
            preferences.len() as int
        };
        let seed_w = ((SCALE - preference_weight) as int) / sl;
        let pref_w = (preference_weight as int) / pl;
        mass_added(
            graph,
            mass_added(graph, zero_scores(n), seeds, seed_w),
            preferences,
            pref_w,
        )
    } else {
        uniform_scores(n)
    }
}

/// One edge's contribution: the source's score times the edge weight, over
/// the scale times the out-degree divisor, rounded down.
pub open spec fn contribution(sc: int, w: int, d: int) -> int {
    sc * w / ((SCALE as int) * d)
}

/// The contribution vector after following the listed out-edges of one
/// source of score `sc` and out-degree divisor `d`.
pub open spec fn inc_after_edges(inc: Seq<int>, es: Seq<(usize, u64, u8)>, sc: int, d: int)
    -> Seq<int>
    decreases es.len(),
{
    if es.len() == 0 {
        inc
    } else {
        let prev = inc_after_edges(inc, es.drop_last(), sc, d);
        let e = es.last();
        if (e.0 as int) < prev.len() {
            prev.update(e.0 as int, prev[e.0 as int] + contribution(sc, e.1 as int, d))
        } else {
            prev
        }
    }
}

/// The contribution vector after processing the first `upto` sources, each
/// distributing its score along its outgoing edges.
pub open spec fn inc_after_sources(graph: &BookGraph, scores: Seq<int>, upto: int) -> Seq<int>
    decreases upto,
{
    if upto <= 0 {
        zero_scores(scores.len() as int)
    } else {
        let prev = inc_after_sources(graph, scores, upto - 1);
        let es = crate::graph::out_edges_of(
            crate::graph::graph_edge_list(graph.graph),
            (upto - 1) as usize,
        );
        let d: int = if es.len() == 0 {
            1
        } else {
            es.len() as int
        };
        inc_after_edges(prev, es, scores[upto - 1], d)
    }
}

/// Following edges never changes the vector's length.
proof fn lemma_inc_edges_len(inc: Seq<int>, es: Seq<(usize, u64, u8)>, sc: int, d: int)
    ensures
        inc_after_edges(inc, es, sc, d).len() == inc.len(),
    decreases es.len(),
{
    if es.len() > 0 {
        lemma_inc_edges_len(inc, es.drop_last(), sc, d);
    }
}

/// Processing sources never changes the vector's length.
proof fn lemma_inc_sources_len(graph: &BookGraph, scores: Seq<int>, upto: int)
    ensures
        inc_after_sources(graph, scores, upto).len() == scores.len(),
    decreases upto,
{
    if upto > 0 {
        lemma_inc_sources_len(graph, scores, upto - 1);
        let prev = inc_after_sources(graph, scores, upto - 1);
        let es = crate::graph::out_edges_of(
            crate::graph::graph_edge_list(graph.graph),
            (upto - 1) as usize,
        );
        let d: int = if es.len() == 0 {
            1
        } else {
            es.len() as int
        };
        lemma_inc_edges_len(prev, es, scores[upto - 1], d);
    }
}

/// Adding mass never changes the vector's length.
proof fn lemma_mass_len(graph: &BookGraph, pers: Seq<int>, ids: Seq<i64>, w: int)
    ensures
        mass_added(graph, pers, ids, w).len() == pers.len(),
    decreases ids.len(),
{
    if ids.len() > 0 {
        lemma_mass_len(graph, pers, ids.drop_last(), w);
    }
}

/// Iterating over an empty score vector stays empty.
proof fn lemma_iterated_empty(
    graph: &BookGraph,
    pers: Seq<int>,
    damping: u64,
    epsilon: u64,
    fuel: nat,
)
    ensures
        pagerank_iterated(graph, pers, damping, epsilon, Seq::<int>::empty(), fuel)
            == Seq::<int>::empty(),
    decreases fuel,
{
    if fuel > 0 {
        let nxt = next_scores(graph, Seq::<int>::empty(), pers, damping);
        assert(nxt =~= Seq::<int>::empty());
        lemma_iterated_empty(graph, pers, damping, epsilon, (fuel - 1) as nat);
    }
}

/// One power-iteration pass: each node's damped incoming contributions plus
/// its undamped personalization share.
pub open spec fn next_scores(graph: &BookGraph, scores: Seq<int>, pers: Seq<int>, damping: u64)
    -> Seq<int> {
    let inc = inc_after_sources(graph, scores, scores.len() as int);
    Seq::new(
        scores.len(),
        |i: int| (damping as int) * inc[i] / (SCALE as int) + (((SCALE - damping) as int)
            * pers[i]) / (SCALE as int),
    )
}

/// The largest absolute score movement across the first `k` nodes.
pub open spec fn max_move(new: Seq<int>, old: Seq<int>, k: int) -> int
    decreases k,
{
    if k <= 0 {
        0
    } else {
        let prev = max_move(new, old, k - 1);
        let step = if new[k - 1] >= old[k - 1] {
            new[k - 1] - old[k - 1]
        } else {
            old[k - 1] - new[k - 1]
        };
        if step > prev {
            step
        } else {
            prev
        }
    }
}

/// The scores after at most `fuel` power-iteration passes, stopping early
/// after a pass in which no score moved by the epsilon.
pub open spec fn pagerank_iterated(
    graph: &BookGraph,
    pers: Seq<int>,
    damping: u64,
    epsilon: u64,
    scores: Seq<int>,
    fuel: nat,
) -> Seq<int>
    decreases fuel,
{
    if fuel == 0 {
        scores
    } else {
        let nxt = next_scores(graph, scores, pers, damping);
        if max_move(nxt, scores, scores.len() as int) < epsilon {
            nxt
        } else {
            pagerank_iterated(graph, pers, damping, epsilon, nxt, (fuel - 1) as nat)
        }
    }
}

/// A prefix sum of scores is nonnegative.
pub proof fn lemma_sum_nonneg(s: Seq<u64>, n: int)
    requires
        n <= s.len(),
    ensures
        0 <= sum_scores(s, n),
    decreases n,
{
    if n > 0 {
        lemma_sum_nonneg(s, n - 1);
    }
}

/// Each score is at most the sum of a prefix containing it.
pub proof fn lemma_elem_le_sum(s: Seq<u64>, i: int, n: int)
    requires
        0 <= i < n <= s.len(),
    ensures
        s[i] <= sum_scores(s, n),
    decreases n,
{
    if i == n - 1 {
        lemma_sum_nonneg(s, n - 1);
    } else {
        lemma_elem_le_sum(s, i, n - 1);
    }
}

/// A longer prefix of scores has at least the sum of a shorter one.
pub proof fn lemma_sum_monotone(s: Seq<u64>, a: int, b: int)
    requires
        0 <= a <= b <= s.len(),
    ensures
        sum_scores(s, a) <= sum_scores(s, b),
    decreases b,
{
    if a < b {
        lemma_sum_monotone(s, a, b - 1);
    }
}

/// Updating one entry moves the sum by the difference.
proof fn lemma_sum_update(s: Seq<u64>, i: int, x: u64, n: int)
    requires
        0 <= i < n <= s.len(),
    ensures
        sum_scores(s.update(i, x), n) == sum_scores(s, n) - s[i] + x,
    decreases n,
{
    let t = s.update(i, x);
    if i == n - 1 {
        assert(sum_scores(t, n - 1) == sum_scores(s, n - 1)) by {
            lemma_sum_same_prefix(s, t, n - 1);
        }
    } else {
        lemma_sum_update(s, i, x, n - 1);
    }
}

/// Sequences equal on a prefix have the same prefix sums.
proof fn lemma_sum_same_prefix(a: Seq<u64>, b: Seq<u64>, n: int)
    requires
        n <= a.len(),
        n <= b.len(),
        forall|k: int| 0 <= k < n ==> a[k] == b[k],
    ensures
        sum_scores(a, n) == sum_scores(b, n),
    decreases n,
{
    if n > 0 {
        lemma_sum_same_prefix(a, b, n - 1);
    }
}

/// Integer division distributes superadditively over addition.
proof fn lemma_div_superadd(a: int, b: int, m: int)
    requires
        0 <= a,
        0 <= b,
        0 < m,
    ensures
        a / m + b / m <= (a + b) / m,
{
    lemma_fundamental_div_mod(a, m);
    lemma_fundamental_div_mod(b, m);
    assert(a / m + b / m <= (a + b) / m) by (nonlinear_arith)
        requires
            a == m * (a / m) + a % m,
            b == m * (b / m) + b % m,
            0 <= a % m < m,
            0 <= b % m < m,
            0 < m,
            0 <= a / m,
            0 <= b / m,
    ;
}

/// How many of the listed out-edges point at node `t`.
pub open spec fn tgt_count(es: Seq<(usize, u64, u8)>, t: int) -> int
    decreases es.len(),
{
    if es.len() == 0 {
        0
    } else {
        tgt_count(es.drop_last(), t) + if es.last().0 as int == t {
            1int
        } else {
            0int
        }
    }
}

/// How many edges from the first `upto` sources point at node `t`.
pub open spec fn in_from(graph: &BookGraph, t: int, upto: int) -> int
    decreases upto,
{
    if upto <= 0 {
        0
    } else {
        in_from(graph, t, upto - 1) + tgt_count(
            crate::graph::out_edges_of(
                crate::graph::graph_edge_list(graph.graph),
                (upto - 1) as usize,
            ),
            t,
        )
    }
}

/// Node `s` has exactly `d` outgoing edges, all of full weight.
pub open spec fn regular_out(graph: &BookGraph, d: int, s: int) -> bool {
    let es = crate::graph::out_edges_of(
        crate::graph::graph_edge_list(graph.graph),
        s as usize,
    );
    &&& es.len() == d
    &&& forall|k: int| 0 <= k < es.len() ==> (#[trigger] es[k]).1 == SCALE
}

/// Following full-weight edges from one source adds one fixed share per
/// edge pointing at each node.
proof fn lemma_inc_edges_regular(inc: Seq<int>, es: Seq<(usize, u64, u8)>, sc: int, d: int, t: int)
    requires
        0 <= t < inc.len(),
        forall|k: int| 0 <= k < es.len() ==> ((#[trigger] es[k]).1 == SCALE && (es[k].0 as int)
            < inc.len()),
    ensures
        inc_after_edges(inc, es, sc, d)[t] == inc[t] + tgt_count(es, t) * contribution(
            sc,
            SCALE as int,
            d,
        ),
        inc_after_edges(inc, es, sc, d).len() == inc.len(),
    decreases es.len(),
{
    lemma_inc_edges_len(inc, es, sc, d);
    if es.len() == 0 {
        assert(0int * contribution(sc, SCALE as int, d) == 0) by (nonlinear_arith);
    } else {
        assert(forall|k: int| 0 <= k < es.drop_last().len() ==> ((#[trigger] es.drop_last()[
            k
        ]).1 == SCALE && (es.drop_last()[k].0 as int) < inc.len()));
        lemma_inc_edges_regular(inc, es.drop_last(), sc, d, t);
        lemma_inc_edges_len(inc, es.drop_last(), sc, d);
        let c = contribution(sc, SCALE as int, d);
        let prevcount = tgt_count(es.drop_last(), t);
        if es.last().0 as int == t {
            assert((prevcount + 1) * c == prevcount * c + c) by (nonlinear_arith);
        }
    }
}

/// With every score equal, a regular graph's contribution vector is uniform:
/// each node receives its in-degree times the common share.
proof fn lemma_inc_sources_regular(graph: &BookGraph, scores: Seq<int>, d: int, u: int, upto: int, t: int)
    requires
        graph.wf(),
        scores.len() == graph.node_ids().len(),
        0 <= t < scores.len(),
        0 <= upto <= scores.len(),
        d >= 1,
        forall|i: int| 0 <= i < scores.len() ==> #[trigger] scores[i] == u,
        forall|s: int| 0 <= s < scores.len() ==> #[trigger] regular_out(graph, d, s),
    ensures
        inc_after_sources(graph, scores, upto)[t] == in_from(graph, t, upto) * contribution(
            u,
            SCALE as int,
            d,
        ),
        inc_after_sources(graph, scores, upto).len() == scores.len(),
    decreases upto,
{
    lemma_inc_sources_len(graph, scores, upto);
    let c = contribution(u, SCALE as int, d);
    if upto <= 0 {
        assert(0int * c == 0) by (nonlinear_arith);
    } else {
        lemma_inc_sources_regular(graph, scores, d, u, upto - 1, t);
        let prev = inc_after_sources(graph, scores, upto - 1);
        let es = crate::graph::out_edges_of(
            crate::graph::graph_edge_list(graph.graph),
            (upto - 1) as usize,
        );
        assert(regular_out(graph, d, upto - 1));
        assert(es.len() == d);
        assert forall|k: int| 0 <= k < es.len() implies ((#[trigger] es[k]).1 == SCALE && (
        es[k].0 as int) < prev.len()) by {
            crate::graph::lemma_edges_from_member(
                crate::graph::graph_edge_list(graph.graph),
                (upto - 1) as usize,
                es.len() - 1 - k,
            );
        }
        lemma_inc_edges_regular(prev, es, scores[upto - 1], d, t);
        assert((in_from(graph, t, upto - 1) + tgt_count(es, t)) * c == in_from(
            graph,
            t,
            upto - 1,
        ) * c + tgt_count(es, t) * c) by (nonlinear_arith);
    }
}

/// On a regular graph — every node has exactly `d` outgoing edges, all of
/// full weight, and exactly `d` incoming edges — the power iteration keeps
/// equal scores equal, whatever the damping, epsilon and fuel: all result
/// scores coincide. A symmetric ring of full-weight edges in both directions
/// is such a graph with `d` two and uniform personalization, so its scores
/// converge to equal values.
pub proof fn lemma_pagerank_regular_equal(
    graph: &BookGraph,
    pers: Seq<int>,
    damping: u64,
    epsilon: u64,
    scores: Seq<int>,
    fuel: nat,
    d: int,
)
    requires
        graph.wf(),
        scores.len() == graph.node_ids().len(),
        pers.len() == scores.len(),
        d >= 1,
        damping <= SCALE,
        forall|i: int, j: int| 0 <= i < scores.len() && 0 <= j < scores.len()
            ==> #[trigger] scores[i] == #[trigger] scores[j],
        forall|i: int| 0 <= i < scores.len() ==> #[trigger] scores[i] >= 0,
        forall|i: int, j: int| 0 <= i < pers.len() && 0 <= j < pers.len() ==> #[trigger] pers[i]
            == #[trigger] pers[j],
        forall|i: int| 0 <= i < pers.len() ==> #[trigger] pers[i] >= 0,
        forall|s: int| 0 <= s < scores.len() ==> #[trigger] regular_out(graph, d, s),
        forall|t: int| 0 <= t < scores.len() ==> #[trigger] in_from(graph, t, scores.len() as int)
            == d,
    ensures
        pagerank_iterated(graph, pers, damping, epsilon, scores, fuel).len() == scores.len(),
        forall|i: int, j: int| 0 <= i < scores.len() && 0 <= j < scores.len()
            ==> #[trigger] pagerank_iterated(graph, pers, damping, epsilon, scores, fuel)[i]
            == #[trigger] pagerank_iterated(graph, pers, damping, epsilon, scores, fuel)[j],
    decreases fuel,
{
    if fuel == 0 {
    } else {
        let nxt = next_scores(graph, scores, pers, damping);
        if scores.len() > 0 {
            let u = scores[0];
            assert forall|i: int, j: int|
                0 <= i < nxt.len() && 0 <= j < nxt.len() implies #[trigger] nxt[i]
                == #[trigger] nxt[j] by {
                lemma_inc_sources_regular(graph, scores, d, u, scores.len() as int, i);
                lemma_inc_sources_regular(graph, scores, d, u, scores.len() as int, j);
            }
            assert forall|i: int| 0 <= i < nxt.len() implies #[trigger] nxt[i] >= 0 by {
                lemma_inc_sources_regular(graph, scores, d, u, scores.len() as int, i);
                vstd::arithmetic::mul::lemma_mul_nonnegative(
                    in_from(graph, i, scores.len() as int),
                    contribution(u, SCALE as int, d),
                );
                assert(contribution(u, SCALE as int, d) >= 0) by {
                    vstd::arithmetic::mul::lemma_mul_nonnegative(u, SCALE as int);
                    assert((SCALE as int) * d >= 1) by (nonlinear_arith)
                        requires
                            d >= 1,
                    ;
                    lemma_div_pos_is_pos(u * (SCALE as int), (SCALE as int) * d);
                }
                assert(in_from(graph, i, scores.len() as int) >= 0);
                vstd::arithmetic::mul::lemma_mul_nonnegative(
                    damping as int,
                    inc_after_sources(graph, scores, scores.len() as int)[i],
                );
                vstd::arithmetic::mul::lemma_mul_nonnegative((SCALE - damping) as int, pers[i]);
                lemma_div_pos_is_pos(
                    (damping as int) * inc_after_sources(graph, scores, scores.len() as int)[i],
                    SCALE as int,
                );
                lemma_div_pos_is_pos(((SCALE - damping) as int) * pers[i], SCALE as int);
            }
        }
        if max_move(nxt, scores, scores.len() as int) < epsilon {
        } else {
            assert(nxt.len() == scores.len());
            lemma_pagerank_regular_equal(graph, pers, damping, epsilon, nxt, (fuel - 1) as nat, d);
        }
    }
}

/// Compute personalized PageRank scores for every node of the graph.
///
/// Power iteration over the full node set: scores start uniform; each round
/// every node receives the damped contributions `score * weight / out_degree`
/// of its incoming edges plus its undamped personalization share, and the
/// round's scores replace the previous ones. Iteration stops early once no
/// score moves by at least `config.epsilon`. The personalization mass is
/// split between the preference set (`config.preference_weight` of it) and
/// the seed set (the rest), evenly within each set; with neither it is
/// uniform. Seeds or preferences without a node are ignored.
///
/// Returns one entry per node, in node order: the item identifier and its
/// final score. Every score lies in the unit interval and the scores sum to
/// at most one: the iteration is bounded and cannot diverge.
pub fn personalized_pagerank(
    graph: &BookGraph,
    seeds: &Vec<i64>,
    preferences: &Vec<i64>,
    config: &PageRankConfig,
) -> (r: Vec<(i64, u64)>)
    requires
        graph.wf(),
        config.wf(),
        seeds@.len() + preferences@.len() <= 1_000_000_000,
    ensures
        r@.len() == graph.node_ids().len(),
        forall|i: int| 0 <= i < r@.len() ==> (#[trigger] r@[i]).0 == graph.node_ids()[i],
        forall|i: int| 0 <= i < r@.len() ==> (#[trigger] r@[i]).1 <= SCALE,
        total_score(r@) <= SCALE as int,
        (config.iterations == 0 && r@.len() > 0) ==> forall|i: int|
            0 <= i < r@.len() ==> (#[trigger] r@[i]).1 == SCALE as int / r@.len() as int,
        ints_of(r@.map_values(|p: (i64, u64)| p.1)) == pagerank_iterated(
            graph,
            personalization_of(
                graph,
                seeds@,
                preferences@,
                config.preference_weight,
                r@.len() as int,
            ),
            config.damping,
            config.epsilon,
            uniform_scores(r@.len() as int),
            config.iterations as nat,
        ),
{
    let n = graph.node_count();
    if n == 0 {
        let r: Vec<(i64, u64)> = Vec::new();
        proof {
            assert(ints_of(r@.map_values(|p: (i64, u64)| p.1)) =~= Seq::<int>::empty());
            assert(uniform_scores(0) =~= Seq::<int>::empty());
            lemma_iterated_empty(
                graph,
                personalization_of(graph, seeds@, preferences@, config.preference_weight, 0),
                config.damping,
                config.epsilon,
                config.iterations as nat,
            );
        }
        return r;
    }

    let init: u64 = SCALE / (n as u64);
    proof {
        lemma_div_is_ordered(SCALE as int, SCALE as int, n as int);
        lemma_div_pos_is_pos(SCALE as int, n as int);
    }
    let mut scores: Vec<u64> = Vec::new();
    let mut i: usize = 0;
    while i < n
        invariant
            init <= SCALE,
            0 <= i <= n,
            scores@.len() == i,
            forall|k: int| 0 <= k < i ==> scores@[k] == init,
            sum_scores(scores@, i as int) == i * init,
        decreases n - i,
    {
        let ghost old_scores = scores@;
        scores.push(init);
        proof {
            assert((i + 1) * init == i * init + init) by (nonlinear_arith);
            lemma_sum_same_prefix(old_scores, scores@, i as int);
        }
        i = i + 1;
    }
    proof {
        assert(n * init <= SCALE) by {
            lemma_fundamental_div_mod(SCALE as int, n as int);
            assert(n * init == (n as int) * ((SCALE as int) / (n as int)));
        }
        assert(sum_scores(scores@, n as int) <= SCALE);
        assert(ints_of(scores@) =~= uniform_scores(n as int));
    }

    // personalization vector
    let mut pers: Vec<u64> = Vec::new();
    let mut zi: usize = 0;
    while zi < n
        invariant
            0 <= zi <= n,
            pers@.len() == zi,
            forall|k: int| 0 <= k < zi ==> pers@[k] == 0u64,
            sum_scores(pers@, zi as int) == 0,
        decreases n - zi,
    {
        let ghost old_pers0 = pers@;
        pers.push(0);
        proof {
            lemma_sum_same_prefix(old_pers0, pers@, zi as int);
        }
        zi = zi + 1;
    }
    proof {
        assert(ints_of(pers@) =~= zero_scores(n as int));
    }

    if seeds.len() + preferences.len() > 0 {
        let sl: u64 = if seeds.len() == 0 {
            1
        } else {
            seeds.len() as u64
        };
        let pl: u64 = if preferences.len() == 0 {
            1
        } else {
            preferences.len() as u64
        };
        let seed_w: u64 = (SCALE - config.preference_weight) / sl;
        let pref_w: u64 = config.preference_weight / pl;
        proof {
            lemma_div_pos_is_pos((SCALE - config.preference_weight) as int, sl as int);
            lemma_div_pos_is_pos(config.preference_weight as int, pl as int);
        }
        let ghost seed_budget = (SCALE - config.preference_weight) as int;
        let ghost pref_budget = config.preference_weight as int;
        let mut si: usize = 0;
        while si < seeds.len()
            invariant
                graph.wf(),
                0 <= si <= seeds@.len(),
                pers@.len() == n == graph.node_ids().len(),
                seeds@.len() <= 1_000_000_000,
                seed_w == seed_budget / (sl as int),
                seed_budget == SCALE - config.preference_weight,
                sl == if seeds@.len() == 0 { 1int } else { seeds@.len() as int },
                sum_scores(pers@, n as int) <= si * seed_w,
                forall|k: int| 0 <= k < n ==> #[trigger] pers@[k] <= sum_scores(
                    pers@,
                    n as int,
                ),
                ints_of(pers@) == mass_added(
                    graph,
                    zero_scores(n as int),
                    seeds@.take(si as int),
                    seed_w as int,
                ),
            decreases seeds@.len() - si,
        {
            proof {
                assert(seeds@.take(si as int + 1).drop_last() =~= seeds@.take(si as int));
                assert(seeds@.take(si as int + 1).last() == seeds@[si as int]);
                lemma_mass_len(
                    graph,
                    zero_scores(n as int),
                    seeds@.take(si as int),
                    seed_w as int,
                );
            }
            let ghost old_pers = pers@;
            match graph.index_of(seeds[si]) {
                Some(idx) => {
                    proof {
                        lemma_elem_le_sum(pers@, idx as int, n as int);
                        assert(si * seed_w + seed_w == (si + 1) * seed_w) by (nonlinear_arith);
                        assert(seeds@.len() * seed_w <= seed_budget) by {
                            lemma_fundamental_div_mod(seed_budget, sl as int);
                            assert((sl as int) * seed_w <= seed_budget);
                            lemma_mul_inequality(seeds@.len() as int, sl as int, seed_w as int);
                        }
                        assert((si + 1) * seed_w <= seeds@.len() * seed_w) by (nonlinear_arith)
                            requires
                                0 <= si + 1 <= seeds@.len(),
                                0 <= seed_w,
                        ;
                    }
                    let v = pers[idx];
                    pers[idx] = v + seed_w;
                    proof {
                        lemma_sum_update(old_pers, idx as int, (v + seed_w) as u64, n as int);
                        assert forall|k: int| 0 <= k < n implies #[trigger] pers@[k]
                            <= sum_scores(pers@, n as int) by {
                            lemma_elem_le_sum(pers@, k, n as int);
                        }
                        assert(ints_of(pers@) =~= mass_added(
                            graph,
                            zero_scores(n as int),
                            seeds@.take(si as int + 1),
                            seed_w as int,
                        ));
                    }
                },
                None => {
                    proof {
                        assert(si * seed_w <= (si + 1) * seed_w) by (nonlinear_arith)
                            requires
                                0 <= si,
                                0 <= seed_w,
                        ;
                        assert(ints_of(pers@) =~= mass_added(
                            graph,
                            zero_scores(n as int),
                            seeds@.take(si as int + 1),
                            seed_w as int,
                        ));
                    }
                },
            }
            si = si + 1;
        }
        proof {
            assert(seeds@.take(seeds@.len() as int) =~= seeds@);
        }
        proof {
            assert(sum_scores(pers@, n as int) <= seed_budget) by {
                assert(seeds@.len() * seed_w <= seed_budget) by {
                    lemma_fundamental_div_mod(seed_budget, sl as int);
                    lemma_mul_inequality(seeds@.len() as int, sl as int, seed_w as int);
                }
                assert(si as int * seed_w <= seeds@.len() * seed_w) by (nonlinear_arith)
                    requires
                        0 <= si as int <= seeds@.len(),
                        0 <= seed_w,
                ;
            }
        }
        let ghost base = sum_scores(pers@, n as int);
        let ghost seeded = mass_added(graph, zero_scores(n as int), seeds@, seed_w as int);
        let mut pi: usize = 0;
        while pi < preferences.len()
            invariant
                graph.wf(),
                0 <= pi <= preferences@.len(),
                pers@.len() == n == graph.node_ids().len(),
                preferences@.len() <= 1_000_000_000,
                pref_w == pref_budget / (pl as int),
                pref_budget == config.preference_weight,
                pref_budget <= SCALE as int,
                pl == if preferences@.len() == 0 { 1int } else { preferences@.len() as int },
                base <= seed_budget,
                seed_budget <= SCALE as int,
                0 <= base,
                sum_scores(pers@, n as int) <= base + pi * pref_w,
                forall|k: int| 0 <= k < n ==> #[trigger] pers@[k] <= sum_scores(
                    pers@,
                    n as int,
                ),
                seeded == mass_added(graph, zero_scores(n as int), seeds@, seed_w as int),
                ints_of(pers@) == mass_added(
                    graph,
                    seeded,
                    preferences@.take(pi as int),
                    pref_w as int,
                ),
            decreases preferences@.len() - pi,
        {
            proof {
                assert(preferences@.take(pi as int + 1).drop_last() =~= preferences@.take(
                    pi as int,
                ));
                assert(preferences@.take(pi as int + 1).last() == preferences@[pi as int]);
                lemma_mass_len(graph, seeded, preferences@.take(pi as int), pref_w as int);
                lemma_mass_len(graph, zero_scores(n as int), seeds@, seed_w as int);
            }
            let ghost old_pers = pers@;
            match graph.index_of(preferences[pi]) {
                Some(idx) => {
                    proof {
                        lemma_elem_le_sum(pers@, idx as int, n as int);
                        assert(pi * pref_w + pref_w == (pi + 1) * pref_w) by (nonlinear_arith);
                        assert(preferences@.len() * pref_w <= pref_budget) by {
                            lemma_fundamental_div_mod(pref_budget, pl as int);
                            lemma_mul_inequality(
                                preferences@.len() as int,
                                pl as int,
                                pref_w as int,
                            );
                        }
                        assert((pi + 1) * pref_w <= preferences@.len() * pref_w)
                            by (nonlinear_arith)
                            requires
                                0 <= pi + 1 <= preferences@.len(),
                                0 <= pref_w,
                        ;
                    }
                    let v = pers[idx];
                    proof {
                        assert(pi * pref_w <= (pi + 1) * pref_w) by (nonlinear_arith)
                            requires
                                0 <= pi,
                                0 <= pref_w,
                        ;
                        assert(pref_w as int <= pref_budget) by {
                            lemma_fundamental_div_mod(pref_budget, pl as int);
                            assert(pref_w as int <= (pl as int) * (pref_w as int))
                                by (nonlinear_arith)
                                requires
                                    1 <= pl as int,
                                    0 <= pref_w,
                            ;
                        }
                        assert(v + pref_w <= 3 * SCALE);
                    }
                    pers[idx] = v + pref_w;
                    proof {
                        lemma_sum_update(old_pers, idx as int, (v + pref_w) as u64, n as int);
                        assert forall|k: int| 0 <= k < n implies #[trigger] pers@[k]
                            <= sum_scores(pers@, n as int) by {
                            lemma_elem_le_sum(pers@, k, n as int);
                        }
                        assert(ints_of(pers@) =~= mass_added(
                            graph,
                            seeded,
                            preferences@.take(pi as int + 1),
                            pref_w as int,
                        ));
                    }
                },
                None => {
                    proof {
                        assert(pi * pref_w <= (pi + 1) * pref_w) by (nonlinear_arith)
                            requires
                                0 <= pi,
                                0 <= pref_w,
                        ;
                        assert(ints_of(pers@) =~= mass_added(
                            graph,
                            seeded,
                            preferences@.take(pi as int + 1),
                            pref_w as int,
                        ));
                    }
                },
            }
            pi = pi + 1;
        }
        proof {
            assert(preferences@.take(preferences@.len() as int) =~= preferences@);
        }
        proof {
            assert(sum_scores(pers@, n as int) <= SCALE) by {
                assert(preferences@.len() * pref_w <= pref_budget) by {
                    lemma_fundamental_div_mod(pref_budget, pl as int);
                    lemma_mul_inequality(preferences@.len() as int, pl as int, pref_w as int);
                }
                assert(pi as int * pref_w <= preferences@.len() * pref_w) by (nonlinear_arith)
                    requires
                        0 <= pi as int <= preferences@.len(),
                        0 <= pref_w,
                ;
            }
        }
    } else {
        let mut ui: usize = 0;
        while ui < n
            invariant
                init <= SCALE,
                n * init <= SCALE,
                0 <= ui <= n,
                pers@.len() == n,
                forall|k: int| 0 <= k < ui ==> pers@[k] == init,
                forall|k: int| ui <= k < n ==> pers@[k] == 0u64,
                sum_scores(pers@, n as int) == ui * init,
            decreases n - ui,
        {
            let ghost old_pers = pers@;
            pers[ui] = init;
            proof {
                lemma_sum_update(old_pers, ui as int, init, n as int);
                assert(ui * init + init == (ui + 1) * init) by (nonlinear_arith);
            }
            ui = ui + 1;
        }
        proof {
            assert(sum_scores(pers@, n as int) <= SCALE);
            assert forall|k: int| 0 <= k < n implies #[trigger] pers@[k] <= sum_scores(
                pers@,
                n as int,
            ) by {
                lemma_elem_le_sum(pers@, k, n as int);
            }
            assert(ints_of(pers@) =~= uniform_scores(n as int));
        }
    }
    let ghost pers_spec = personalization_of(
        graph,
        seeds@,
        preferences@,
        config.preference_weight,
        n as int,
    );
    proof {
        assert(ints_of(pers@) == pers_spec);
    }

    // power iteration
    let mut iter: usize = 0;
    while iter < config.iterations
        invariant
            graph.wf(),
            config.wf(),
            n == graph.node_ids().len(),
            n >= 1,
            scores@.len() == n,
            pers@.len() == n,
            sum_scores(scores@, n as int) <= SCALE,
            sum_scores(pers@, n as int) <= SCALE,
            forall|k: int| 0 <= k < n ==> #[trigger] pers@[k] <= SCALE,
            forall|k: int| 0 <= k < n ==> #[trigger] scores@[k] <= SCALE,
            config.iterations == 0 ==> forall|k: int| 0 <= k < n ==> #[trigger] scores@[k]
                == SCALE as int / n as int,
            iter <= config.iterations,
            pers_spec == ints_of(pers@),
            pagerank_iterated(
                graph,
                pers_spec,
                config.damping,
                config.epsilon,
                ints_of(scores@),
                (config.iterations - iter) as nat,
            ) == pagerank_iterated(
                graph,
                pers_spec,
                config.damping,
                config.epsilon,
                uniform_scores(n as int),
                config.iterations as nat,
            ),
        decreases config.iterations - iter,
    {
        let ghost old_ints = ints_of(scores@);
        proof {
            assert forall|k: int| 0 <= k < n implies #[trigger] scores@[k] <= SCALE by {
                lemma_elem_le_sum(scores@, k, n as int);
            }
        }
        let mut inc: Vec<u64> = Vec::new();
        let mut zi2: usize = 0;
        while zi2 < n
            invariant
                0 <= zi2 <= n,
                inc@.len() == zi2,
                forall|k: int| 0 <= k < zi2 ==> inc@[k] == 0u64,
                sum_scores(inc@, zi2 as int) == 0,
            decreases n - zi2,
        {
            let ghost old_inc0 = inc@;
            inc.push(0);
            proof {
                lemma_sum_same_prefix(old_inc0, inc@, zi2 as int);
            }
            zi2 = zi2 + 1;
        }
        proof {
            assert(ints_of(inc@) =~= zero_scores(n as int));
            assert(old_ints.len() == n as int);
            assert(ints_of(inc@) == inc_after_sources(graph, old_ints, 0));
        }

        let mut s: usize = 0;
        while s < n
            invariant
                graph.wf(),
                n == graph.node_ids().len(),
                0 <= s <= n,
                scores@.len() == n,
                inc@.len() == n,
                sum_scores(scores@, n as int) <= SCALE,
                forall|k: int| 0 <= k < n ==> #[trigger] scores@[k] <= SCALE,
                sum_scores(inc@, n as int) <= sum_scores(scores@, s as int),
                old_ints == ints_of(scores@),
                ints_of(inc@) == inc_after_sources(graph, old_ints, s as int),
            decreases n - s,
        {
            proof {
                lemma_sum_nonneg(scores@, s as int);
            }
            let out_edges = graph.out_edges_indexed(s);
            let m = out_edges.len();
            let d: u64 = if m == 0 {
                1
            } else {
                m as u64
            };
            let cur = scores[s];
            let ghost per_edge = (cur as int) / (d as int);
            proof {
                lemma_div_pos_is_pos(cur as int, d as int);
            }
            let ghost inc_base = sum_scores(inc@, n as int);
            let ghost inc_start = ints_of(inc@);
            proof {
                lemma_sum_nonneg(inc@, n as int);
                lemma_sum_monotone(scores@, s as int + 1, n as int);
                assert(sum_scores(scores@, s as int) + cur <= sum_scores(scores@, s as int + 1));
                assert(m as int * per_edge <= cur as int) by {
                    if m > 0 {
                        lemma_fundamental_div_mod(cur as int, d as int);
                    } else {
                        assert(0int * per_edge == 0) by (nonlinear_arith);
                    }
                }
            }
            let mut ei: usize = 0;
            while ei < m
                invariant
                    graph.wf(),
                    n == graph.node_ids().len(),
                    s < n,
                    scores@.len() == n,
                    inc@.len() == n,
                    0 <= ei <= m,
                    m == out_edges@.len(),
                    (m == 0 && d == 1) || d == m as u64,
                    cur == scores@[s as int],
                    cur <= SCALE,
                    per_edge == (cur as int) / (d as int),
                    0 <= per_edge,
                    0 <= inc_base,
                    forall|k: int| 0 <= k < out_edges@.len() ==> (#[trigger] out_edges@[k]).0
                        < n && out_edges@[k].1 <= SCALE,
                    sum_scores(inc@, n as int) <= inc_base + ei * per_edge,
                    inc_base + cur <= SCALE as int,
                    m as int * per_edge <= cur as int,
                    inc_start.len() == n as int,
                    ints_of(inc@) == inc_after_edges(
                        inc_start,
                        out_edges@.take(ei as int),
                        cur as int,
                        d as int,
                    ),
                decreases m - ei,
            {
                proof {
                    assert(out_edges@.take(ei as int + 1).drop_last() =~= out_edges@.take(
                        ei as int,
                    ));
                    assert(out_edges@.take(ei as int + 1).last() == out_edges@[ei as int]);
                    lemma_inc_edges_len(
                        inc_start,
                        out_edges@.take(ei as int),
                        cur as int,
                        d as int,
                    );
                }
                let (t, w, _kind) = out_edges[ei];
                proof {
                    assert((SCALE as int) * (d as int) >= 1) by (nonlinear_arith)
                        requires
                            d >= 1,
                    ;
                    assert((cur as int) * (w as int) <= (1_000_000int * 1_000_000))
                        by (nonlinear_arith)
                        requires
                            0 <= cur <= 1_000_000,
                            0 <= w <= 1_000_000,
                    ;
                    assert((SCALE as int) * (d as int) <= 1_000_000int * 0xFFFF_FFFF_FFFF_FFFF)
                        by (nonlinear_arith)
                        requires
                            0 <= d <= 0xFFFF_FFFF_FFFF_FFFFu64,
                    ;
                }
                let c128: u128 = (cur as u128) * (w as u128) / ((SCALE as u128) * (d as u128));
                proof {
                    assert((cur as int) * (w as int) <= (cur as int) * (SCALE as int))
                        by (nonlinear_arith)
                        requires
                            0 <= cur,
                            0 <= w <= SCALE,
                    ;
                    lemma_div_is_ordered(
                        (cur as int) * (w as int),
                        (cur as int) * (SCALE as int),
                        (SCALE as int) * (d as int),
                    );
                    assert((cur as int) * (SCALE as int) / ((SCALE as int) * (d as int))
                        == per_edge) by {
                        lemma_div_denominator(
                            (cur as int) * (SCALE as int),
                            SCALE as int,
                            d as int,
                        );
                        assert((cur as int) * (SCALE as int) / (SCALE as int) == cur as int) by {
                            lemma_div_by_multiple(cur as int, SCALE as int);
                        }
                    }
                    assert(c128 <= per_edge);
                }
                let c: u64 = c128 as u64;
                proof {
                    assert(c as int == contribution(cur as int, w as int, d as int));
                }
                let ghost old_inc = inc@;
                proof {
                    lemma_elem_le_sum(inc@, t as int, n as int);
                    lemma_sum_nonneg(inc@, n as int);
                    assert(inc_base + ei * per_edge + per_edge == inc_base + (ei + 1) * per_edge)
                        by (nonlinear_arith);
                    assert((ei + 1) * per_edge <= m * per_edge) by (nonlinear_arith)
                        requires
                            0 <= ei + 1 <= m,
                            0 <= per_edge,
                    ;
                    assert(m as int * per_edge <= cur as int) by {
                        if m > 0 {
                            lemma_fundamental_div_mod(cur as int, d as int);
                        }
                    }
                    assert(sum_scores(scores@, s as int) + cur <= sum_scores(
                        scores@,
                        s as int + 1,
                    ));
                }
                let vt = inc[t];
                proof {
                    assert(ei as int * per_edge <= m as int * per_edge) by (nonlinear_arith)
                        requires
                            0 <= ei as int <= m as int,
                            0 <= per_edge,
                    ;
                    assert(vt + c <= 2 * SCALE);
                }
                inc[t] = vt + c;
                proof {
                    lemma_sum_update(old_inc, t as int, (vt + c) as u64, n as int);
                    assert(ints_of(inc@) =~= inc_after_edges(
                        inc_start,
                        out_edges@.take(ei as int + 1),
                        cur as int,
                        d as int,
                    ));
                }
                ei = ei + 1;
            }
            proof {
                assert(ei as int * per_edge <= m as int * per_edge) by (nonlinear_arith)
                    requires
                        0 <= ei as int <= m as int,
                        0 <= per_edge,
                ;
                assert(m as int * per_edge <= cur as int) by {
                    if m > 0 {
                        lemma_fundamental_div_mod(cur as int, d as int);
                    }
                }
                assert(out_edges@.take(m as int) =~= out_edges@);
                assert(old_ints[s as int] == cur as int);
                assert(ints_of(inc@) == inc_after_sources(graph, old_ints, s as int + 1));
            }
            s = s + 1;
        }

        // combine damped contributions with personalization
        proof {
            assert forall|k: int| 0 <= k < n implies #[trigger] inc@[k] <= SCALE by {
                lemma_elem_le_sum(inc@, k, n as int);
                lemma_sum_nonneg(inc@, n as int);
            }
        }
        let damping = config.damping;
        let undamped = SCALE - damping;
        let ghost next_spec = next_scores(graph, old_ints, pers_spec, config.damping);
        proof {
            lemma_inc_sources_len(graph, old_ints, old_ints.len() as int);
            assert(next_spec.len() == n as int);
        }
        let mut new_scores: Vec<u64> = Vec::new();
        let mut max_diff: u64 = 0;
        let mut ci: usize = 0;
        while ci < n
            invariant
                config.wf(),
                damping == config.damping,
                undamped == SCALE - config.damping,
                n >= 1,
                scores@.len() == n,
                pers@.len() == n,
                inc@.len() == n,
                0 <= ci <= n,
                new_scores@.len() == ci,
                old_ints == ints_of(scores@),
                pers_spec == ints_of(pers@),
                ints_of(inc@) == inc_after_sources(graph, old_ints, old_ints.len() as int),
                next_spec == next_scores(graph, old_ints, pers_spec, config.damping),
                next_spec.len() == n as int,
                ints_of(new_scores@) == next_spec.take(ci as int),
                max_diff as int == max_move(next_spec, old_ints, ci as int),
                forall|k: int| 0 <= k < n ==> #[trigger] inc@[k] <= SCALE,
                forall|k: int| 0 <= k < n ==> #[trigger] pers@[k] <= SCALE,
                sum_scores(inc@, n as int) <= SCALE,
                sum_scores(pers@, n as int) <= SCALE,
                forall|k: int| 0 <= k < ci ==> #[trigger] new_scores@[k] <= SCALE,
                sum_scores(new_scores@, ci as int) <= ((damping as int) * sum_scores(
                    inc@,
                    ci as int,
                )) / (SCALE as int) + ((undamped as int) * sum_scores(pers@, ci as int)) / (
                SCALE as int),
            decreases n - ci,
        {
            proof {
                assert((damping as int) * (inc@[ci as int] as int) <= (damping as int) * (
                SCALE as int)) by (nonlinear_arith)
                    requires
                        0 <= damping,
                        0 <= inc@[ci as int] <= SCALE,
                ;
                lemma_div_is_ordered(
                    (damping as int) * (inc@[ci as int] as int),
                    (damping as int) * (SCALE as int),
                    SCALE as int,
                );
                lemma_div_by_multiple(damping as int, SCALE as int);
                lemma_div_pos_is_pos((damping as int) * (inc@[ci as int] as int), SCALE as int);
                assert((undamped as int) * (pers@[ci as int] as int) <= (undamped as int) * (
                SCALE as int)) by (nonlinear_arith)
                    requires
                        0 <= undamped,
                        0 <= pers@[ci as int] <= SCALE,
                ;
                lemma_div_is_ordered(
                    (undamped as int) * (pers@[ci as int] as int),
                    (undamped as int) * (SCALE as int),
                    SCALE as int,
                );
                lemma_div_by_multiple(undamped as int, SCALE as int);
                lemma_div_pos_is_pos((undamped as int) * (pers@[ci as int] as int), SCALE as int);
            }
            let flow: u64 = ((damping as u128) * (inc[ci] as u128) / (SCALE as u128)) as u64;
            let keep: u64 = ((undamped as u128) * (pers[ci] as u128) / (SCALE as u128)) as u64;
            proof {
                assert(next_spec[ci as int] == (damping as int) * (inc@[ci as int] as int) / (
                SCALE as int) + ((undamped as int) * (pers@[ci as int] as int)) / (SCALE as int));
            }
            let v: u64 = flow + keep;
            let prev = scores[ci];
            let diff = if v >= prev {
                v - prev
            } else {
                prev - v
            };
            if diff > max_diff {
                max_diff = diff;
            }
            let ghost old_new = new_scores@;
            new_scores.push(v);
            proof {
                lemma_sum_same_prefix(old_new, new_scores@, ci as int);
                assert(ints_of(new_scores@) =~= next_spec.take(ci as int + 1));
                // fold the new term into the superadditive bound
                let di = damping as int;
                let ui2 = undamped as int;
                let sc = SCALE as int;
                let a1 = di * sum_scores(inc@, ci as int);
                let b1 = di * (inc@[ci as int] as int);
                let a2 = ui2 * sum_scores(pers@, ci as int);
                let b2 = ui2 * (pers@[ci as int] as int);
                lemma_sum_nonneg(inc@, ci as int);
                lemma_sum_nonneg(pers@, ci as int);
                vstd::arithmetic::mul::lemma_mul_nonnegative(di, sum_scores(inc@, ci as int));
                vstd::arithmetic::mul::lemma_mul_nonnegative(di, inc@[ci as int] as int);
                vstd::arithmetic::mul::lemma_mul_nonnegative(ui2, sum_scores(pers@, ci as int));
                vstd::arithmetic::mul::lemma_mul_nonnegative(ui2, pers@[ci as int] as int);
                lemma_div_superadd(a1, b1, sc);
                lemma_div_superadd(a2, b2, sc);
                lemma_mul_is_distributive_add(
                    di,
                    sum_scores(inc@, ci as int),
                    inc@[ci as int] as int,
                );
                lemma_mul_is_distributive_add(
                    ui2,
                    sum_scores(pers@, ci as int),
                    pers@[ci as int] as int,
                );
            }
            ci = ci + 1;
        }
        proof {
            // the two halves together stay within one
            let di = damping as int;
            let ui2 = undamped as int;
            let sc = SCALE as int;
            lemma_sum_nonneg(inc@, n as int);
            lemma_sum_nonneg(pers@, n as int);
            assert(di * sum_scores(inc@, n as int) <= di * sc) by (nonlinear_arith)
                requires
                    0 <= di,
                    sum_scores(inc@, n as int) <= sc,
                    0 <= sum_scores(inc@, n as int),
            ;
            assert(ui2 * sum_scores(pers@, n as int) <= ui2 * sc) by (nonlinear_arith)
                requires
                    0 <= ui2,
                    sum_scores(pers@, n as int) <= sc,
                    0 <= sum_scores(pers@, n as int),
            ;
            assert(0 <= di * sum_scores(inc@, n as int)) by (nonlinear_arith)
                requires
                    0 <= di,
                    0 <= sum_scores(inc@, n as int),
            ;
            assert(0 <= ui2 * sum_scores(pers@, n as int)) by (nonlinear_arith)
                requires
                    0 <= ui2,
                    0 <= sum_scores(pers@, n as int),
            ;
            lemma_div_is_ordered(di * sum_scores(inc@, n as int), di * sc, sc);
            lemma_div_is_ordered(ui2 * sum_scores(pers@, n as int), ui2 * sc, sc);
            lemma_div_by_multiple(di, sc);
            lemma_div_by_multiple(ui2, sc);
        }
        proof {
            assert(next_spec.take(n as int) =~= next_spec);
            assert(ints_of(new_scores@) == next_spec);
            assert(max_diff as int == max_move(next_spec, old_ints, old_ints.len() as int));
        }
        scores = new_scores;
        proof {
            // one spec pass matches the pass just computed, so the final
            // outcome from here is unchanged
            let ghost fuel = (config.iterations - iter) as nat;
            assert(fuel >= 1);
            assert(pagerank_iterated(
                graph,
                pers_spec,
                config.damping,
                config.epsilon,
                old_ints,
                fuel,
            ) == if max_move(next_spec, old_ints, old_ints.len() as int) < config.epsilon {
                next_spec
            } else {
                pagerank_iterated(
                    graph,
                    pers_spec,
                    config.damping,
                    config.epsilon,
                    next_spec,
                    (fuel - 1) as nat,
                )
            });
        }
        if max_diff < config.epsilon {
            proof {
                assert(pagerank_iterated(
                    graph,
                    pers_spec,
                    config.damping,
                    config.epsilon,
                    ints_of(scores@),
                    0,
                ) == ints_of(scores@));
            }
            iter = config.iterations;
        } else {
            iter = iter + 1;
        }
    }
    proof {
        assert forall|k: int| 0 <= k < n implies #[trigger] scores@[k] <= SCALE by {
            lemma_elem_le_sum(scores@, k, n as int);
            lemma_sum_nonneg(scores@, n as int);
        }
    }

    // pair every node with its final score, in node order
    let mut result: Vec<(i64, u64)> = Vec::new();
    let mut ri: usize = 0;
    while ri < n
        invariant
            graph.wf(),
            n == graph.node_ids().len(),
            scores@.len() == n,
            0 <= ri <= n,
            result@.len() == ri,
            forall|k: int| 0 <= k < ri ==> (#[trigger] result@[k]).0 == graph.node_ids()[k]
                && result@[k].1 == scores@[k],
            total_score(result@) == sum_scores(scores@, ri as int),
            forall|k: int| 0 <= k < n ==> #[trigger] scores@[k] <= SCALE,
            sum_scores(scores@, n as int) <= SCALE,
            config.iterations == 0 ==> forall|k: int| 0 <= k < n ==> #[trigger] scores@[k]
                == SCALE as int / n as int,
        decreases n - ri,
    {
        let id = graph.node_id_at(ri);
        let sc = scores[ri];
        let ghost old_result = result@;
        result.push((id, sc));
        proof {
            assert(result@.drop_last() =~= old_result);
        }
        ri = ri + 1;
    }
    proof {
        assert(iter == config.iterations);
        assert(pagerank_iterated(
            graph,
            pers_spec,
            config.damping,
            config.epsilon,
            ints_of(scores@),
            0,
        ) == ints_of(scores@));
        assert(result@.len() == n as int);
        assert(ints_of(result@.map_values(|p: (i64, u64)| p.1)) =~= ints_of(scores@));
    }
    result
}

/// Look up the score of an item in a score list; zero when absent.
pub fn score_of(scores: &Vec<(i64, u64)>, id: i64) -> (r: u64)
    ensures
        r == score_of_spec(scores@, id),
{
    let mut i: usize = 0;
    proof {
        assert(scores@.skip(0) =~= scores@);
    }
    while i < scores.len()
        invariant
            0 <= i <= scores@.len(),
            forall|k: int| 0 <= k < i ==> (#[trigger] scores@[k]).0 != id,
            score_of_spec(scores@, id) == score_of_spec(scores@.skip(i as int), id),
        decreases scores@.len() - i,
    {
        let (sid, sc) = scores[i];
        proof {
            assert(scores@.skip(i as int)[0] == scores@[i as int]);
            assert(scores@.skip(i as int).drop_first() =~= scores@.skip(i as int + 1));
        }
        if sid == id {
            return sc;
        }
        i = i + 1;
    }
    proof {
        assert(scores@.skip(scores@.len() as int) =~= Seq::<(i64, u64)>::empty());
    }
    0
}

/// A score looked up in a bounded table is bounded.
pub proof fn lemma_score_of_bounded(scores: Seq<(i64, u64)>, id: i64)
    requires
        forall|k: int| 0 <= k < scores.len() ==> (#[trigger] scores[k]).1 <= SCALE,
    ensures
        score_of_spec(scores, id) <= SCALE,
    decreases scores.len(),
{
    if scores.len() > 0 && scores[0].0 != id {
        assert(forall|k: int| 0 <= k < scores.drop_first().len() ==> (#[trigger] scores.drop_first()[k]).1 <= SCALE);
        lemma_score_of_bounded(scores.drop_first(), id);
    }
}

/// The score recorded for an item: the first entry with its identifier,
/// zero when there is none.
pub open spec fn score_of_spec(scores: Seq<(i64, u64)>, id: i64) -> u64
    decreases scores.len(),
{
    if scores.len() == 0 {
        0u64
    } else if scores[0].0 == id {
        scores[0].1
    } else {
        score_of_spec(scores.drop_first(), id)
    }
}

} // verus!
