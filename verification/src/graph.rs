//! The in-memory similarity graph: a directed weighted multigraph over item
//! identifiers.
//!
//! The adjacency structure itself is a petgraph directed graph whose node
//! payload is the item identifier and whose edge payload is a pair of the
//! fixed-point weight and the numeric tag of the edge kind. Beside it the
//! structure keeps the list of item identifiers in node-index order and a map
//! from identifier to node index.
//!
//! Neighbour lookup returns outgoing edges only: relationships are discovered
//! along the direction they were stored. A caller that wants symmetric
//! exploration inserts each edge in both directions.

use vstd::prelude::*;
use std::collections::HashMap;
use petgraph::visit::EdgeRef;
use crate::SCALE;
use crate::fusion::EdgeKind;

verus! {

broadcast use vstd::std_specs::hash::group_hash_axioms;

#[verifier::external_type_specification]
#[verifier::external_body]
#[verifier::reject_recursive_types(N)]
#[verifier::reject_recursive_types(E)]
#[verifier::reject_recursive_types(Ty)]
#[verifier::reject_recursive_types(Ix)]
pub struct ExGraph<N, E, Ty, Ix>(petgraph::graph::Graph<N, E, Ty, Ix>);

#[verifier::external_type_specification]
#[verifier::external_body]
pub struct ExDirected(petgraph::Directed);

/// The node payloads of the adjacency structure, in node-index order.
pub uninterp spec fn graph_nodes(g: petgraph::graph::DiGraph<i64, (u64, u8)>) -> Seq<i64>;

/// The edges of the adjacency structure, in insertion order, each as
/// (source index, target index, weight, kind tag).
pub uninterp spec fn graph_edge_list(g: petgraph::graph::DiGraph<i64, (u64, u8)>) -> Seq<
    (usize, usize, u64, u8),
>;

/// The edges of `edges` whose source is `a`, in order, each reduced to
/// (target index, weight, kind tag).
pub open spec fn edges_from(edges: Seq<(usize, usize, u64, u8)>, a: usize) -> Seq<
    (usize, u64, u8),
>
    decreases edges.len(),
{
    if edges.len() == 0 {
        Seq::<(usize, u64, u8)>::empty()
    } else {
        let rest = edges_from(edges.drop_last(), a);
        let e = edges.last();
        if e.0 == a {
            rest.push((e.1, e.2, e.3))
        } else {
            rest
        }
    }
}

/// Every entry of `edges_from` comes from an edge of the list with source `a`.
pub proof fn lemma_edges_from_member(edges: Seq<(usize, usize, u64, u8)>, a: usize, k: int)
    requires
        0 <= k < edges_from(edges, a).len(),
    ensures
        exists|j: int| 0 <= j < edges.len() && #[trigger] edges[j] == (
            a,
            edges_from(edges, a)[k].0,
            edges_from(edges, a)[k].1,
            edges_from(edges, a)[k].2,
        ),
    decreases edges.len(),
{
    let out = edges_from(edges, a);
    let rest = edges_from(edges.drop_last(), a);
    if k < rest.len() {
        lemma_edges_from_member(edges.drop_last(), a, k);
        let j = choose|j: int| 0 <= j < edges.drop_last().len() && #[trigger] edges.drop_last()[j]
            == (a, rest[k].0, rest[k].1, rest[k].2);
        assert(edges[j] == (a, out[k].0, out[k].1, out[k].2));
    } else {
        let e = edges.last();
        let j = edges.len() - 1;
        assert(edges[j] == (a, out[k].0, out[k].1, out[k].2));
    }
}

/// A node no stored edge leaves has no outgoing edges.
pub proof fn lemma_edges_from_absent(edges: Seq<(usize, usize, u64, u8)>, a: usize)
    requires
        forall|k: int| 0 <= k < edges.len() ==> (#[trigger] edges[k]).0 != a,
    ensures
        edges_from(edges, a) == Seq::<(usize, u64, u8)>::empty(),
    decreases edges.len(),
{
    if edges.len() > 0 {
        assert(forall|k: int| 0 <= k < edges.drop_last().len() ==> (
        #[trigger] edges.drop_last()[k]).0 != a);
        lemma_edges_from_absent(edges.drop_last(), a);
    }
}

/// The outgoing edges of node `a` as petgraph's edge iterator yields them:
/// the edges whose source is `a`, most recently inserted first, each as
/// (target index, weight, kind tag).
pub open spec fn out_edges_of(edges: Seq<(usize, usize, u64, u8)>, a: usize) -> Seq<
    (usize, u64, u8),
> {
    edges_from(edges, a).reverse()
}

/// Relies on petgraph's Graph::new: an empty directed graph.
#[verifier::external_body]
fn pg_new() -> (g: petgraph::graph::DiGraph<i64, (u64, u8)>)
    ensures
        graph_nodes(g) == Seq::<i64>::empty(),
        graph_edge_list(g) == Seq::<(usize, usize, u64, u8)>::empty(),
{
    petgraph::graph::DiGraph::new()
}

/// Relies on petgraph's Graph::add_node: appends a node and returns its
/// index, which is the previous node count. Panics only at the index-type
/// capacity, which the precondition rules out.
#[verifier::external_body]
fn pg_add_node(g: &mut petgraph::graph::DiGraph<i64, (u64, u8)>, w: i64) -> (idx: usize)
    requires
        graph_nodes(*old(g)).len() < 0xFFFF_FFFFusize,
    ensures
        graph_nodes(*final(g)) == graph_nodes(*old(g)).push(w),
        graph_edge_list(*final(g)) == graph_edge_list(*old(g)),
        idx == graph_nodes(*old(g)).len(),
{
    g.add_node(w).index()
}

/// Relies on petgraph's Graph::add_edge: appends a directed edge between two
/// existing nodes. Panics on an out-of-bounds node index or at the
/// index-type capacity, which the preconditions rule out.
#[verifier::external_body]
fn pg_add_edge(
    g: &mut petgraph::graph::DiGraph<i64, (u64, u8)>,
    a: usize,
    b: usize,
    w: u64,
    k: u8,
)
    requires
        a < graph_nodes(*old(g)).len(),
        b < graph_nodes(*old(g)).len(),
        graph_edge_list(*old(g)).len() < 0xFFFF_FFFFusize,
    ensures
        graph_nodes(*final(g)) == graph_nodes(*old(g)),
        graph_edge_list(*final(g)) == graph_edge_list(*old(g)).push((a, b, w, k)),
{
    g.add_edge(
        petgraph::graph::NodeIndex::new(a),
        petgraph::graph::NodeIndex::new(b),
        (w, k),
    );
}

/// Relies on petgraph's Graph::node_count: the number of nodes.
#[verifier::external_body]
fn pg_node_count(g: &petgraph::graph::DiGraph<i64, (u64, u8)>) -> (n: usize)
    ensures
        n == graph_nodes(*g).len(),
{
    g.node_count()
}

/// Relies on petgraph's Graph::edges: the outgoing edges of a node, most
/// recently added first; empty when the node does not exist. The index must
/// fit the graph's index type, which the constructor would otherwise
/// silently truncate.
#[verifier::external_body]
fn pg_out_edges(g: &petgraph::graph::DiGraph<i64, (u64, u8)>, a: usize) -> (r: Vec<
    (usize, u64, u8),
>)
    requires
        a <= 0xFFFF_FFFFusize,
    ensures
        r@ == out_edges_of(graph_edge_list(*g), a),
{
    g.edges(petgraph::graph::NodeIndex::new(a)).map(
        |e| (e.target().index(), e.weight().0, e.weight().1),
    ).collect()
}

/// The in-memory similarity graph.
pub struct BookGraph {
    pub graph: petgraph::graph::DiGraph<i64, (u64, u8)>,
    pub ids: Vec<i64>,
    pub id_to_node: HashMap<i64, usize>,
}

impl BookGraph {
    /// Well-formed: the identifier list mirrors the node payloads, the map
    /// is exactly the inverse of the list, identifiers are unique, and every
    /// stored edge joins two distinct valid node indices with a weight in
    /// range and a known kind tag.
    pub open spec fn wf(&self) -> bool {
        &&& self.ids@ == graph_nodes(self.graph)
        &&& self.ids@.len() <= 0xFFFF_FFFFusize
        &&& forall|id: i64| self.id_to_node@.contains_key(id) ==> {
            &&& #[trigger] self.id_to_node@[id] < self.ids@.len()
            &&& self.ids@[self.id_to_node@[id] as int] == id
        }
        &&& forall|i: int| 0 <= i < self.ids@.len() ==> self.id_to_node@.contains_key(
            #[trigger] self.ids@[i],
        )
        &&& forall|i: int, j: int| 0 <= i < j < self.ids@.len() ==> #[trigger] self.ids@[i]
            != #[trigger] self.ids@[j]
        &&& forall|k: int| 0 <= k < graph_edge_list(self.graph).len() ==> {
            let e = #[trigger] graph_edge_list(self.graph)[k];
            &&& e.0 < self.ids@.len()
            &&& e.1 < self.ids@.len()
            &&& e.0 != e.1
            &&& e.2 <= SCALE
            &&& e.3 <= 2
        }
    }

    /// The item identifiers that have a node, in node-index order.
    pub open spec fn node_ids(&self) -> Seq<i64> {
        self.ids@
    }

    /// One stored edge seen at the identifier level.
    pub open spec fn edge_view(&self, e: (usize, usize, u64, u8)) -> (i64, i64, u64, EdgeKind) {
        (self.ids@[e.0 as int], self.ids@[e.1 as int], e.2, EdgeKind::from_tag_spec(e.3))
    }

    /// The stored edges in insertion order, at the identifier level.
    pub open spec fn edges(&self) -> Seq<(i64, i64, u64, EdgeKind)> {
        graph_edge_list(self.graph).map_values(|e: (usize, usize, u64, u8)| self.edge_view(e))
    }

    /// One outgoing edge seen at the identifier level.
    pub open spec fn neighbor_view(&self, e: (usize, u64, u8)) -> (i64, u64, EdgeKind) {
        (self.ids@[e.0 as int], e.1, EdgeKind::from_tag_spec(e.2))
    }

    /// What `neighbors` returns: the outgoing edges of the item's node, most
    /// recently inserted first; empty when the item has no node.
    pub open spec fn neighbors_spec(&self, book_id: i64) -> Seq<(i64, u64, EdgeKind)> {
        if self.id_to_node@.contains_key(book_id) {
            out_edges_of(graph_edge_list(self.graph), self.id_to_node@[book_id]).map_values(
                |e: (usize, u64, u8)| self.neighbor_view(e),
            )
        } else {
            Seq::<(i64, u64, EdgeKind)>::empty()
        }
    }

    /// Create an empty graph.
    pub fn new() -> (r: BookGraph)
        ensures
            r.wf(),
            r.node_ids() == Seq::<i64>::empty(),
            r.edges() == Seq::<(i64, i64, u64, EdgeKind)>::empty(),
    {
        let r = BookGraph { graph: pg_new(), ids: Vec::new(), id_to_node: HashMap::new() };
        assert(r.edges() =~= Seq::<(i64, i64, u64, EdgeKind)>::empty());
        r
    }

    /// The node index of an item, if it has one.
    pub fn index_of(&self, book_id: i64) -> (r: Option<usize>)
        requires
            self.wf(),
        ensures
            match r {
                Some(i) => self.id_to_node@.contains_key(book_id) && i
                    == self.id_to_node@[book_id] && i < self.node_ids().len()
                    && self.node_ids()[i as int] == book_id,
                None => !self.id_to_node@.contains_key(book_id),
            },
    {
        match self.id_to_node.get(&book_id) {
            Some(i) => Some(*i),
            None => None,
        }
    }

    /// The identifier at a node index.
    pub fn node_id_at(&self, i: usize) -> (r: i64)
        requires
            self.wf(),
            i < self.node_ids().len(),
        ensures
            r == self.node_ids()[i as int],
    {
        self.ids[i]
    }

    /// The number of nodes.
    pub fn node_count(&self) -> (n: usize)
        requires
            self.wf(),
        ensures
            n == self.node_ids().len(),
    {
        pg_node_count(&self.graph)
    }

    /// Find the node for an item, creating it if absent; returns its index.
    fn get_or_create_node(&mut self, book_id: i64) -> (idx: usize)
        requires
            old(self).wf(),
            old(self).node_ids().len() < 0xFFFF_FFFFusize,
        ensures
            final(self).wf(),
            final(self).node_ids() == if old(self).node_ids().contains(book_id) {
                old(self).node_ids()
            } else {
                old(self).node_ids().push(book_id)
            },
            graph_edge_list(final(self).graph) == graph_edge_list(old(self).graph),
            idx < final(self).node_ids().len() && final(self).node_ids()[idx as int] == book_id,
    {
        let found: Option<usize> = match self.id_to_node.get(&book_id) {
            Some(i) => Some(*i),
            None => None,
        };
        match found {
            Some(i) => {
                assert(old(self).node_ids().contains(book_id)) by {
                    assert(old(self).node_ids()[old(self).id_to_node@[book_id] as int]
                        == book_id);
                }
                i
            },
            None => {
                let idx = pg_add_node(&mut self.graph, book_id);
                self.ids.push(book_id);
                self.id_to_node.insert(book_id, idx);
                proof {
                    assert(!old(self).node_ids().contains(book_id)) by {
                        if old(self).node_ids().contains(book_id) {
                            let w = choose|w: int|
                                0 <= w < old(self).node_ids().len() && old(self).node_ids()[w]
                                    == book_id;
                            assert(old(self).id_to_node@.contains_key(book_id));
                        }
                    }
                }
                idx
            },
        }
    }

    /// Add a directed edge between two items, creating nodes as needed.
    ///
    /// Parallel edges between the same pair are kept by design: the graph is
    /// a multigraph, deduplication belongs to the fusion step upstream.
    pub fn add_edge(&mut self, source: i64, target: i64, weight: u64, kind: EdgeKind)
        requires
            old(self).wf(),
            weight <= SCALE,
            source != target,
            kind.tag_spec() <= 2,
            old(self).node_ids().len() + 2 <= 0xFFFF_FFFFusize,
            old(self).edges().len() < 0xFFFF_FFFFusize,
        ensures
            final(self).wf(),
            final(self).node_ids() == nodes_after_add(old(self).node_ids(), source, target),
            final(self).edges() == old(self).edges().push((source, target, weight, kind)),
            final(self).neighbors_spec(source) == seq![(target, weight, kind)] + old(
                self,
            ).neighbors_spec(source),
            forall|id: i64| id != source ==> #[trigger] final(self).neighbors_spec(id) == old(
                self,
            ).neighbors_spec(id),
    {
        let ghost old_edges = self.edges();
        let si = self.get_or_create_node(source);
        let ti = self.get_or_create_node(target);
        assert(si != ti) by {
            assert(self.node_ids()[si as int] == source && self.node_ids()[ti as int] == target);
        }
        proof {
            // the source keeps its index, new nodes only extend the list
            if old(self).id_to_node@.contains_key(source) {
                assert(old(self).node_ids()[old(self).id_to_node@[source] as int] == source);
                assert(si == old(self).id_to_node@[source]);
            } else {
                assert(si >= old(self).node_ids().len()) by {
                    if si < old(self).node_ids().len() {
                        assert(old(self).node_ids()[si as int] == source);
                        assert(old(self).id_to_node@.contains_key(source));
                    }
                }
            }
        }
        pg_add_edge(&mut self.graph, si, ti, weight, kind.as_tag());
        proof {
            crate::fusion::lemma_edge_kind_tag_round_trip(kind);
            assert(self.edges() =~= old_edges.push((source, target, weight, kind)));

            let old_list = graph_edge_list(old(self).graph);
            let new_list = graph_edge_list(self.graph);
            let tag = kind.tag_spec();
            assert(new_list == old_list.push((si, ti, weight, tag)));
            assert(new_list.drop_last() =~= old_list);
            assert(edges_from(new_list, si) =~= edges_from(old_list, si).push(
                (ti, weight, tag),
            ));
            let old_out = edges_from(old_list, si);
            assert(out_edges_of(new_list, si) =~= seq![(ti, weight, tag)] + old_out.reverse());

            // the final map still sends the source to its index
            assert(self.ids@[si as int] == source);
            assert(self.id_to_node@.contains_key(source));
            assert(self.id_to_node@[source] == si) by {
                assert(self.ids@[self.id_to_node@[source] as int] == source);
                assert(self.ids@[si as int] == source);
            }

            // every old outgoing edge keeps its identifier-level view
            assert forall|k: int| 0 <= k < old_out.len() implies (#[trigger] old_out[k]).0
                < old(self).node_ids().len() by {
                lemma_edges_from_member(old_list, si, k);
            }

            if old(self).id_to_node@.contains_key(source) {
                let old_spec = old(self).neighbors_spec(source);
                assert(old_spec.len() == old_out.len());
                assert forall|k: int| 0 <= k < self.neighbors_spec(source).len()
                    implies #[trigger] self.neighbors_spec(source)[k] == (
                seq![(target, weight, kind)] + old_spec)[k] by {
                    if k == 0 {
                        assert(self.ids@[ti as int] == target);
                    } else {
                        let e = old_out.reverse()[k - 1];
                        assert(e == old_out[old_out.len() - k]);
                        assert(self.ids@[e.0 as int] == old(self).ids@[e.0 as int]);
                    }
                }
                assert(self.neighbors_spec(source) =~= seq![(target, weight, kind)]
                    + old(self).neighbors_spec(source));
            } else {
                assert forall|k: int| 0 <= k < old_list.len()
                    implies (#[trigger] old_list[k]).0 != si by {
                    assert(old_list[k].0 < old(self).node_ids().len());
                }
                lemma_edges_from_absent(old_list, si);
                assert(old(self).neighbors_spec(source) =~= Seq::<(i64, u64, EdgeKind)>::empty());
                assert(self.neighbors_spec(source) =~= seq![(target, weight, kind)]
                    + old(self).neighbors_spec(source));
            }

            // every other item's neighbour list is untouched
            assert forall|id: i64| id != source implies #[trigger] self.neighbors_spec(id)
                == old(self).neighbors_spec(id) by {
                if old(self).id_to_node@.contains_key(id) {
                    let idx = old(self).id_to_node@[id];
                    assert(old(self).ids@[idx as int] == id);
                    assert(self.ids@[idx as int] == id);
                    assert(self.id_to_node@.contains_key(id));
                    assert(self.id_to_node@[id] == idx) by {
                        assert(self.ids@[self.id_to_node@[id] as int] == id);
                    }
                    assert(si != idx) by {
                        assert(self.ids@[si as int] == source);
                    }
                    assert(edges_from(new_list, idx) =~= edges_from(old_list, idx));
                    let old_out = edges_from(old_list, idx);
                    assert forall|t: int| 0 <= t < old_out.len() implies (
                    #[trigger] old_out[t]).0 < old(self).ids@.len() by {
                        lemma_edges_from_member(old_list, idx, t);
                    }
                    assert(self.neighbors_spec(id) =~= old(self).neighbors_spec(id));
                } else {
                    assert(old(self).neighbors_spec(id) =~= Seq::<(i64, u64, EdgeKind)>::empty());
                    if self.id_to_node@.contains_key(id) {
                        let idx = self.id_to_node@[id];
                        assert(self.ids@[idx as int] == id);
                        assert(idx >= old(self).ids@.len()) by {
                            if idx < old(self).ids@.len() {
                                assert(old(self).ids@[idx as int] == id);
                                assert(old(self).id_to_node@.contains_key(id));
                            }
                        }
                        assert(si != idx) by {
                            assert(self.ids@[si as int] == source);
                        }
                        assert forall|kk: int| 0 <= kk < new_list.len() implies (
                        #[trigger] new_list[kk]).0 != idx by {
                            if kk < old_list.len() {
                                assert(old_list[kk].0 < old(self).ids@.len());
                            }
                        }
                        lemma_edges_from_absent(new_list, idx);
                        assert(self.neighbors_spec(id) =~= Seq::<(i64, u64, EdgeKind)>::empty());
                    }
                    assert(self.neighbors_spec(id) =~= old(self).neighbors_spec(id));
                }
            }
        }
    }

    /// The outgoing edges of an item with their weights and kinds, most
    /// recently inserted first; empty when the item has no node.
    pub fn neighbors(&self, book_id: i64) -> (r: Vec<(i64, u64, EdgeKind)>)
        requires
            self.wf(),
        ensures
            r@ == self.neighbors_spec(book_id),
            forall|j: int| 0 <= j < r@.len() ==> (#[trigger] r@[j]).1 <= SCALE,
    {
        let idx = match self.index_of(book_id) {
            Some(i) => i,
            None => {
                let r: Vec<(i64, u64, EdgeKind)> = Vec::new();
                assert(r@ =~= self.neighbors_spec(book_id));
                return r;
            },
        };
        let raw = self.out_edges_indexed(idx);
        let mut r: Vec<(i64, u64, EdgeKind)> = Vec::new();
        let ghost spec_out = out_edges_of(graph_edge_list(self.graph), idx);
        let mut j: usize = 0;
        while j < raw.len()
            invariant
                self.wf(),
                raw@ == spec_out,
                spec_out == out_edges_of(graph_edge_list(self.graph), idx),
                forall|k: int| 0 <= k < spec_out.len() ==> (#[trigger] spec_out[k]).0
                    < self.ids@.len() && spec_out[k].1 <= SCALE,
                0 <= j <= raw@.len(),
                r@ == spec_out.map_values(|e: (usize, u64, u8)| self.neighbor_view(e)).take(
                    j as int,
                ),
            decreases raw@.len() - j,
        {
            let (t, w, k) = raw[j];
            r.push((self.ids[t], w, EdgeKind::from_tag(k)));
            assert(r@ =~= spec_out.map_values(|e: (usize, u64, u8)| self.neighbor_view(e)).take(
                j as int + 1,
            ));
            j = j + 1;
        }
        assert(r@ =~= self.neighbors_spec(book_id));
        r
    }

    /// The outgoing edges of a node index, most recently inserted first,
    /// each as (target index, weight, kind tag). Targets are valid indices
    /// and weights are in range.
    pub fn out_edges_indexed(&self, i: usize) -> (r: Vec<(usize, u64, u8)>)
        requires
            self.wf(),
            i <= 0xFFFF_FFFFusize,
        ensures
            r@ == out_edges_of(graph_edge_list(self.graph), i),
            forall|k: int| 0 <= k < r@.len() ==> (#[trigger] r@[k]).0 < self.node_ids().len()
                && r@[k].1 <= SCALE,
    {
        let r = pg_out_edges(&self.graph, i);
        proof {
            let edges = graph_edge_list(self.graph);
            let kept = edges_from(edges, i);
            assert forall|k: int| 0 <= k < r@.len() implies (#[trigger] r@[k]).0
                < self.node_ids().len() && r@[k].1 <= SCALE by {
                let m = kept.len() - 1 - k;
                assert(r@[k] == kept[m]);
                lemma_edges_from_member(edges, i, m);
                let j = choose|j: int| 0 <= j < edges.len() && #[trigger] edges[j] == (
                    i,
                    kept[m].0,
                    kept[m].1,
                    kept[m].2,
                );
            }
        }
        r
    }
}

impl BookGraph {
    /// Whether a persisted edge row takes part in a bulk build: at or above
    /// the minimum weight, in range, between two distinct items, of a real
    /// kind.
    pub open spec fn accepted_row(row: (i64, i64, u64, EdgeKind), min_weight: u64) -> bool {
        &&& row.2 >= min_weight
        &&& row.2 <= SCALE
        &&& row.0 != row.1
        &&& row.3.tag_spec() <= 2
    }

    /// The node list a bulk build produces from a row list.
    pub open spec fn bulk_nodes(rows: Seq<(i64, i64, u64, EdgeKind)>, min_weight: u64) -> Seq<
        i64,
    >
        decreases rows.len(),
    {
        if rows.len() == 0 {
            Seq::<i64>::empty()
        } else {
            let prev = Self::bulk_nodes(rows.drop_last(), min_weight);
            let row = rows.last();
            if Self::accepted_row(row, min_weight) {
                nodes_after_add(prev, row.0, row.1)
            } else {
                prev
            }
        }
    }

    /// The edge list a bulk build produces from a row list: the accepted
    /// rows, in order.
    pub open spec fn bulk_edges(rows: Seq<(i64, i64, u64, EdgeKind)>, min_weight: u64) -> Seq<
        (i64, i64, u64, EdgeKind),
    >
        decreases rows.len(),
    {
        if rows.len() == 0 {
            Seq::<(i64, i64, u64, EdgeKind)>::empty()
        } else {
            let prev = Self::bulk_edges(rows.drop_last(), min_weight);
            let row = rows.last();
            if Self::accepted_row(row, min_weight) {
                prev.push(row)
            } else {
                prev
            }
        }
    }

    /// Build a graph from a snapshot of persisted edge rows, keeping the
    /// rows at or above `min_weight`: a monotonic bulk insert that creates
    /// nodes for both endpoints of each accepted row. Rows with an
    /// out-of-range weight, equal endpoints or no real kind are skipped.
    pub fn from_edges(rows: &Vec<(i64, i64, u64, EdgeKind)>, min_weight: u64) -> (r: BookGraph)
        requires
            rows@.len() <= 1_000_000_000usize,
        ensures
            r.wf(),
            r.node_ids() == Self::bulk_nodes(rows@, min_weight),
            r.edges() == Self::bulk_edges(rows@, min_weight),
    {
        let mut g = BookGraph::new();
        let mut i: usize = 0;
        while i < rows.len()
            invariant
                rows@.len() <= 1_000_000_000usize,
                0 <= i <= rows@.len(),
                g.wf(),
                g.node_ids() == Self::bulk_nodes(rows@.take(i as int), min_weight),
                g.edges() == Self::bulk_edges(rows@.take(i as int), min_weight),
                g.node_ids().len() <= 2 * i,
                g.edges().len() <= i,
            decreases rows@.len() - i,
        {
            let (s, t, w, kind) = rows[i];
            let tag = kind.as_tag();
            if w >= min_weight && w <= SCALE && s != t && tag <= 2 {
                g.add_edge(s, t, w, kind);
            }
            proof {
                assert(rows@.take(i as int + 1).drop_last() =~= rows@.take(i as int));
                assert(rows@.take(i as int + 1).last() == rows@[i as int]);
            }
            i = i + 1;
        }
        proof {
            assert(rows@.take(rows@.len() as int) =~= rows@);
        }
        g
    }
}

/// The node list after ensuring two items have nodes: each is appended if
/// absent, the source first.
pub open spec fn nodes_after_add(nodes: Seq<i64>, s: i64, t: i64) -> Seq<i64> {
    let with_s = if nodes.contains(s) {
        nodes
    } else {
        nodes.push(s)
    };
    if with_s.contains(t) {
        with_s
    } else {
        with_s.push(t)
    }
}

} // verus!
