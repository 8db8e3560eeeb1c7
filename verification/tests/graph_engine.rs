//! Tests for the similarity graph, traversal, PageRank, fusion and the
//! diversity re-ranker.

use epubgraph::catalog::Book;
use epubgraph::fusion::{compute_all_edge_weights, compute_edge_weight, EdgeKind};
use epubgraph::graph::BookGraph;
use epubgraph::mmr::maximal_marginal_relevance;
use epubgraph::pagerank::{personalized_pagerank, PageRankConfig};
use epubgraph::recommend::{generate_recommendations, UniformSimilarity};
use epubgraph::traverse::{multi_hop_traversal, TraversalCandidate, TraversalConfig};
use epubgraph::SCALE;

fn book(id: i64, author: Option<&str>, series: Option<&str>, series_index: Option<i64>) -> Book {
    Book {
        id,
        path: format!("/books/{}.epub", id),
        cover_path: None,
        title: format!("Book {}", id),
        sort_title: None,
        author: author.map(|a| a.to_string()),
        author_sort: None,
        series: series.map(|s| s.to_string()),
        series_index,
        description: None,
        language: None,
        publisher: None,
        publish_date: None,
        isbn: None,
        file_size: 0,
        file_hash: None,
        calibre_id: None,
        source: "scan".to_string(),
        date_added: 0,
        date_modified: 0,
        date_indexed: None,
        embedding_status: "pending".to_string(),
        embedding_model: None,
        rating: None,
        read_status: None,
    }
}

#[test]
fn test_graph_operations() {
    let mut graph = BookGraph::new();
    graph.add_edge(1, 2, 800_000, EdgeKind::Content);
    graph.add_edge(1, 3, 600_000, EdgeKind::Author);
    graph.add_edge(2, 3, 700_000, EdgeKind::Series);

    assert_eq!(graph.node_count(), 3);

    let neighbors = graph.neighbors(1);
    assert_eq!(neighbors.len(), 2);
}

#[test]
fn test_graph_neighbors_reflect_edges() {
    let mut graph = BookGraph::new();
    graph.add_edge(10, 20, 900_000, EdgeKind::Content);
    let neighbors = graph.neighbors(10);
    assert_eq!(neighbors.len(), 1);
    assert_eq!(neighbors[0].0, 20);
    assert_eq!(neighbors[0].1, 900_000);
    assert!(matches!(neighbors[0].2, EdgeKind::Content));
    // edges are directed: nothing goes out of the target
    assert_eq!(graph.neighbors(20).len(), 0);
    // an unknown item has no neighbours
    assert_eq!(graph.neighbors(99).len(), 0);
}

#[test]
fn test_graph_from_edges_filters_weight() {
    let rows = vec![
        (1i64, 2i64, 900_000u64, EdgeKind::Content),
        (2i64, 3i64, 100_000u64, EdgeKind::Content),
        (3i64, 3i64, 900_000u64, EdgeKind::Content),
    ];
    let graph = BookGraph::from_edges(&rows, 300_000);
    // the light edge and the self loop are skipped
    assert_eq!(graph.node_count(), 2);
    assert_eq!(graph.neighbors(1).len(), 1);
    assert_eq!(graph.neighbors(2).len(), 0);
}

#[test]
fn test_multi_hop_traversal() {
    let mut graph = BookGraph::new();
    graph.add_edge(1, 2, 900_000, EdgeKind::Content);
    graph.add_edge(2, 3, 800_000, EdgeKind::Content);
    graph.add_edge(3, 4, 700_000, EdgeKind::Content);

    let config = TraversalConfig::default();
    let candidates = multi_hop_traversal(&graph, &vec![1], &config);

    assert!(candidates.iter().any(|c| c.book_id == 2));
    assert!(candidates.iter().any(|c| c.book_id == 3));
}

#[test]
fn test_traversal_end_to_end_scenario() {
    let mut graph = BookGraph::new();
    graph.add_edge(1, 2, 900_000, EdgeKind::Content);
    graph.add_edge(2, 3, 800_000, EdgeKind::Content);
    graph.add_edge(3, 4, 700_000, EdgeKind::Content);

    let config = TraversalConfig::default();
    let candidates = multi_hop_traversal(&graph, &vec![1], &config);

    let score_of = |id: i64| {
        candidates.iter().find(|c| c.book_id == id).map(|c| c.score).unwrap()
    };
    // all three hops are reached with the default three-hop configuration
    let s2 = score_of(2);
    let s3 = score_of(3);
    let s4 = score_of(4);
    // scores strictly decrease along the path
    assert!(s2 > s3);
    assert!(s3 > s4);
    // the seed itself never appears
    assert!(!candidates.iter().any(|c| c.book_id == 1));
    // paths record the walk
    let c4 = candidates.iter().find(|c| c.book_id == 4).unwrap();
    assert_eq!(c4.path, vec![1, 2, 3, 4]);
    assert_eq!(c4.edge_types.len(), 3);
}

#[test]
fn test_traversal_respects_thresholds_and_seeds() {
    let mut graph = BookGraph::new();
    // too light for the first hop's threshold of one half
    graph.add_edge(1, 2, 400_000, EdgeKind::Content);
    graph.add_edge(1, 3, 600_000, EdgeKind::Content);
    // a cycle back to the seed
    graph.add_edge(3, 1, 900_000, EdgeKind::Content);

    let config = TraversalConfig::default();
    let candidates = multi_hop_traversal(&graph, &vec![1], &config);
    assert!(!candidates.iter().any(|c| c.book_id == 2));
    assert!(candidates.iter().any(|c| c.book_id == 3));
    assert!(!candidates.iter().any(|c| c.book_id == 1));
}

#[test]
fn test_mmr_diversity() {
    let candidates = vec![
        TraversalCandidate { book_id: 1, score: 900_000, path: vec![], edge_types: vec![] },
        TraversalCandidate { book_id: 2, score: 850_000, path: vec![], edge_types: vec![] },
        TraversalCandidate { book_id: 3, score: 800_000, path: vec![], edge_types: vec![] },
    ];

    let sim = UniformSimilarity { value: 500_000 };
    let result = maximal_marginal_relevance(candidates, &sim, 700_000, 2);
    assert_eq!(result.len(), 2);
}

#[test]
fn test_mmr_top_one_is_most_relevant() {
    let candidates = vec![
        TraversalCandidate { book_id: 7, score: 400_000, path: vec![], edge_types: vec![] },
        TraversalCandidate { book_id: 8, score: 900_000, path: vec![], edge_types: vec![] },
        TraversalCandidate { book_id: 9, score: 600_000, path: vec![], edge_types: vec![] },
    ];
    // whatever the trade-off, the first pick is the highest-relevance one
    for lambda in [100_000u64, 300_000, 700_000, 1_000_000] {
        let sim = UniformSimilarity { value: 500_000 };
        let result = maximal_marginal_relevance(
            vec![
                TraversalCandidate {
                    book_id: candidates[0].book_id,
                    score: candidates[0].score,
                    path: vec![],
                    edge_types: vec![],
                },
                TraversalCandidate {
                    book_id: candidates[1].book_id,
                    score: candidates[1].score,
                    path: vec![],
                    edge_types: vec![],
                },
                TraversalCandidate {
                    book_id: candidates[2].book_id,
                    score: candidates[2].score,
                    path: vec![],
                    edge_types: vec![],
                },
            ],
            &sim,
            lambda,
            1,
        );
        assert_eq!(result.len(), 1);
        assert_eq!(result[0].book_id, 8);
    }
}

#[test]
fn test_mmr_top_k_at_least_len_returns_all() {
    let candidates = vec![
        TraversalCandidate { book_id: 1, score: 900_000, path: vec![], edge_types: vec![] },
        TraversalCandidate { book_id: 2, score: 850_000, path: vec![], edge_types: vec![] },
    ];
    let sim = UniformSimilarity { value: 0 };
    let result = maximal_marginal_relevance(candidates, &sim, 700_000, 10);
    assert_eq!(result.len(), 2);
    let ids: Vec<i64> = result.iter().map(|c| c.book_id).collect();
    assert!(ids.contains(&1) && ids.contains(&2));
}

#[test]
fn test_pagerank_ring_converges_to_equal_scores() {
    let mut graph = BookGraph::new();
    // a symmetric ring of four nodes, full-weight edges both ways
    let ring = [(1i64, 2i64), (2, 3), (3, 4), (4, 1)];
    for (a, b) in ring {
        graph.add_edge(a, b, SCALE, EdgeKind::Content);
        graph.add_edge(b, a, SCALE, EdgeKind::Content);
    }
    let config = PageRankConfig::default();
    // no seeds and no preferences: uniform personalization
    let scores = personalized_pagerank(&graph, &vec![], &vec![], &config);
    assert_eq!(scores.len(), 4);
    let first = scores[0].1;
    for (_, s) in &scores {
        assert_eq!(*s, first);
    }
    // bounded per node and in total
    let total: u64 = scores.iter().map(|p| p.1).sum();
    assert!(total <= SCALE);
    for (_, s) in &scores {
        assert!(*s <= SCALE);
    }
}

#[test]
fn test_pagerank_empty_graph() {
    let graph = BookGraph::new();
    let config = PageRankConfig::default();
    let scores = personalized_pagerank(&graph, &vec![1], &vec![], &config);
    assert_eq!(scores.len(), 0);
}

#[test]
fn test_pagerank_seed_bias() {
    let mut graph = BookGraph::new();
    graph.add_edge(1, 2, SCALE, EdgeKind::Content);
    graph.add_edge(2, 1, SCALE, EdgeKind::Content);
    graph.add_edge(3, 1, SCALE, EdgeKind::Content);
    let config = PageRankConfig::default();
    let scores = personalized_pagerank(&graph, &vec![1], &vec![], &config);
    let get = |id: i64| scores.iter().find(|p| p.0 == id).map(|p| p.1).unwrap();
    // the seed and its neighbourhood outscore the periphery
    assert!(get(1) > get(3));
}

#[test]
fn test_edge_fusion_author_only() {
    let a = book(1, Some("Jane Austen"), Some("Alpha"), Some(1_000_000));
    let b = book(2, Some("Jane Austen"), Some("Beta"), Some(2_000_000));
    let edges = compute_all_edge_weights(&a, &b, None);
    assert_eq!(edges.len(), 1);
    assert_eq!(edges[0].0, 850_000);
    assert!(matches!(edges[0].1, EdgeKind::Author));
}

#[test]
fn test_edge_fusion_no_signals() {
    let a = book(1, Some("Jane Austen"), None, None);
    let b = book(2, Some("Leo Tolstoy"), None, None);
    let edges = compute_all_edge_weights(&a, &b, None);
    assert!(edges.is_empty());
    let (w, kind) = compute_edge_weight(&a, &b, None);
    assert_eq!(w, 0);
    assert!(matches!(kind, EdgeKind::Unrelated));
}

#[test]
fn test_edge_fusion_series_adjacency() {
    let a = book(1, None, Some("Saga"), Some(1_000_000));
    let b = book(2, None, Some("Saga"), Some(2_000_000));
    let c = book(3, None, Some("Saga"), Some(5_000_000));
    let d = book(4, None, Some("Saga"), None);
    // adjacent entries
    let ab = compute_all_edge_weights(&a, &b, None);
    assert_eq!(ab, vec![(950_000, EdgeKind::Series)]);
    // same series, far apart
    let ac = compute_all_edge_weights(&a, &c, None);
    assert_eq!(ac, vec![(750_000, EdgeKind::Series)]);
    // a position missing
    let ad = compute_all_edge_weights(&a, &d, None);
    assert_eq!(ad, vec![(700_000, EdgeKind::Series)]);
}

#[test]
fn test_edge_fusion_content_threshold() {
    let a = book(1, None, None, None);
    let b = book(2, None, None, None);
    // at the threshold: no content edge (strictly above is needed)
    assert!(compute_all_edge_weights(&a, &b, Some(300_000)).is_empty());
    let edges = compute_all_edge_weights(&a, &b, Some(300_001));
    assert_eq!(edges, vec![(300_001, EdgeKind::Content)]);
    // the combined-best form picks the heaviest signal
    let a2 = book(1, Some("X"), None, None);
    let b2 = book(2, Some("X"), None, None);
    let (w, kind) = compute_edge_weight(&a2, &b2, Some(900_000));
    assert_eq!(w, 900_000);
    assert!(matches!(kind, EdgeKind::Content));
}

#[test]
fn test_generate_recommendations_pipeline() {
    let mut graph = BookGraph::new();
    graph.add_edge(1, 2, 900_000, EdgeKind::Content);
    graph.add_edge(2, 3, 800_000, EdgeKind::Content);
    graph.add_edge(3, 4, 700_000, EdgeKind::Content);

    let recs = generate_recommendations(&graph, 1, &vec![4], 10);
    assert!(!recs.is_empty());
    assert!(recs.len() <= 10);
    assert!(!recs.iter().any(|r| r.book_id == 1));
    for r in &recs {
        assert!(r.combined_score <= SCALE);
        assert!(r.traversal_score <= SCALE);
        assert!(r.pagerank_score <= SCALE);
    }
    // an empty graph gives no recommendations
    let empty = BookGraph::new();
    assert!(generate_recommendations(&empty, 1, &vec![], 10).is_empty());
}

#[test]
fn test_edge_fusion_tie_breaks_to_last() {
    // a content similarity equal to the author weight: the later rule wins
    let a = book(1, Some("X"), None, None);
    let b = book(2, Some("X"), None, None);
    let (w, kind) = compute_edge_weight(&a, &b, Some(850_000));
    assert_eq!(w, 850_000);
    assert!(matches!(kind, EdgeKind::Author));
}
