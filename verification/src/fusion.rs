//! Edge-weight fusion: combining embedding similarity, shared-author and
//! shared-series signals into typed weighted edges.
//!
//! All rules are evaluated independently and every qualifying edge is
//! returned. The functions are pure and deterministic.

use vstd::prelude::*;
use crate::catalog::Book;
use crate::SCALE;

verus! {

/// The kind of relationship an edge records.
///
/// New kinds must be driven by a fusion rule here, not created ad hoc.
/// `Unrelated` only appears in the combined-best form when no rule qualifies.
#[derive(Debug, Clone, Copy, PartialEq, Eq, Structural)]
pub enum EdgeKind {
    Content,
    Author,
    Series,
    Unrelated,
}

impl EdgeKind {
    /// A stable numeric tag for this kind.
    pub fn as_tag(&self) -> (r: u8)
        ensures
            r == self.tag_spec(),
    {
        match self {
            EdgeKind::Content => 0u8,
            EdgeKind::Author => 1u8,
            EdgeKind::Series => 2u8,
            EdgeKind::Unrelated => 3u8,
        }
    }

    /// Recover a kind from its numeric tag.
    pub fn from_tag(tag: u8) -> (r: EdgeKind)
        ensures
            r == EdgeKind::from_tag_spec(tag),
    {
        if tag == 0 {
            EdgeKind::Content
        } else if tag == 1 {
            EdgeKind::Author
        } else if tag == 2 {
            EdgeKind::Series
        } else {
            EdgeKind::Unrelated
        }
    }

    /// What `as_tag` returns.
    pub open spec fn tag_spec(&self) -> u8 {
        match self {
            EdgeKind::Content => 0,
            EdgeKind::Author => 1,
            EdgeKind::Series => 2,
            EdgeKind::Unrelated => 3,
        }
    }

    /// What `from_tag` returns.
    pub open spec fn from_tag_spec(tag: u8) -> EdgeKind {
        if tag == 0 {
            EdgeKind::Content
        } else if tag == 1 {
            EdgeKind::Author
        } else if tag == 2 {
            EdgeKind::Series
        } else {
            EdgeKind::Unrelated
        }
    }

    /// The string name of this kind, as the catalog stores it.
    pub fn name(&self) -> (r: String)
        ensures
            r@ == self.name_spec(),
    {
        match self {
            EdgeKind::Content => "content".to_owned(),
            EdgeKind::Author => "author".to_owned(),
            EdgeKind::Series => "series".to_owned(),
            EdgeKind::Unrelated => "none".to_owned(),
        }
    }

    /// What `name` returns.
    pub open spec fn name_spec(&self) -> Seq<char> {
        match self {
            EdgeKind::Content => "content"@,
            EdgeKind::Author => "author"@,
            EdgeKind::Series => "series"@,
            EdgeKind::Unrelated => "none"@,
        }
    }
}

/// Tags round-trip: decoding the tag of a kind gives the kind back.
pub proof fn lemma_edge_kind_tag_round_trip(k: EdgeKind)
    ensures
        EdgeKind::from_tag_spec(k.tag_spec()) == k,
{
}

/// Minimum embedding similarity for a content edge, exclusive.
pub const CONTENT_SIM_MIN: i64 = 300_000;

/// Weight of a shared-author edge.
pub const AUTHOR_WEIGHT: u64 = 850_000;

/// Weight of a shared-series edge between adjacent entries.
pub const SERIES_ADJACENT_WEIGHT: u64 = 950_000;

/// Weight of a shared-series edge between non-adjacent entries.
pub const SERIES_SAME_WEIGHT: u64 = 750_000;

/// Weight of a shared-series edge when a series position is missing.
pub const SERIES_UNKNOWN_WEIGHT: u64 = 700_000;

/// Whether both records carry the same non-empty author.
pub open spec fn shared_author(a: &Book, b: &Book) -> bool {
    match (a.author, b.author) {
        (Some(x), Some(y)) => x@ == y@ && x@.len() > 0,
        _ => false,
    }
}

/// Whether both records carry the same non-empty series name.
pub open spec fn shared_series(a: &Book, b: &Book) -> bool {
    match (a.series, b.series) {
        (Some(x), Some(y)) => x@ == y@ && x@.len() > 0,
        _ => false,
    }
}

/// The weight of a series edge: highest when both positions are known and at
/// most one whole step apart, lower when both are known but far apart, lowest
/// when a position is missing.
pub open spec fn series_weight(a: &Book, b: &Book) -> u64 {
    match (a.series_index, b.series_index) {
        (Some(x), Some(y)) => if -(SCALE as int) <= x - y <= SCALE as int {
            SERIES_ADJACENT_WEIGHT
        } else {
            SERIES_SAME_WEIGHT
        },
        _ => SERIES_UNKNOWN_WEIGHT,
    }
}

/// The list of qualifying edges for a pair of records, in rule order:
/// content first, then author, then series.
pub open spec fn fused_edges(a: &Book, b: &Book, similarity: Option<i64>) -> Seq<(u64, EdgeKind)> {
    let content = match similarity {
        Some(s) => if s > CONTENT_SIM_MIN {
            seq![(s as u64, EdgeKind::Content)]
        } else {
            Seq::<(u64, EdgeKind)>::empty()
        },
        None => Seq::<(u64, EdgeKind)>::empty(),
    };
    let author = if shared_author(a, b) {
        seq![(AUTHOR_WEIGHT, EdgeKind::Author)]
    } else {
        Seq::<(u64, EdgeKind)>::empty()
    };
    let series = if shared_series(a, b) {
        seq![(series_weight(a, b), EdgeKind::Series)]
    } else {
        Seq::<(u64, EdgeKind)>::empty()
    };
    content + author + series
}

/// Compute every qualifying edge between two records.
///
/// Rules, each evaluated independently:
/// - an embedding similarity above `CONTENT_SIM_MIN` yields a content edge
///   whose weight is the similarity itself;
/// - an equal non-empty author yields an author edge of `AUTHOR_WEIGHT`;
/// - an equal non-empty series name yields a series edge whose weight depends
///   on how close the two series positions are.
///
/// If no rule qualifies the list is empty.
pub fn compute_all_edge_weights(
    book_a: &Book,
    book_b: &Book,
    embedding_similarity: Option<i64>,
) -> (r: Vec<(u64, EdgeKind)>)
    ensures
        r@ == fused_edges(book_a, book_b, embedding_similarity),
{
    let mut edges: Vec<(u64, EdgeKind)> = Vec::new();

    match embedding_similarity {
        Some(sim) => {
            if sim > CONTENT_SIM_MIN {
                edges.push((sim as u64, EdgeKind::Content));
            }
        },
        None => {},
    }

    let authors_match = match (&book_a.author, &book_b.author) {
        (Some(x), Some(y)) => !x.as_str().is_empty() && *x == *y,
        _ => false,
    };
    assert(authors_match == shared_author(book_a, book_b));
    if authors_match {
        edges.push((AUTHOR_WEIGHT, EdgeKind::Author));
    }

    let series_match = match (&book_a.series, &book_b.series) {
        (Some(x), Some(y)) => !x.as_str().is_empty() && *x == *y,
        _ => false,
    };
    assert(series_match == shared_series(book_a, book_b));
    if series_match {
        let w = match (book_a.series_index, book_b.series_index) {
            (Some(x), Some(y)) => {
                let diff: i128 = x as i128 - y as i128;
                if -(SCALE as i128) <= diff && diff <= SCALE as i128 {
                    SERIES_ADJACENT_WEIGHT
                } else {
                    SERIES_SAME_WEIGHT
                }
            },
            _ => SERIES_UNKNOWN_WEIGHT,
        };
        edges.push((w, EdgeKind::Series));
    }

    assert(edges@ =~= fused_edges(book_a, book_b, embedding_similarity));
    edges
}

/// The best edge of a fused list: the last entry of greatest weight, or a
/// zero-weight `Unrelated` edge when the list is empty.
pub open spec fn best_edge(edges: Seq<(u64, EdgeKind)>) -> (u64, EdgeKind)
    decreases edges.len(),
{
    if edges.len() == 0 {
        (0u64, EdgeKind::Unrelated)
    } else if edges.len() == 1 {
        edges[0]
    } else {
        let rest = best_edge(edges.drop_first());
        if rest.0 >= edges[0].0 {
            rest
        } else {
            edges[0]
        }
    }
}

/// Compute the single best edge between two records: the highest-weighted
/// qualifying edge (ties to the last listed, series over author over
/// content), or weight zero with kind `Unrelated` when none qualifies.
pub fn compute_edge_weight(
    book_a: &Book,
    book_b: &Book,
    embedding_similarity: Option<i64>,
) -> (r: (u64, EdgeKind))
    ensures
        r == best_edge(fused_edges(book_a, book_b, embedding_similarity)),
{
    let edges = compute_all_edge_weights(book_a, book_b, embedding_similarity);
    if edges.len() == 0 {
        return (0u64, EdgeKind::Unrelated);
    }
    let mut i: usize = edges.len() - 1;
    let mut best: (u64, EdgeKind) = edges[i];
    while i > 0
        invariant
            i < edges@.len(),
            best == best_edge(edges@.skip(i as int)),
        decreases i,
    {
        i = i - 1;
        let cur = edges[i];
        if best.0 >= cur.0 {
            // the later entries keep the tie
        } else {
            best = cur;
        }
        assert(edges@.skip(i as int).drop_first() =~= edges@.skip(i as int + 1));
    }
    assert(edges@.skip(0) =~= edges@);
    best
}

} // verus!
