//! Plain data records for catalog items and related results.
//!
//! The catalog itself (a relational store) is an external collaborator; the
//! engine only reads these records. Fractional values such as a series
//! position are held as fixed-point integers in units of one millionth, as
//! everywhere in this crate.

use vstd::prelude::*;

verus! {

/// A catalog item (book) record.
///
/// `series_index` is the position within a series, fixed-point at `SCALE`
/// units per whole step (so adjacent entries differ by about `SCALE`).
#[derive(Debug, Clone)]
pub struct Book {
    pub id: i64,
    pub path: String,
    pub cover_path: Option<String>,
    pub title: String,
    pub sort_title: Option<String>,
    pub author: Option<String>,
    pub author_sort: Option<String>,
    pub series: Option<String>,
    pub series_index: Option<i64>,
    pub description: Option<String>,
    pub language: Option<String>,
    pub publisher: Option<String>,
    pub publish_date: Option<String>,
    pub isbn: Option<String>,
    pub file_size: i64,
    pub file_hash: Option<String>,
    pub calibre_id: Option<i64>,
    pub source: String,
    pub date_added: i64,
    pub date_modified: i64,
    pub date_indexed: Option<i64>,
    pub embedding_status: String,
    pub embedding_model: Option<String>,
    pub rating: Option<i32>,
    pub read_status: Option<String>,
}

/// A new item about to be inserted into the catalog.
#[derive(Debug, Clone)]
pub struct NewBook {
    pub path: String,
    pub cover_path: Option<String>,
    pub file_size: i64,
    pub file_hash: Option<String>,
    pub title: String,
    pub sort_title: Option<String>,
    pub author: Option<String>,
    pub author_sort: Option<String>,
    pub series: Option<String>,
    pub series_index: Option<i64>,
    pub description: Option<String>,
    pub language: Option<String>,
    pub publisher: Option<String>,
    pub publish_date: Option<String>,
    pub isbn: Option<String>,
    pub source: String,
}

/// A persisted relationship between two items.
#[derive(Debug, Clone)]
pub struct BookEdge {
    pub source_id: i64,
    pub target_id: i64,
    pub edge_type: String,
    pub weight: u64,
    pub computed_at: i64,
    pub model_version: Option<String>,
}

} // verus!
