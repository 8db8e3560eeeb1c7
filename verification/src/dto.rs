//! Plain records exchanged with the surrounding application: settings,
//! statistics and operation outcomes. Fractional values are fixed-point
//! integers at `SCALE` units per whole, as everywhere in this crate.

use vstd::prelude::*;

verus! {

/// A registered library root.
pub struct Library {
    pub id: i64,
    pub name: String,
    pub path: String,
    pub is_calibre: bool,
    pub calibre_db_path: Option<String>,
    pub last_scan: Option<i64>,
    pub watch_enabled: bool,
    pub book_count: i64,
    /// Whether the library path is currently reachable.
    pub accessible: bool,
}

/// The default for a library's reachability when nothing is recorded.
pub fn default_accessible() -> (r: bool)
    ensures
        r,
{
    true
}

/// User-facing settings.
pub struct Settings {
    pub ollama_endpoint: String,
    pub ollama_model: String,
    pub embedding_batch_size: i32,
    pub max_recommendations: i32,
    pub auto_scan_enabled: bool,
    pub scan_interval_minutes: i32,
}

impl Default for Settings {
    /// A local embedding endpoint, batches of ten, twenty recommendations,
    /// an hourly automatic scan.
    fn default() -> (r: Self)
        ensures
            r.ollama_endpoint@ == "http://localhost:11434"@,
            r.ollama_model@ == "nomic-embed-text"@,
            r.embedding_batch_size == 10,
            r.max_recommendations == 20,
            r.auto_scan_enabled,
            r.scan_interval_minutes == 60,
    {
        Settings {
            ollama_endpoint: "http://localhost:11434".to_owned(),
            ollama_model: "nomic-embed-text".to_owned(),
            embedding_batch_size: 10,
            max_recommendations: 20,
            auto_scan_enabled: true,
            scan_interval_minutes: 60,
        }
    }
}

/// A page of results with its total.
pub struct PagedResult<T> {
    pub items: Vec<T>,
    pub total: i64,
    pub has_more: bool,
}

/// Parameters of a catalog query.
pub struct BookQuery {
    pub search: Option<String>,
    pub author: Option<String>,
    pub series: Option<String>,
    pub tags: Option<Vec<String>>,
    pub read_status: Option<String>,
    pub min_rating: Option<i32>,
    pub embedding_status: Option<String>,
    pub sort_by: Option<String>,
    pub sort_order: Option<String>,
    pub limit: Option<i64>,
    pub offset: Option<i64>,
}

impl Default for BookQuery {
    /// No filters, no ordering, no paging.
    fn default() -> (r: Self)
        ensures
            r.search is None && r.author is None && r.series is None && r.tags is None,
            r.read_status is None && r.min_rating is None && r.embedding_status is None,
            r.sort_by is None && r.sort_order is None && r.limit is None && r.offset is None,
    {
        BookQuery {
            search: None,
            author: None,
            series: None,
            tags: None,
            read_status: None,
            min_rating: None,
            embedding_status: None,
            sort_by: None,
            sort_order: None,
            limit: None,
            offset: None,
        }
    }
}

/// Catalog-wide counts.
pub struct LibraryStats {
    pub total_books: i64,
    pub total_authors: i64,
    pub total_series: i64,
    pub books_with_embeddings: i64,
    pub pending_embeddings: i64,
    pub books_needing_metadata: i64,
}

/// Size and row counts of the backing database.
pub struct DatabaseStats {
    pub database_size_bytes: u64,
    pub books_count: i64,
    pub embeddings_count: i64,
    pub embeddings_size_bytes: u64,
}

/// The outcome of clearing all embeddings.
pub struct ClearEmbeddingsResult {
    pub embeddings_cleared: i64,
    pub books_reset: i64,
}

/// Partial settings for an update; absent fields stay as they are.
pub struct PartialSettings {
    pub ollama_endpoint: Option<String>,
    pub ollama_model: Option<String>,
    pub embedding_batch_size: Option<i32>,
    pub max_recommendations: Option<i32>,
    pub auto_scan_enabled: Option<bool>,
    pub scan_interval_minutes: Option<i32>,
}

/// The outcome of rebuilding the graph edges.
pub struct RebuildGraphResult {
    pub books_processed: i64,
    pub edges_created: i64,
    pub duration_ms: u64,
}

/// A progress event during a graph rebuild.
pub struct GraphRebuildProgress {
    pub current: i64,
    pub total: i64,
    pub edges_so_far: i64,
}

/// The outcome of a metadata-parsing batch.
pub struct MetadataParsingResult {
    pub processed: i64,
    pub success: i64,
    pub failed: i64,
    pub remaining: i64,
    pub duration_ms: u64,
}

/// The outcome of removing records whose files are gone.
pub struct CleanupOrphanedResult {
    pub checked: i64,
    pub removed: i64,
    pub duration_ms: u64,
}

/// The outcome of an embedding-processing batch.
pub struct ProcessingResult {
    pub processed: i64,
    pub failed: i64,
    pub remaining: i64,
    pub duration_ms: u64,
}

/// The outcome of an export.
pub struct ExportStats {
    pub books_exported: usize,
    pub ratings_exported: usize,
    pub file_path: String,
}

/// The outcome of an import.
pub struct ImportStats {
    pub books_imported: usize,
    pub books_skipped: usize,
    pub ratings_imported: usize,
}

/// An exported rating record.
pub struct ExportedRating {
    pub book_path: String,
    pub rating: Option<i32>,
    pub read_status: Option<String>,
}

/// The state of the embedding provider.
pub struct OllamaStatus {
    pub connected: bool,
    pub endpoint: String,
    pub model: String,
    pub models_available: Vec<String>,
    pub error: Option<String>,
}

/// The state of background embedding processing.
pub struct ProcessingStatus {
    pub total_books: i64,
    pub processed: i64,
    pub pending: i64,
    pub current_book: Option<String>,
    pub is_paused: bool,
    pub estimated_time_remaining: Option<i64>,
    pub books_needing_metadata: i64,
}

/// A node of the graph prepared for visualisation.
pub struct GraphNode {
    pub id: i64,
    pub title: String,
    pub author: Option<String>,
    pub cover_path: Option<String>,
    pub rating: Option<i32>,
}

/// An edge of the graph prepared for visualisation.
pub struct GraphEdge {
    pub source: i64,
    pub target: i64,
    pub weight: u64,
    pub edge_type: String,
}

/// The graph prepared for visualisation.
pub struct GraphData {
    pub nodes: Vec<GraphNode>,
    pub edges: Vec<GraphEdge>,
}

/// The metadata parser for book files. Reading a file is input/output and
/// lives with the caller; the parser's pure helpers live in the text module.
pub struct EpubParser;

impl EpubParser {
    /// Create a parser.
    pub fn new() -> (r: EpubParser)
    {
        EpubParser
    }
}

} // verus!
