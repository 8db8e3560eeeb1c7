//! Importing an existing library from another cataloguing tool's on-disk
//! database. The reads themselves are input/output and live with the caller;
//! here are the importer's identity, its records, and the probe that tells a
//! library directory apart.

use vstd::prelude::*;
use crate::scanner::path_exists;

verus! {

/// A library directory managed by the external cataloguing tool.
pub struct CalibreLibrary {
    pub path: String,
    pub db_path: String,
    pub book_count: i64,
    pub author_count: i64,
}

/// An item's metadata as read from the external tool's database.
/// `series_index` is fixed-point at `SCALE` units per whole step, `rating`
/// on the zero-to-five scale.
pub struct CalibreBook {
    pub id: i64,
    pub title: String,
    pub sort_title: Option<String>,
    pub author: Option<String>,
    pub author_sort: Option<String>,
    pub series: Option<String>,
    pub series_index: Option<i64>,
    pub description: Option<String>,
    pub path: String,
    pub isbn: Option<String>,
    pub language: Option<String>,
    pub publisher: Option<String>,
    pub pubdate: Option<String>,
    pub rating: Option<i32>,
    pub tags: Vec<String>,
}

/// The outcome of an import.
pub struct ImportResult {
    pub books_found: usize,
    pub books_imported: usize,
    pub ratings_imported: usize,
    pub errors: Vec<String>,
}

/// The importer: remembers which library directory it reads.
pub struct CalibreImporter {
    pub library_path: String,
}

impl CalibreImporter {
    /// An importer for the given library directory.
    pub fn new(library_path: &str) -> (r: CalibreImporter)
        ensures
            r.library_path@ == library_path@,
    {
        CalibreImporter { library_path: library_path.to_owned() }
    }

    /// Whether the directory holds the external tool's metadata database:
    /// probes the disk for a file of that name under the path, so the answer
    /// depends on the disk.
    pub fn is_calibre_library(path: &str) -> (r: bool)
    {
        let mut probe = path.to_owned();
        probe.append("/metadata.db");
        path_exists(probe.as_str())
    }
}

} // verus!
