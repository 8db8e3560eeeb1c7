//! The vector store: persists embeddings in a SQLite database, caches them
//! in memory, and answers nearest-neighbour queries by cosine similarity.
//!
//! The durable tier is SQLite through rusqlite; every call opens its own
//! short-lived connection against the configured database path. What a
//! durable call returns depends on the state of the database on disk, so the
//! trusted wrappers promise nothing about the values that come back; the
//! verified logic around them validates every byte string it decodes and
//! keeps the cache well-formed whatever the disk held.

use vstd::prelude::*;
use std::collections::HashMap;
use rusqlite::OptionalExtension;
use crate::{AppError, AppResult, SCALE};
use crate::codec::{decoded_components, deserialize_embedding, serialize_embedding, serialized_bytes};
use crate::embedding::{
    average_embeddings, cosine_similarity, cosine_of, mean_vector, norm_sq_int, normalized,
    wf_embedding, COMPONENT_LIMIT, MAX_DIM,
};

verus! {

broadcast use vstd::std_specs::hash::group_hash_axioms;

/// Dimension of the embeddings the store is configured for.
pub const EMBEDDING_DIM: usize = 768;

/// Relies on rusqlite's Connection::open and execute: creates the embeddings
/// table and its index if absent. What happens depends on the disk, so
/// nothing is promised beyond the call returning.
#[verifier::external_body]
fn db_init(path: &str) -> (r: Result<(), String>)
{
    let conn = rusqlite::Connection::open(path).map_err(|e| e.to_string())?;
    conn.execute(
        "CREATE TABLE IF NOT EXISTS embeddings (
            book_id INTEGER PRIMARY KEY,
            embedding BLOB NOT NULL,
            model TEXT NOT NULL,
            text_hash TEXT,
            created_at INTEGER NOT NULL DEFAULT (strftime('%s', 'now'))
        )",
        (),
    ).map_err(|e| e.to_string())?;
    conn.execute(
        "CREATE INDEX IF NOT EXISTS idx_embeddings_model ON embeddings(model)",
        (),
    ).map_err(|e| e.to_string())?;
    Ok(())
}

/// Relies on rusqlite's Connection::execute: inserts or replaces the row for
/// an item. Nothing is promised of the disk.
#[verifier::external_body]
fn db_put(
    path: &str,
    book_id: i64,
    blob: &Vec<u8>,
    model: &str,
    text_hash: Option<&str>,
) -> (r: Result<(), String>)
{
    let conn = rusqlite::Connection::open(path).map_err(|e| e.to_string())?;
    conn.execute(
        "INSERT OR REPLACE INTO embeddings (book_id, embedding, model, text_hash)
         VALUES (?, ?, ?, ?)",
        (book_id, blob.as_slice(), model, text_hash),
    ).map_err(|e| e.to_string())?;
    Ok(())
}

/// Relies on rusqlite's Connection::query_row: the stored byte string for an
/// item, if the database holds one. Whatever comes back is from the disk.
#[verifier::external_body]
fn db_get(path: &str, book_id: i64) -> (r: Result<Option<Vec<u8>>, String>)
{
    let conn = rusqlite::Connection::open(path).map_err(|e| e.to_string())?;
    conn.query_row(
        "SELECT embedding FROM embeddings WHERE book_id = ?",
        (book_id,),
        |row| row.get(0),
    ).optional().map_err(|e| e.to_string())
}

/// Relies on rusqlite's Connection::execute: deletes the row for an item.
#[verifier::external_body]
fn db_delete(path: &str, book_id: i64) -> (r: Result<(), String>)
{
    let conn = rusqlite::Connection::open(path).map_err(|e| e.to_string())?;
    conn.execute("DELETE FROM embeddings WHERE book_id = ?", (book_id,)).map_err(
        |e| e.to_string(),
    )?;
    Ok(())
}

/// Relies on rusqlite's Connection::query_row: how many rows the embeddings
/// table holds on disk.
#[verifier::external_body]
fn db_count(path: &str) -> (r: Result<i64, String>)
{
    let conn = rusqlite::Connection::open(path).map_err(|e| e.to_string())?;
    conn.query_row("SELECT COUNT(*) FROM embeddings", (), |row| row.get(0)).map_err(
        |e| e.to_string(),
    )
}

/// Relies on rusqlite's Connection::query_row: whether the database holds a
/// row for the item.
#[verifier::external_body]
fn db_has(path: &str, book_id: i64) -> (r: Result<bool, String>)
{
    let conn = rusqlite::Connection::open(path).map_err(|e| e.to_string())?;
    let row: Option<i64> = conn.query_row(
        "SELECT 1 FROM embeddings WHERE book_id = ?",
        (book_id,),
        |row| row.get(0),
    ).optional().map_err(|e| e.to_string())?;
    Ok(row.is_some())
}

/// Relies on rusqlite's Connection::execute: removes every row and reports
/// how many were removed.
#[verifier::external_body]
fn db_clear(path: &str) -> (r: Result<usize, String>)
{
    let conn = rusqlite::Connection::open(path).map_err(|e| e.to_string())?;
    conn.execute("DELETE FROM embeddings", ()).map_err(|e| e.to_string())
}

/// Relies on rusqlite's Statement::query_map: every stored row, as the item
/// identifier and its byte string. Whatever comes back is from the disk.
#[verifier::external_body]
fn db_load_all(path: &str) -> (r: Result<Vec<(i64, Vec<u8>)>, String>)
{
    let conn = rusqlite::Connection::open(path).map_err(|e| e.to_string())?;
    let mut stmt = conn.prepare("SELECT book_id, embedding FROM embeddings").map_err(
        |e| e.to_string(),
    )?;
    let rows = stmt.query_map((), |row| Ok((row.get(0)?, row.get(1)?))).map_err(
        |e| e.to_string(),
    )?;
    rows.collect::<Result<Vec<(i64, Vec<u8>)>, rusqlite::Error>>().map_err(|e| e.to_string())
}

/// Whether some similarity pair is for the item.
pub open spec fn has_pair_id(s: Seq<(i64, i64)>, id: i64) -> bool {
    exists|j: int| 0 <= j < s.len() && (#[trigger] s[j]).0 == id
}

/// How many of the listed identifiers are not excluded.
pub open spec fn eligible_count(ids: Seq<i64>, excluded: Seq<i64>) -> int
    decreases ids.len(),
{
    if ids.len() == 0 {
        0
    } else {
        eligible_count(ids.drop_last(), excluded) + if excluded.contains(ids.last()) {
            0int
        } else {
            1int
        }
    }
}

/// Copy a component vector.
fn copy_components(v: &Vec<i32>) -> (r: Vec<i32>)
    ensures
        r@ == v@,
{
    let mut r: Vec<i32> = Vec::new();
    let mut i: usize = 0;
    while i < v.len()
        invariant
            0 <= i <= v@.len(),
            r@ == v@.take(i as int),
        decreases v@.len() - i,
    {
        r.push(v[i]);
        assert(r@ =~= v@.take(i as int + 1));
        i = i + 1;
    }
    assert(r@ =~= v@);
    r
}

/// Check that a component vector is a well-formed embedding.
fn check_embedding(v: &Vec<i32>) -> (r: bool)
    ensures
        r == wf_embedding(v@),
{
    if v.len() > MAX_DIM {
        return false;
    }
    let mut i: usize = 0;
    while i < v.len()
        invariant
            v@.len() <= MAX_DIM,
            0 <= i <= v@.len(),
            forall|k: int| 0 <= k < i ==> -(COMPONENT_LIMIT as int)
                <= #[trigger] v@[k] <= COMPONENT_LIMIT as int,
        decreases v@.len() - i,
    {
        let c = v[i];
        if c > COMPONENT_LIMIT || c < -COMPONENT_LIMIT {
            return false;
        }
        i = i + 1;
    }
    true
}

/// The cache seen as a map from identifier to component sequence.
pub open spec fn cache_view(m: Map<i64, Vec<i32>>) -> Map<i64, Seq<i32>> {
    Map::new(|k: i64| m.contains_key(k), |k: i64| m[k]@)
}

/// Whether a durable row's byte string decodes to a well-formed embedding.
pub open spec fn row_ok(row: (i64, Vec<u8>)) -> bool {
    &&& row.1@.len() % 4 == 0
    &&& wf_embedding(decoded_components(row.1@))
}

/// How many rows of a list decode to well-formed embeddings.
pub open spec fn decodable_count(rows: Seq<(i64, Vec<u8>)>) -> int
    decreases rows.len(),
{
    if rows.len() == 0 {
        0
    } else {
        decodable_count(rows.drop_last()) + if row_ok(rows.last()) {
            1int
        } else {
            0int
        }
    }
}

/// The cache after absorbing a row list: each decodable row overwrites the
/// entry for its identifier, in order; other rows change nothing.
pub open spec fn absorbed(cache: Map<i64, Seq<i32>>, rows: Seq<(i64, Vec<u8>)>) -> Map<
    i64,
    Seq<i32>,
>
    decreases rows.len(),
{
    if rows.len() == 0 {
        cache
    } else {
        let prev = absorbed(cache, rows.drop_last());
        let row = rows.last();
        if row_ok(row) {
            prev.insert(row.0, decoded_components(row.1@))
        } else {
            prev
        }
    }
}

/// The embeddings the cache holds for the listed items, in list order: each
/// identifier contributes its cached embedding when that embedding has the
/// given dimension, and nothing otherwise.
pub open spec fn found_of(cache: Map<i64, Vec<i32>>, ids: Seq<i64>, dim: int) -> Seq<Seq<i32>>
    decreases ids.len(),
{
    if ids.len() == 0 {
        Seq::<Seq<i32>>::empty()
    } else {
        let prev = found_of(cache, ids.drop_last(), dim);
        let id = ids.last();
        if cache.contains_key(id) && cache[id]@.len() == dim {
            prev.push(cache[id]@)
        } else {
            prev
        }
    }
}

/// An item cached at the right dimension makes the found list non-empty.
proof fn lemma_found_of_member(cache: Map<i64, Vec<i32>>, ids: Seq<i64>, dim: int, m: int)
    requires
        0 <= m < ids.len(),
        cache.contains_key(ids[m]),
        cache[ids[m]]@.len() == dim,
    ensures
        found_of(cache, ids, dim).len() >= 1,
    decreases ids.len(),
{
    if m < ids.len() - 1 {
        assert(ids.drop_last()[m] == ids[m]);
        lemma_found_of_member(cache, ids.drop_last(), dim, m);
    }
}

/// The vector store: a durable tier on disk and an in-memory cache of
/// decoded embeddings, with the cached identifiers kept in insertion order
/// for deterministic scans.
pub struct VectorStore {
    pub db_path: String,
    pub dim: usize,
    pub cache: HashMap<i64, Vec<i32>>,
    pub cached_ids: Vec<i64>,
    pub cache_loaded: bool,
}

impl VectorStore {
    /// Well-formed: the configured dimension is representable, every cached
    /// embedding is well-formed, and the identifier list holds exactly the
    /// cached identifiers, each once.
    pub open spec fn wf(&self) -> bool {
        &&& self.dim <= MAX_DIM
        &&& forall|id: i64| self.cache@.contains_key(id) ==> wf_embedding(
            (#[trigger] self.cache@[id])@,
        )
        &&& forall|i: int| 0 <= i < self.cached_ids@.len() ==> self.cache@.contains_key(
            #[trigger] self.cached_ids@[i],
        )
        &&& forall|id: i64| #[trigger] self.cache@.contains_key(id) ==> self.cached_ids@.contains(
            id,
        )
        &&& forall|i: int, j: int| 0 <= i < j < self.cached_ids@.len()
            ==> #[trigger] self.cached_ids@[i] != #[trigger] self.cached_ids@[j]
    }

    /// Create a store over the given database path, ensuring the schema
    /// exists; the cache starts empty and not yet warm.
    pub fn new(db_path: &str) -> (r: AppResult<VectorStore>)
        ensures
            r matches Ok(s) ==> (s.wf() && s.dim == EMBEDDING_DIM && s.cache@
                =~= Map::<i64, Vec<i32>>::empty() && !s.cache_loaded && s.db_path@ == db_path@),
            r matches Err(e) ==> e is Storage,
    {
        match db_init(db_path) {
            Ok(()) => Ok(
                VectorStore {
                    db_path: db_path.to_owned(),
                    dim: EMBEDDING_DIM,
                    cache: HashMap::new(),
                    cached_ids: Vec::new(),
                    cache_loaded: false,
                },
            ),
            Err(m) => Err(AppError::Storage(m)),
        }
    }

    /// Record a decoded embedding in the cache, keeping the store
    /// well-formed.
    fn cache_insert(&mut self, book_id: i64, embedding: Vec<i32>)
        requires
            old(self).wf(),
            wf_embedding(embedding@),
        ensures
            final(self).wf(),
            final(self).cache@ == old(self).cache@.insert(book_id, embedding),
            final(self).dim == old(self).dim,
            final(self).db_path == old(self).db_path,
            final(self).cache_loaded == old(self).cache_loaded,
    {
        if !self.cache.contains_key(&book_id) {
            self.cached_ids.push(book_id);
        }
        self.cache.insert(book_id, embedding);
        proof {
            assert forall|i: int| 0 <= i < self.cached_ids@.len() implies self.cache@.contains_key(
                #[trigger] self.cached_ids@[i],
            ) by {
                if i < old(self).cached_ids@.len() {
                    assert(old(self).cache@.contains_key(old(self).cached_ids@[i]));
                }
            }
            if !old(self).cache@.contains_key(book_id) {
                assert forall|i: int, j: int| 0 <= i < j < self.cached_ids@.len()
                    implies #[trigger] self.cached_ids@[i] != #[trigger] self.cached_ids@[j] by {
                    if j == self.cached_ids@.len() - 1 {
                        if self.cached_ids@[i] == book_id {
                            assert(old(self).cached_ids@.contains(book_id));
                            assert(old(self).cache@.contains_key(book_id));
                        }
                    }
                }
                assert forall|id: i64| #[trigger] self.cache@.contains_key(id)
                    implies self.cached_ids@.contains(id) by {
                    if id == book_id {
                        assert(self.cached_ids@[self.cached_ids@.len() - 1] == book_id);
                    } else {
                        let w = choose|w: int|
                            0 <= w < old(self).cached_ids@.len() && old(self).cached_ids@[w] == id;
                        assert(self.cached_ids@[w] == id);
                    }
                }
            } else {
                assert forall|id: i64| #[trigger] self.cache@.contains_key(id)
                    implies self.cached_ids@.contains(id) by {
                    let w = choose|w: int|
                        0 <= w < old(self).cached_ids@.len() && old(self).cached_ids@[w] == id;
                    assert(self.cached_ids@[w] == id);
                }
            }
        }
    }

    /// Load every stored embedding into the cache and mark the cache warm.
    /// A row is cached only when its byte string is a whole number of
    /// four-byte groups decoding to a well-formed embedding (at most
    /// `MAX_DIM` components, each within `COMPONENT_LIMIT`); rows outside
    /// the model's component range are rejected, which is stricter than
    /// caching every byte-aligned row, and protects the bounded similarity
    /// arithmetic. Returns exactly how many rows were cached; the cache
    /// becomes the old cache overwritten by those rows in row order.
    pub fn load_cache(&mut self) -> (r: AppResult<usize>)
        requires
            old(self).wf(),
        ensures
            final(self).wf(),
            final(self).dim == old(self).dim,
            final(self).db_path == old(self).db_path,
            r matches Ok(n) ==> (final(self).cache_loaded && exists|rows: Seq<(i64, Vec<u8>)>|
                n as int == #[trigger] decodable_count(rows) && cache_view(final(self).cache@)
                    == absorbed(cache_view(old(self).cache@), rows)),
            r matches Err(e) ==> (e is Storage && *final(self) == *old(self)),
    {
        let rows = match db_load_all(self.db_path.as_str()) {
            Ok(rows) => rows,
            Err(m) => {
                return Err(AppError::Storage(m));
            },
        };
        let count = self.absorb_rows(&rows);
        self.cache_loaded = true;
        proof {
            assert(cache_view(self.cache@) == absorbed(cache_view(old(self).cache@), rows@));
        }
        Ok(count)
    }

    /// Absorb durable rows into the cache: every row whose byte string
    /// decodes to a well-formed embedding overwrites the entry for its
    /// identifier, in row order; other rows are skipped. Returns exactly how
    /// many rows were absorbed.
    fn absorb_rows(&mut self, rows: &Vec<(i64, Vec<u8>)>) -> (count: usize)
        requires
            old(self).wf(),
        ensures
            final(self).wf(),
            final(self).dim == old(self).dim,
            final(self).db_path == old(self).db_path,
            final(self).cache_loaded == old(self).cache_loaded,
            count as int == decodable_count(rows@),
            cache_view(final(self).cache@) == absorbed(cache_view(old(self).cache@), rows@),
    {
        let mut count: usize = 0;
        let mut i: usize = 0;
        while i < rows.len()
            invariant
                self.wf(),
                self.dim == old(self).dim,
                self.db_path == old(self).db_path,
                self.cache_loaded == old(self).cache_loaded,
                0 <= i <= rows@.len(),
                count <= i,
                count as int == decodable_count(rows@.take(i as int)),
                cache_view(self.cache@) == absorbed(
                    cache_view(old(self).cache@),
                    rows@.take(i as int),
                ),
            decreases rows@.len() - i,
        {
            let (book_id, blob) = &rows[i];
            let ghost before = cache_view(self.cache@);
            proof {
                assert(rows@.take(i as int + 1).drop_last() =~= rows@.take(i as int));
                assert(rows@.take(i as int + 1).last() == rows@[i as int]);
            }
            match deserialize_embedding(blob) {
                Ok(embedding) => {
                    if check_embedding(&embedding) {
                        let ghost decoded = embedding@;
                        self.cache_insert(*book_id, embedding);
                        count = count + 1;
                        proof {
                            assert(row_ok(rows@[i as int]));
                            assert(cache_view(self.cache@) =~= before.insert(
                                rows@[i as int].0,
                                decoded_components(rows@[i as int].1@),
                            ));
                        }
                    } else {
                        proof {
                            assert(!row_ok(rows@[i as int]));
                        }
                    }
                },
                Err(_) => {
                    proof {
                        assert(!row_ok(rows@[i as int]));
                    }
                },
            }
            i = i + 1;
        }
        proof {
            assert(rows@.take(rows@.len() as int) =~= rows@);
        }
        count
    }

    /// Persist an embedding for an item and cache it.
    ///
    /// Fails with `DimensionMismatch`, touching nothing, when the vector's
    /// length is not the configured dimension; fails with `Storage`,
    /// touching nothing, when the durable tier refuses the write. On success
    /// the cache maps the item to exactly the given vector and every other
    /// entry is unchanged.
    pub fn store_embedding(
        &mut self,
        book_id: i64,
        embedding: &Vec<i32>,
        model: &str,
        text_hash: Option<&str>,
    ) -> (r: AppResult<()>)
        requires
            old(self).wf(),
            forall|i: int| 0 <= i < embedding@.len() ==> -(COMPONENT_LIMIT as int)
                <= #[trigger] embedding@[i] <= COMPONENT_LIMIT as int,
        ensures
            final(self).wf(),
            embedding@.len() != old(self).dim ==> (r matches Err(e) && e is DimensionMismatch
                && *final(self) == *old(self)),
            embedding@.len() == old(self).dim ==> match r {
                Ok(()) => {
                    &&& final(self).cache@.dom() == old(self).cache@.dom().insert(book_id)
                    &&& final(self).cache@[book_id]@ == embedding@
                    &&& forall|k: i64| k != book_id && old(self).cache@.contains_key(k)
                        ==> final(self).cache@[k] == old(self).cache@[k]
                    &&& final(self).dim == old(self).dim
                    &&& final(self).cache_loaded == old(self).cache_loaded
                },
                Err(e) => e is Storage && *final(self) == *old(self),
            },
    {
        if embedding.len() != self.dim {
            return Err(AppError::DimensionMismatch);
        }
        let blob = serialize_embedding(embedding);
        match db_put(self.db_path.as_str(), book_id, &blob, model, text_hash) {
            Ok(()) => {
                let copy = copy_components(embedding);
                self.cache_insert(book_id, copy);
                proof {
                    assert(final(self).cache@.dom() =~= old(self).cache@.dom().insert(book_id));
                }
                Ok(())
            },
            Err(m) => Err(AppError::Storage(m)),
        }
    }

    /// The embedding of an item: from the cache when present, otherwise
    /// looked up durably, cached and returned; nothing when the item has no
    /// decodable embedding anywhere.
    pub fn get_embedding(&mut self, book_id: i64) -> (r: Option<Vec<i32>>)
        requires
            old(self).wf(),
        ensures
            final(self).wf(),
            final(self).dim == old(self).dim,
            final(self).db_path == old(self).db_path,
            final(self).cache_loaded == old(self).cache_loaded,
            old(self).cache@.contains_key(book_id) ==> (r matches Some(e) && e@ == old(
                self,
            ).cache@[book_id]@ && *final(self) == *old(self)),
            r matches Some(e) ==> (wf_embedding(e@) && final(self).cache@.contains_key(book_id)
                && final(self).cache@[book_id]@ == e@),
            r is None ==> *final(self) == *old(self),
            forall|id: i64| id != book_id && old(self).cache@.contains_key(id) ==> (
            final(self).cache@.contains_key(id) && final(self).cache@[id] == old(
                self,
            ).cache@[id]),
    {
        let cached = match self.cache.get(&book_id) {
            Some(v) => Some(copy_components(v)),
            None => None,
        };
        match cached {
            Some(v) => Some(v),
            None => {
                match db_get(self.db_path.as_str(), book_id) {
                    Ok(Some(blob)) => {
                        match deserialize_embedding(&blob) {
                            Ok(embedding) => {
                                if check_embedding(&embedding) {
                                    let copy = copy_components(&embedding);
                                    self.cache_insert(book_id, embedding);
                                    Some(copy)
                                } else {
                                    None
                                }
                            },
                            Err(_) => None,
                        }
                    },
                    _ => None,
                }
            },
        }
    }

    /// Remove an item's embedding from the durable tier and the cache.
    /// A storage failure leaves everything untouched.
    pub fn delete_embedding(&mut self, book_id: i64) -> (r: AppResult<()>)
        requires
            old(self).wf(),
        ensures
            final(self).wf(),
            final(self).dim == old(self).dim,
            r matches Ok(()) ==> (!final(self).cache@.contains_key(book_id) && forall|k: i64|
                k != book_id && old(self).cache@.contains_key(k) ==> (
                final(self).cache@.contains_key(k) && final(self).cache@[k] == old(
                    self,
                ).cache@[k])),
            r matches Err(e) ==> (e is Storage && *final(self) == *old(self)),
    {
        match db_delete(self.db_path.as_str(), book_id) {
            Ok(()) => {},
            Err(m) => {
                return Err(AppError::Storage(m));
            },
        }
        self.cache.remove(&book_id);
        let mut kept: Vec<i64> = Vec::new();
        let mut i: usize = 0;
        while i < self.cached_ids.len()
            invariant
                0 <= i <= self.cached_ids@.len(),
                forall|a: int, b: int| 0 <= a < b < self.cached_ids@.len()
                    ==> #[trigger] self.cached_ids@[a] != #[trigger] self.cached_ids@[b],
                forall|a: int| 0 <= a < kept@.len() ==> #[trigger] kept@[a] != book_id,
                forall|a: int| 0 <= a < kept@.len() ==> self.cached_ids@.take(i as int).contains(
                    #[trigger] kept@[a],
                ),
                forall|a: int| 0 <= a < i && self.cached_ids@[a] != book_id ==> kept@.contains(
                    #[trigger] self.cached_ids@[a],
                ),
                forall|a: int, b: int| 0 <= a < b < kept@.len() ==> #[trigger] kept@[a]
                    != #[trigger] kept@[b],
            decreases self.cached_ids@.len() - i,
        {
            let id = self.cached_ids[i];
            if id != book_id {
                let ghost old_kept = kept@;
                kept.push(id);
                proof {
                    assert forall|a: int| 0 <= a < i + 1 && self.cached_ids@[a] != book_id
                        implies kept@.contains(#[trigger] self.cached_ids@[a]) by {
                        if a < i {
                            assert(old_kept.contains(self.cached_ids@[a]));
                            let w = choose|w: int|
                                0 <= w < old_kept.len() && old_kept[w] == self.cached_ids@[a];
                            assert(kept@[w] == self.cached_ids@[a]);
                        } else {
                            assert(kept@[kept@.len() - 1] == self.cached_ids@[a]);
                        }
                    }
                    assert(self.cached_ids@.take(i as int + 1)[i as int] == id);
                    assert forall|a: int| 0 <= a < kept@.len() implies self.cached_ids@.take(
                        i as int + 1,
                    ).contains(#[trigger] kept@[a]) by {
                        if a < kept@.len() - 1 {
                            let w = choose|w: int|
                                0 <= w < i && self.cached_ids@.take(i as int)[w] == kept@[a];
                            assert(self.cached_ids@.take(i as int + 1)[w] == kept@[a]);
                        }
                    }
                    assert forall|a: int, b: int| 0 <= a < b < kept@.len()
                        implies #[trigger] kept@[a] != #[trigger] kept@[b] by {
                        if b == kept@.len() - 1 {
                            let w = choose|w: int|
                                0 <= w < i && self.cached_ids@.take(i as int)[w] == kept@[a];
                        }
                    }
                }
            } else {
                proof {
                    assert forall|a: int| 0 <= a < i + 1 && self.cached_ids@[a] != book_id
                        implies kept@.contains(#[trigger] self.cached_ids@[a]) by {
                    }
                }
                proof {
                    assert forall|a: int| 0 <= a < kept@.len() implies self.cached_ids@.take(
                        i as int + 1,
                    ).contains(#[trigger] kept@[a]) by {
                        let w = choose|w: int|
                            0 <= w < i && self.cached_ids@.take(i as int)[w] == kept@[a];
                        assert(self.cached_ids@.take(i as int + 1)[w] == kept@[a]);
                    }
                }
            }
            i = i + 1;
        }
        proof {
            assert(self.cached_ids@.take(self.cached_ids@.len() as int) =~= self.cached_ids@);
        }
        self.cached_ids = kept;
        proof {
            assert forall|id: i64| #[trigger] self.cache@.contains_key(id)
                implies self.cached_ids@.contains(id) by {
                assert(old(self).cache@.contains_key(id));
                assert(old(self).cached_ids@.contains(id));
                let w = choose|w: int|
                    0 <= w < old(self).cached_ids@.len() && old(self).cached_ids@[w] == id;
            }
        }
        Ok(())
    }

    /// How many embeddings the durable tier holds; the answer comes from the
    /// disk.
    pub fn count(&self) -> (r: AppResult<i64>)
        ensures
            r matches Err(e) ==> e is Storage,
    {
        match db_count(self.db_path.as_str()) {
            Ok(n) => Ok(n),
            Err(m) => Err(AppError::Storage(m)),
        }
    }

    /// Whether an item has an embedding: true straight away for a cached
    /// one, otherwise the durable tier answers.
    pub fn has_embedding(&self, book_id: i64) -> (r: bool)
        requires
            self.wf(),
        ensures
            self.cache@.contains_key(book_id) ==> r,
    {
        if self.cache.contains_key(&book_id) {
            return true;
        }
        match db_has(self.db_path.as_str(), book_id) {
            Ok(b) => b,
            Err(_) => false,
        }
    }

    /// Remove every embedding from the durable tier and the cache; reports
    /// how many rows the durable tier removed. A storage failure leaves the
    /// cache untouched.
    pub fn clear_all(&mut self) -> (r: AppResult<i64>)
        requires
            old(self).wf(),
        ensures
            final(self).wf(),
            final(self).dim == old(self).dim,
            r matches Ok(_) ==> final(self).cache@ =~= Map::<i64, Vec<i32>>::empty(),
            r matches Err(e) ==> (e is Storage && *final(self) == *old(self)),
    {
        let removed = match db_clear(self.db_path.as_str()) {
            Ok(n) => n,
            Err(m) => {
                return Err(AppError::Storage(m));
            },
        };
        self.cache.clear();
        self.cached_ids = Vec::new();
        Ok(removed as i64)
    }

    /// The k nearest cached embeddings to a query vector by cosine
    /// similarity.
    ///
    /// Warms the cache from the durable tier first if it has never been
    /// loaded. Every cached embedding whose item is not excluded is scored;
    /// the result holds at most `k` entries, sorted by descending
    /// similarity, each the exact fixed-point cosine of the query and that
    /// item's cached embedding, and never an excluded item.
    pub fn find_similar(&mut self, query_embedding: &Vec<i32>, k: usize, exclude_ids: &Vec<i64>)
        -> (r: Vec<(i64, i64)>)
        requires
            old(self).wf(),
            wf_embedding(query_embedding@),
        ensures
            final(self).wf(),
            r@.len() <= k,
            forall|j: int| 0 <= j < r@.len() ==> !exclude_ids@.contains((#[trigger] r@[j]).0),
            forall|i: int, j: int| 0 <= i < j < r@.len() ==> (#[trigger] r@[i]).1
                >= (#[trigger] r@[j]).1,
            forall|j: int| 0 <= j < r@.len() ==> final(self).cache@.contains_key(
                (#[trigger] r@[j]).0,
            ) && r@[j].1 == cosine_of(query_embedding@, final(self).cache@[r@[j].0]@),
            forall|j: int| 0 <= j < r@.len() ==> -(SCALE as int) <= (#[trigger] r@[j]).1
                <= SCALE as int,
            r@.len() == if k as int <= eligible_count(final(self).cached_ids@, exclude_ids@) {
                k as int
            } else {
                eligible_count(final(self).cached_ids@, exclude_ids@)
            },
            forall|i: int|
                0 <= i < final(self).cached_ids@.len() && !exclude_ids@.contains(
                    #[trigger] final(self).cached_ids@[i],
                ) ==> (has_pair_id(r@, final(self).cached_ids@[i]) || (r@.len() == k && (k == 0
                    || r@[k - 1].1 >= cosine_of(
                    query_embedding@,
                    final(self).cache@[final(self).cached_ids@[i]]@,
                )))),
    {
        if !self.cache_loaded {
            let _ = self.load_cache();
        }
        let mut sims: Vec<(i64, i64)> = Vec::new();
        let n = self.cached_ids.len();
        let mut i: usize = 0;
        while i < n
            invariant
                self.wf(),
                wf_embedding(query_embedding@),
                n == self.cached_ids@.len(),
                0 <= i <= n,
                forall|j: int| 0 <= j < sims@.len() ==> !exclude_ids@.contains(
                    (#[trigger] sims@[j]).0,
                ),
                forall|j: int| 0 <= j < sims@.len() ==> self.cache@.contains_key(
                    (#[trigger] sims@[j]).0,
                ) && sims@[j].1 == cosine_of(query_embedding@, self.cache@[sims@[j].0]@),
                forall|j: int| 0 <= j < sims@.len()
                    ==> -(SCALE as int) <= (#[trigger] sims@[j]).1 <= SCALE as int,
                sims@.len() == eligible_count(self.cached_ids@.take(i as int), exclude_ids@),
                forall|m: int| 0 <= m < i && !exclude_ids@.contains(
                    #[trigger] self.cached_ids@[m],
                ) ==> has_pair_id(sims@, self.cached_ids@[m]),
            decreases n - i,
        {
            let id = self.cached_ids[i];
            let ghost old_sims = sims@;
            proof {
                assert(self.cached_ids@.take(i as int + 1).drop_last() =~= self.cached_ids@.take(
                    i as int,
                ));
                assert(self.cached_ids@.take(i as int + 1).last() == self.cached_ids@[i as int]);
            }
            if !crate::traverse::contains_id(exclude_ids, id) {
                assert(self.cache@.contains_key(id)) by {
                    assert(self.cached_ids@[i as int] == id);
                }
                match self.cache.get(&id) {
                    Some(v) => {
                        let sim = cosine_similarity(query_embedding, v);
                        sims.push((id, sim));
                        proof {
                            assert forall|m: int|
                                0 <= m < i + 1 && !exclude_ids@.contains(
                                    #[trigger] self.cached_ids@[m],
                                ) implies has_pair_id(sims@, self.cached_ids@[m]) by {
                                if m < i as int {
                                    let w = choose|w: int|
                                        0 <= w < old_sims.len() && (#[trigger] old_sims[w]).0
                                            == self.cached_ids@[m];
                                    assert(sims@[w].0 == self.cached_ids@[m]);
                                } else {
                                    assert(sims@[sims@.len() - 1].0 == id);
                                }
                            }
                        }
                    },
                    None => {},
                }
            }
            i = i + 1;
        }
        proof {
            assert(self.cached_ids@.take(n as int) =~= self.cached_ids@);
        }
        let ghost collected = sims@;
        let mut sorted = sort_pairs_desc(sims);
        let ghost sorted_view = sorted@;
        proof {
            assert(sorted_view.take(sorted_view.len() as int) =~= sorted_view);
            lemma_pair_permutation_members(sorted@, collected);
            lemma_pair_permutation_members(collected, sorted@);
            assert forall|j: int| 0 <= j < sorted@.len() implies {
                &&& !exclude_ids@.contains((#[trigger] sorted@[j]).0)
                &&& self.cache@.contains_key(sorted@[j].0)
                &&& sorted@[j].1 == cosine_of(query_embedding@, self.cache@[sorted@[j].0]@)
                &&& -(SCALE as int) <= sorted@[j].1 <= SCALE as int
            } by {
                assert(collected.contains(sorted@[j]));
                let m = choose|m: int| 0 <= m < collected.len() && collected[m] == sorted@[j];
            }
        }
        while sorted.len() > k
            invariant
                forall|j: int| 0 <= j < sorted@.len() ==> !exclude_ids@.contains(
                    (#[trigger] sorted@[j]).0,
                ),
                forall|i2: int, j: int| 0 <= i2 < j < sorted@.len()
                    ==> (#[trigger] sorted@[i2]).1 >= (#[trigger] sorted@[j]).1,
                forall|j: int| 0 <= j < sorted@.len() ==> self.cache@.contains_key(
                    (#[trigger] sorted@[j]).0,
                ) && sorted@[j].1 == cosine_of(query_embedding@, self.cache@[sorted@[j].0]@),
                forall|j: int| 0 <= j < sorted@.len()
                    ==> -(SCALE as int) <= (#[trigger] sorted@[j]).1 <= SCALE as int,
                sorted@.len() <= sorted_view.len(),
                sorted@ == sorted_view.take(sorted@.len() as int),
                sorted@.len() >= k || sorted@.len() == sorted_view.len(),
            decreases sorted@.len(),
        {
            proof {
                assert(sorted_view.take(sorted@.len() as int).drop_last() =~= sorted_view.take(
                    sorted@.len() - 1,
                ));
            }
            sorted.pop();
        }
        proof {
            // every eligible cached item is either returned or outscored by
            // everything returned
            assert(sorted_view.take(sorted_view.len() as int) =~= sorted_view);
            assert forall|i2: int|
                0 <= i2 < self.cached_ids@.len() && !exclude_ids@.contains(
                    #[trigger] self.cached_ids@[i2],
                ) implies (has_pair_id(sorted@, self.cached_ids@[i2]) || (sorted@.len() == k && (
            k == 0 || sorted@[k - 1].1 >= cosine_of(
                query_embedding@,
                self.cache@[self.cached_ids@[i2]]@,
            )))) by {
                let id = self.cached_ids@[i2];
                assert(has_pair_id(collected, id));
                let w = choose|w: int| 0 <= w < collected.len() && (#[trigger] collected[w]).0
                    == id;
                assert(sorted_view.contains(collected[w]));
                let j = choose|j: int|
                    0 <= j < sorted_view.len() && sorted_view[j] == collected[w];
                if j < sorted@.len() {
                    assert(sorted@[j].0 == id);
                } else {
                    assert(sorted@.len() < sorted_view.len());
                    assert(sorted@.len() == k);
                    if k > 0 {
                        assert(sorted_view[k - 1].1 >= sorted_view[j].1);
                        assert(sorted@[k - 1] == sorted_view[k - 1]);
                        assert(sorted_view[j].1 == cosine_of(
                            query_embedding@,
                            self.cache@[id]@,
                        ));
                    }
                }
            }
        }
        sorted
    }

    /// The k items most similar to a given item, by its own cached or stored
    /// embedding, the item itself excluded; empty when it has no embedding.
    pub fn find_similar_to_book(&mut self, book_id: i64, k: usize) -> (r: Vec<(i64, i64)>)
        requires
            old(self).wf(),
        ensures
            final(self).wf(),
            r@.len() <= k,
            forall|j: int| 0 <= j < r@.len() ==> (#[trigger] r@[j]).0 != book_id,
            forall|i: int, j: int| 0 <= i < j < r@.len() ==> (#[trigger] r@[i]).1
                >= (#[trigger] r@[j]).1,
            forall|j: int| 0 <= j < r@.len() ==> -(SCALE as int) <= (#[trigger] r@[j]).1
                <= SCALE as int,
            old(self).cache@.contains_key(book_id) ==> {
                let q = old(self).cache@[book_id]@;
                &&& r@.len() == if k as int <= eligible_count(
                    final(self).cached_ids@,
                    seq![book_id],
                ) {
                    k as int
                } else {
                    eligible_count(final(self).cached_ids@, seq![book_id])
                }
                &&& forall|j: int| 0 <= j < r@.len() ==> final(self).cache@.contains_key(
                    (#[trigger] r@[j]).0,
                ) && r@[j].1 == cosine_of(q, final(self).cache@[r@[j].0]@)
                &&& forall|i: int|
                    0 <= i < final(self).cached_ids@.len()
                        && (#[trigger] final(self).cached_ids@[i]) != book_id ==> (has_pair_id(
                        r@,
                        final(self).cached_ids@[i],
                    ) || (r@.len() == k && (k == 0 || r@[k - 1].1 >= cosine_of(
                        q,
                        final(self).cache@[final(self).cached_ids@[i]]@,
                    ))))
            },
    {
        let ghost was_cached = old(self).cache@.contains_key(book_id);
        match self.get_embedding(book_id) {
            Some(embedding) => {
                let exclude: Vec<i64> = vec![book_id];
                assert(exclude@ =~= seq![book_id]);
                let r = self.find_similar(&embedding, k, &exclude);
                assert forall|j: int| 0 <= j < r@.len() implies (#[trigger] r@[j]).0
                    != book_id by {
                    assert(!exclude@.contains(r@[j].0));
                    assert(exclude@[0] == book_id);
                }
                proof {
                    if was_cached {
                        assert(embedding@ == old(self).cache@[book_id]@);
                        assert forall|i: int|
                            0 <= i < self.cached_ids@.len() && #[trigger] self.cached_ids@[i]
                                != book_id implies !exclude@.contains(self.cached_ids@[i]) by {
                            assert(exclude@[0] == book_id);
                        }
                    }
                }
                r
            },
            None => {
                proof {
                    assert(!was_cached);
                }
                let r: Vec<(i64, i64)> = Vec::new();
                r
            },
        }
    }

    /// The mean of the embeddings found for the given items, scaled to unit
    /// length; items without an embedding of the configured dimension are
    /// skipped, and nothing comes back when none is found. An item already
    /// cached with the configured dimension is always found, so a vector is
    /// owed whenever the query names one; the durable tier decides the rest,
    /// and any returned vector is the normalized mean of the well-formed
    /// embeddings of the configured dimension that were found.
    pub fn compute_average_embedding(&mut self, book_ids: &Vec<i64>) -> (r: Option<Vec<i32>>)
        requires
            old(self).wf(),
            book_ids@.len() <= 1_000_000_000,
        ensures
            final(self).wf(),
            final(self).dim == old(self).dim,
            r matches Some(e) ==> (wf_embedding(e@) && e@.len() == final(self).dim),
            r is None <==> found_of(
                final(self).cache@,
                book_ids@,
                final(self).dim as int,
            ).len() == 0,
            r matches Some(e) ==> e@.map_values(|c: i32| c as int) == normalized(
                mean_vector(
                    found_of(final(self).cache@, book_ids@, final(self).dim as int),
                    final(self).dim as int,
                ),
                norm_sq_int(
                    mean_vector(
                        found_of(final(self).cache@, book_ids@, final(self).dim as int),
                        final(self).dim as int,
                    ),
                ),
            ),
            (exists|m: int|
                0 <= m < book_ids@.len() && old(self).cache@.contains_key(
                    #[trigger] book_ids@[m],
                ) && old(self).cache@[book_ids@[m]]@.len() == old(self).dim) ==> r is Some,
    {
        // first pass: warm the cache from the durable tier
        let mut i: usize = 0;
        while i < book_ids.len()
            invariant
                self.wf(),
                self.dim == old(self).dim,
                0 <= i <= book_ids@.len(),
                forall|id: i64| old(self).cache@.contains_key(id) ==> (
                #[trigger] self.cache@.contains_key(id) && self.cache@[id] == old(
                    self,
                ).cache@[id]),
            decreases book_ids@.len() - i,
        {
            let ghost cached_before = self.cache@;
            let _ = self.get_embedding(book_ids[i]);
            proof {
                assert forall|kk: i64| old(self).cache@.contains_key(kk) implies (
                #[trigger] self.cache@.contains_key(kk) && self.cache@[kk] == old(
                    self,
                ).cache@[kk]) by {
                    assert(cached_before.contains_key(kk));
                    assert(cached_before[kk] == old(self).cache@[kk]);
                }
            }
            i = i + 1;
        }

        // second pass: collect exactly what the cache now holds for the ids
        let mut found: Vec<Vec<i32>> = Vec::new();
        let mut j: usize = 0;
        while j < book_ids.len()
            invariant
                self.wf(),
                self.dim == old(self).dim,
                0 <= j <= book_ids@.len(),
                forall|id: i64| old(self).cache@.contains_key(id) ==> (
                #[trigger] self.cache@.contains_key(id) && self.cache@[id] == old(
                    self,
                ).cache@[id]),
                found.deep_view() == found_of(
                    self.cache@,
                    book_ids@.take(j as int),
                    self.dim as int,
                ),
                forall|t: int| 0 <= t < found@.len() ==> (#[trigger] found@[t])@.len()
                    == self.dim,
                forall|t: int| 0 <= t < found@.len() ==> wf_embedding((#[trigger] found@[t])@),
                found@.len() <= j,
            decreases book_ids@.len() - j,
        {
            let id = book_ids[j];
            proof {
                assert(book_ids@.take(j as int + 1).drop_last() =~= book_ids@.take(j as int));
                assert(book_ids@.take(j as int + 1).last() == book_ids@[j as int]);
            }
            let ghost old_dv = found.deep_view();
            match self.cache.get(&id) {
                Some(v) => {
                    if v.len() == self.dim {
                        let copy = copy_components(v);
                        let ghost copied = copy@;
                        found.push(copy);
                        proof {
                            assert(copied == self.cache@[id]@);
                            assert(found.deep_view().len() == found@.len());
                            assert forall|t: int| 0 <= t < found@.len()
                                implies #[trigger] found.deep_view()[t] == found@[t]@ by {}
                            assert(found.deep_view() =~= old_dv.push(self.cache@[id]@));
                            assert(found.deep_view() =~= found_of(
                                self.cache@,
                                book_ids@.take(j as int + 1),
                                self.dim as int,
                            ));
                        }
                    }
                },
                None => {},
            }
            j = j + 1;
        }
        proof {
            assert(book_ids@.take(book_ids@.len() as int) =~= book_ids@);
        }

        if found.len() == 0 {
            proof {
                if exists|m: int|
                    0 <= m < book_ids@.len() && old(self).cache@.contains_key(
                        #[trigger] book_ids@[m],
                    ) && old(self).cache@[book_ids@[m]]@.len() == old(self).dim {
                    let m = choose|m: int|
                        0 <= m < book_ids@.len() && old(self).cache@.contains_key(
                            #[trigger] book_ids@[m],
                        ) && old(self).cache@[book_ids@[m]]@.len() == old(self).dim;
                    assert(self.cache@.contains_key(book_ids@[m]));
                    assert(self.cache@[book_ids@[m]] == old(self).cache@[book_ids@[m]]);
                    lemma_found_of_member(self.cache@, book_ids@, self.dim as int, m);
                }
                assert(found.deep_view().len() == found@.len());
            }
            return None;
        }
        let avg = average_embeddings(&found, self.dim);
        proof {
            let embs = found.deep_view();
            assert(embs.len() == found@.len());
            assert forall|t: int| 0 <= t < embs.len() implies (#[trigger] embs[t]).len()
                == old(self).dim && wf_embedding(embs[t]) by {
                assert(embs[t] == found@[t]@);
            }
        }
        Some(avg)
    }
}

/// Sort similarity pairs by descending similarity. The result holds exactly
/// the same pairs.
fn sort_pairs_desc(input: Vec<(i64, i64)>) -> (r: Vec<(i64, i64)>)
    ensures
        r@.to_multiset() == input@.to_multiset(),
        r@.len() == input@.len(),
        forall|i: int, j: int| 0 <= i < j < r@.len() ==> (#[trigger] r@[i]).1
            >= (#[trigger] r@[j]).1,
{
    broadcast use vstd::multiset::group_multiset_axioms;

    let mut rest = input;
    let mut out: Vec<(i64, i64)> = Vec::new();
    proof {
        assert forall|x: (i64, i64)|
            out@.to_multiset().add(rest@.to_multiset()).count(x) == rest@.to_multiset().count(
                x,
            ) by {
            vstd::seq_lib::to_multiset_contains(out@, x);
        }
        assert(out@.to_multiset().add(rest@.to_multiset()) =~= rest@.to_multiset());
    }
    while rest.len() > 0
        invariant
            out@.to_multiset().add(rest@.to_multiset()) == input@.to_multiset(),
            out@.len() + rest@.len() == input@.len(),
            forall|i: int, j: int| 0 <= i < j < out@.len() ==> (#[trigger] out@[i]).1
                >= (#[trigger] out@[j]).1,
            forall|i: int, j: int| 0 <= i < out@.len() && 0 <= j < rest@.len() ==> (
            #[trigger] out@[i]).1 >= (#[trigger] rest@[j]).1,
        decreases rest@.len(),
    {
        let mut best: usize = 0;
        let mut j: usize = 1;
        while j < rest.len()
            invariant
                best < j <= rest@.len(),
                rest@.len() > 0,
                forall|t: int| 0 <= t < j ==> (#[trigger] rest@[t]).1 <= rest@[best as int].1,
            decreases rest@.len() - j,
        {
            if rest[j].1 > rest[best].1 {
                best = j;
            }
            j = j + 1;
        }
        let ghost old_out = out@;
        let ghost old_rest = rest@;
        let x = rest.remove(best);
        out.push(x);
        proof {
            vstd::seq_lib::to_multiset_remove(old_rest, best as int);
            vstd::seq_lib::to_multiset_build(old_out, x);
            assert(old_rest.contains(x)) by {
                assert(old_rest[best as int] == x);
            }
            vstd::seq_lib::to_multiset_contains(old_rest, x);
            assert(out@.to_multiset().add(rest@.to_multiset()) =~= input@.to_multiset());
        }
    }
    proof {
        vstd::seq_lib::to_multiset_len(out@);
        vstd::seq_lib::to_multiset_len(input@);
        assert(out@.to_multiset().add(rest@.to_multiset()) =~= out@.to_multiset());
    }
    out
}

/// Whatever holds of each pair of a list holds of each pair of a
/// rearrangement of it.
proof fn lemma_pair_permutation_members(a: Seq<(i64, i64)>, b: Seq<(i64, i64)>)
    requires
        a.to_multiset() == b.to_multiset(),
    ensures
        forall|k: int| 0 <= k < a.len() ==> b.contains(#[trigger] a[k]),
{
    assert forall|k: int| 0 <= k < a.len() implies b.contains(a[k]) by {
        assert(a.contains(a[k]));
        vstd::seq_lib::to_multiset_contains(a, a[k]);
        vstd::seq_lib::to_multiset_contains(b, a[k]);
    }
}

} // verus!
