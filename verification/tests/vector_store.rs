//! Tests for cosine similarity, the byte codec and the vector store.

use epubgraph::codec::{deserialize_embedding, serialize_embedding};
use epubgraph::embedding::{average_embeddings, cosine_similarity};
use epubgraph::store::{VectorStore, EMBEDDING_DIM};
use epubgraph::{AppError, SCALE};

#[test]
fn test_cosine_similarity() {
    let a = vec![1_000_000, 0, 0];
    let b = vec![1_000_000, 0, 0];
    assert_eq!(cosine_similarity(&a, &b), SCALE as i64);

    let c = vec![0, 1_000_000, 0];
    assert_eq!(cosine_similarity(&a, &c), 0);

    let d = vec![-1_000_000, 0, 0];
    assert_eq!(cosine_similarity(&a, &d), -(SCALE as i64));
}

#[test]
fn test_cosine_similarity_self_is_one_for_any_nonzero() {
    let a = vec![123_456, -654_321, 42];
    assert_eq!(cosine_similarity(&a, &a), SCALE as i64);
}

#[test]
fn test_cosine_similarity_degenerate_inputs() {
    // mismatched lengths
    assert_eq!(cosine_similarity(&vec![1_000_000], &vec![1_000_000, 0]), 0);
    // a zero vector
    assert_eq!(cosine_similarity(&vec![0, 0], &vec![1_000_000, 0]), 0);
}

#[test]
fn test_serialization() {
    let original = vec![1_000_000, 2_000_000, 3_000_000, -4_500_000];
    let bytes = serialize_embedding(&original);
    assert_eq!(bytes.len(), 16);
    let restored = deserialize_embedding(&bytes).unwrap();
    assert_eq!(original, restored);
}

#[test]
fn test_serialization_is_little_endian() {
    let one = vec![1i32];
    let bytes = serialize_embedding(&one);
    assert_eq!(bytes, vec![1, 0, 0, 0]);
    let neg = vec![-1i32];
    assert_eq!(serialize_embedding(&neg), vec![0xFF, 0xFF, 0xFF, 0xFF]);
}

#[test]
fn test_deserialization_fails_only_on_misaligned_length() {
    // not a whole number of components
    let r = deserialize_embedding(&vec![1, 2, 3]);
    assert!(matches!(r, Err(AppError::InvalidInput)));
    // any whole number of four-byte groups decodes, to the exact components
    let extreme = vec![0xFF, 0xFF, 0xFF, 0x7F];
    assert_eq!(deserialize_embedding(&extreme).unwrap(), vec![i32::MAX]);
}

fn unit_vector(hot: usize) -> Vec<i32> {
    let mut v = vec![0i32; EMBEDDING_DIM];
    v[hot] = SCALE as i32;
    v
}

#[test]
fn test_store_then_get_returns_exact_vector() {
    let dir = tempfile::tempdir().unwrap();
    let path = dir.path().join("vectors.db");
    let path = path.to_string_lossy().to_string();
    let mut store = VectorStore::new(&path).unwrap();

    let v = unit_vector(3);
    store.store_embedding(7, &v, "test-model", Some("hash")).unwrap();
    assert_eq!(store.get_embedding(7), Some(v.clone()));

    // the value survives in the durable tier: a fresh store reads it back
    let mut fresh = VectorStore::new(&path).unwrap();
    assert_eq!(fresh.get_embedding(7), Some(v));
    assert!(fresh.has_embedding(7));
    assert!(!fresh.has_embedding(8));
}

#[test]
fn test_store_wrong_dimension_fails_without_mutating() {
    let dir = tempfile::tempdir().unwrap();
    let path = dir.path().join("vectors.db").to_string_lossy().to_string();
    let mut store = VectorStore::new(&path).unwrap();

    let good = unit_vector(0);
    store.store_embedding(1, &good, "m", None).unwrap();

    let bad = vec![0i32; 3];
    let r = store.store_embedding(1, &bad, "m", None);
    assert!(matches!(r, Err(AppError::DimensionMismatch)));
    // the prior value is untouched
    assert_eq!(store.get_embedding(1), Some(good));
}

#[test]
fn test_find_similar_ordering_exclusion_and_cap() {
    let dir = tempfile::tempdir().unwrap();
    let path = dir.path().join("vectors.db").to_string_lossy().to_string();
    let mut store = VectorStore::new(&path).unwrap();

    // three vectors with decreasing similarity to the query, one excluded
    let query = unit_vector(0);
    let mut close = unit_vector(0);
    close[1] = 500_000;
    let mut mid = unit_vector(0);
    mid[1] = 1_000_000;
    let far = unit_vector(5);
    store.store_embedding(1, &close, "m", None).unwrap();
    store.store_embedding(2, &mid, "m", None).unwrap();
    store.store_embedding(3, &far, "m", None).unwrap();
    store.store_embedding(4, &query, "m", None).unwrap();

    let found = store.find_similar(&query, 2, &vec![4]);
    assert_eq!(found.len(), 2);
    assert!(!found.iter().any(|p| p.0 == 4));
    assert!(found[0].1 >= found[1].1);
    assert_eq!(found[0].0, 1);
    assert_eq!(found[1].0, 2);

    let to_item = store.find_similar_to_book(4, 10);
    assert!(!to_item.iter().any(|p| p.0 == 4));
    assert_eq!(to_item[0].0, 1);
}

#[test]
fn test_delete_and_clear() {
    let dir = tempfile::tempdir().unwrap();
    let path = dir.path().join("vectors.db").to_string_lossy().to_string();
    let mut store = VectorStore::new(&path).unwrap();

    store.store_embedding(1, &unit_vector(0), "m", None).unwrap();
    store.store_embedding(2, &unit_vector(1), "m", None).unwrap();
    assert_eq!(store.count().unwrap(), 2);

    store.delete_embedding(1).unwrap();
    assert_eq!(store.get_embedding(1), None);
    assert_eq!(store.count().unwrap(), 1);

    let removed = store.clear_all().unwrap();
    assert_eq!(removed, 1);
    assert_eq!(store.count().unwrap(), 0);
    assert_eq!(store.get_embedding(2), None);
}

#[test]
fn test_load_cache_counts_rows() {
    let dir = tempfile::tempdir().unwrap();
    let path = dir.path().join("vectors.db").to_string_lossy().to_string();
    {
        let mut store = VectorStore::new(&path).unwrap();
        store.store_embedding(1, &unit_vector(0), "m", None).unwrap();
        store.store_embedding(2, &unit_vector(1), "m", None).unwrap();
    }
    let mut fresh = VectorStore::new(&path).unwrap();
    assert_eq!(fresh.load_cache().unwrap(), 2);
}

#[test]
fn test_compute_average_embedding() {
    let dir = tempfile::tempdir().unwrap();
    let path = dir.path().join("vectors.db").to_string_lossy().to_string();
    let mut store = VectorStore::new(&path).unwrap();

    store.store_embedding(1, &unit_vector(0), "m", None).unwrap();
    store.store_embedding(2, &unit_vector(1), "m", None).unwrap();

    // ids without an embedding are skipped; none found gives nothing
    assert!(store.compute_average_embedding(&vec![99]).is_none());

    let avg = store.compute_average_embedding(&vec![1, 2, 99]).unwrap();
    assert_eq!(avg.len(), EMBEDDING_DIM);
    // the mean of two orthogonal unit vectors, scaled back to unit length:
    // both hot components end up equal and large, the rest zero
    assert_eq!(avg[0], avg[1]);
    assert!(avg[0] > 700_000 - 10_000 && avg[0] <= 710_000);
    assert!(avg[2] == 0);
}

#[test]
fn test_average_embeddings_direct() {
    // the mean of identical vectors, normalized, keeps the direction
    let v = vec![600_000i32, 800_000, 0];
    let avg = average_embeddings(&vec![v.clone(), v.clone()], 3);
    // the norm of (0.6, 0.8) is one, so normalization is near-identity
    assert!((avg[0] - 600_000).abs() <= 2);
    assert!((avg[1] - 800_000).abs() <= 2);
    assert_eq!(avg[2], 0);
}

#[test]
fn test_storage_failure_surfaces() {
    // an unusable database path: the durable tier refuses, the error names it
    let r = VectorStore::new("/nonexistent_dir_zzz/sub/vectors.db");
    match r {
        Err(AppError::Storage(_)) => {}
        _ => panic!("expected a storage error"),
    }
}

#[test]
fn test_error_descriptions() {
    assert_eq!(AppError::DimensionMismatch.describe(), "dimension mismatch");
    assert_eq!(AppError::NotFound.describe(), "not found");
    assert_eq!(AppError::InvalidInput.describe(), "invalid input");
    assert_eq!(AppError::Storage("disk full".to_string()).describe(), "disk full");
    assert_eq!(AppError::Provider("timeout".to_string()).describe(), "timeout");
}
