//! Personal-library recommendation engine.
//!
//! A catalog of items (books) carries text embeddings and pairwise
//! relationship signals. The crate builds an in-memory weighted similarity
//! graph over item identifiers, expands candidates across bounded hops,
//! scores global relevance with personalized PageRank, and re-ranks for
//! diversity with maximal marginal relevance. A vector store persists
//! embeddings, caches them in memory, and answers nearest-neighbour queries
//! that seed the graph.
//!
//! Scores, edge weights and similarities all live in the closed interval
//! zero to one. They are held as fixed-point integers: the value one is
//! `SCALE`, so one unit is a millionth. Embedding components are fixed-point
//! `i32` values in the same scale.

use vstd::prelude::*;

pub mod calibre;
pub mod catalog;
pub mod codec;
pub mod dto;
pub mod embedding;
pub mod fusion;
pub mod graph;
pub mod mmr;
pub mod pagerank;
pub mod recommend;
pub mod regex_lite;
pub mod scanner;
pub mod store;
pub mod text;
pub mod traverse;
pub mod watcher;
pub mod worker;

verus! {

/// Fixed-point scale: the integer that stands for the real value 1.0.
pub const SCALE: u64 = 1_000_000;

/// Application-wide error type.
#[derive(Debug, Clone)]
pub enum AppError {
    /// An embedding had a different dimension than the store is configured for.
    DimensionMismatch,
    /// A durable storage operation failed; the message comes from the backend.
    Storage(String),
    /// The embedding provider failed or timed out; never retried here.
    Provider(String),
    /// A requested item was absent where absence is exceptional.
    NotFound,
    /// An input value was malformed.
    InvalidInput,
}

impl AppError {
    /// A short human-readable label for the error kind.
    pub fn describe(&self) -> (r: String)
        ensures
            r@ == self.describe_spec(),
    {
        match self {
            AppError::DimensionMismatch => "dimension mismatch".to_owned(),
            AppError::Storage(m) => m.clone(),
            AppError::Provider(m) => m.clone(),
            AppError::NotFound => "not found".to_owned(),
            AppError::InvalidInput => "invalid input".to_owned(),
        }
    }

    /// What `describe` returns.
    pub open spec fn describe_spec(&self) -> Seq<char> {
        match self {
            AppError::DimensionMismatch => "dimension mismatch"@,
            AppError::Storage(m) => m@,
            AppError::Provider(m) => m@,
            AppError::NotFound => "not found"@,
            AppError::InvalidInput => "invalid input"@,
        }
    }
}

/// Result type used by storage-backed operations.
pub type AppResult<T> = Result<T, AppError>;

/// The fixed-point product of two scores: `a * b / SCALE`, rounded down.
pub open spec fn mul_fp_spec(a: int, b: int) -> int {
    a * b / (SCALE as int)
}

/// The product of two scores in the unit interval stays in it, below both.
pub proof fn lemma_mul_fp_bounds(a: int, b: int)
    requires
        0 <= a <= SCALE as int,
        0 <= b <= SCALE as int,
    ensures
        0 <= mul_fp_spec(a, b) <= a,
        mul_fp_spec(a, b) <= b,
{
    assert(0 <= a * b && a * b <= a * (SCALE as int) && a * b <= b * (SCALE as int))
        by (nonlinear_arith)
        requires
            0 <= a <= SCALE as int,
            0 <= b <= SCALE as int,
    ;
    vstd::arithmetic::div_mod::lemma_div_is_ordered(a * b, a * (SCALE as int), SCALE as int);
    vstd::arithmetic::div_mod::lemma_div_is_ordered(a * b, b * (SCALE as int), SCALE as int);
    vstd::arithmetic::div_mod::lemma_div_by_multiple(a, SCALE as int);
    vstd::arithmetic::div_mod::lemma_div_by_multiple(b, SCALE as int);
    vstd::arithmetic::div_mod::lemma_div_pos_is_pos(a * b, SCALE as int);
}

/// Compute the fixed-point product of two scores.
pub fn mul_fp(a: u64, b: u64) -> (r: u64)
    requires
        a <= SCALE,
        b <= SCALE,
    ensures
        r == mul_fp_spec(a as int, b as int),
        r <= a,
        r <= b,
{
    proof {
        lemma_mul_fp_bounds(a as int, b as int);
    }
    let p = (a as u128) * (b as u128);
    (p / (SCALE as u128)) as u64
}

} // verus!
