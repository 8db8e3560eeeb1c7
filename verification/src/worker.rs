//! Background-work rules: the job vocabulary, the worker's pacing
//! configuration, the text-change fingerprint, and the pure planning step
//! that turns similarity results into edge rows to persist. The loop that
//! performs the jobs does input/output and lives with the caller.

use vstd::prelude::*;
use std::collections::hash_map::DefaultHasher;
use std::hash::Hasher;
use vstd::std_specs::hash::DefaultHasherAdditionalSpecFns;
use vstd::string::StringSliceAdditionalSpecFns;
use crate::SCALE;
use crate::catalog::Book;
use crate::fusion::{fused_edges, compute_all_edge_weights, EdgeKind, CONTENT_SIM_MIN};

verus! {

/// A unit of background work.
pub enum BackgroundJob {
    /// Scan a library for new books.
    ScanLibrary { library_id: i64 },
    /// Generate the embedding of one item.
    GenerateEmbedding { book_id: i64, priority: i32 },
    /// Recompute the graph edges of one item.
    UpdateGraphEdges { book_id: i64 },
    /// Stop all background processing.
    Shutdown,
}

/// Pacing of the background worker.
pub struct WorkerConfig {
    /// Minimum delay between jobs, in milliseconds.
    pub job_delay_ms: u64,
    /// Greatest number of retries for a failed job.
    pub max_retries: u32,
    /// Batch size for edge computation.
    pub edge_batch_size: usize,
}

impl Default for WorkerConfig {
    /// A tenth of a second between jobs, three retries, batches of one
    /// hundred.
    fn default() -> (r: Self)
        ensures
            r.job_delay_ms == 100,
            r.max_retries == 3,
            r.edge_batch_size == 100,
    {
        WorkerConfig { job_delay_ms: 100, max_retries: 3, edge_batch_size: 100 }
    }
}

/// Fingerprint a text for change detection: the standard hasher over the
/// text's bytes. Deterministic within one process: equal texts get equal
/// fingerprints.
pub fn md5_hash(text: &str) -> (r: u128)
    ensures
        r == DefaultHasher::spec_finish(seq![text.spec_bytes()]) as u128,
{
    let mut hasher = DefaultHasher::new();
    hasher.write(text.as_bytes());
    let h = hasher.finish();
    proof {
        assert(hasher@ =~= seq![text.spec_bytes()]);
    }
    h as u128
}

/// The edge rows planned for a source item from its similarity results: for
/// each sufficiently similar target, every fused edge heavy enough to
/// persist.
pub open spec fn planned_edges(
    source: &Book,
    source_id: i64,
    targets: Seq<(i64, i64, Book)>,
) -> Seq<(i64, i64, u64, EdgeKind)>
    decreases targets.len(),
{
    if targets.len() == 0 {
        Seq::<(i64, i64, u64, EdgeKind)>::empty()
    } else {
        let rest = planned_edges(source, source_id, targets.drop_last());
        let t = targets.last();
        if t.1 >= CONTENT_SIM_MIN {
            rest + kept_fused(source, source_id, t.0, &t.2, t.1)
        } else {
            rest
        }
    }
}

/// The fused edges of one pair that are heavy enough to persist.
pub open spec fn kept_fused(source: &Book, source_id: i64, target_id: i64, target: &Book, sim: i64)
    -> Seq<(i64, i64, u64, EdgeKind)> {
    kept_rows(fused_edges(source, target, Some(sim)), source_id, target_id)
}

/// The rows of a fused edge list at or above the persistence threshold.
pub open spec fn kept_rows(edges: Seq<(u64, EdgeKind)>, source_id: i64, target_id: i64) -> Seq<
    (i64, i64, u64, EdgeKind),
>
    decreases edges.len(),
{
    if edges.len() == 0 {
        Seq::<(i64, i64, u64, EdgeKind)>::empty()
    } else {
        let rest = kept_rows(edges.drop_last(), source_id, target_id);
        let e = edges.last();
        if e.0 >= CONTENT_SIM_MIN as u64 {
            rest.push((source_id, target_id, e.0, e.1))
        } else {
            rest
        }
    }
}

/// Plan the edge rows to persist for a source item given its similarity
/// results: targets below the similarity threshold are skipped, every fused
/// edge of a kept target at or above the threshold becomes a row.
pub fn plan_edge_inserts(
    source: &Book,
    source_id: i64,
    targets: &Vec<(i64, i64, Book)>,
) -> (r: Vec<(i64, i64, u64, EdgeKind)>)
    ensures
        r@ == planned_edges(source, source_id, targets@),
{
    let mut rows: Vec<(i64, i64, u64, EdgeKind)> = Vec::new();
    let mut i: usize = 0;
    while i < targets.len()
        invariant
            0 <= i <= targets@.len(),
            rows@ == planned_edges(source, source_id, targets@.take(i as int)),
        decreases targets@.len() - i,
    {
        let (target_id, sim, target) = &targets[i];
        let tid: i64 = *target_id;
        let sv: i64 = *sim;
        proof {
            assert(targets@.take(i as int + 1).drop_last() =~= targets@.take(i as int));
            assert(targets@.take(i as int + 1).last() == targets@[i as int]);
        }
        if sv >= CONTENT_SIM_MIN {
            let all = compute_all_edge_weights(source, target, Some(sv));
            let ghost base = rows@;
            let mut j: usize = 0;
            while j < all.len()
                invariant
                    0 <= j <= all@.len(),
                    rows@ == base + kept_rows(all@.take(j as int), source_id, tid),
                decreases all@.len() - j,
            {
                let (w, kind) = all[j];
                proof {
                    assert(all@.take(j as int + 1).drop_last() =~= all@.take(j as int));
                    assert(all@.take(j as int + 1).last() == all@[j as int]);
                }
                if w >= CONTENT_SIM_MIN as u64 {
                    rows.push((source_id, tid, w, kind));
                }
                j = j + 1;
            }
            proof {
                assert(all@.take(all@.len() as int) =~= all@);
                assert(target == &targets@[i as int].2);
                assert(rows@ == base + kept_fused(
                    source,
                    source_id,
                    targets@[i as int].0,
                    &targets@[i as int].2,
                    targets@[i as int].1,
                ));
            }
        }
        i = i + 1;
    }
    proof {
        assert(targets@.take(targets@.len() as int) =~= targets@);
    }
    rows
}

} // verus!
