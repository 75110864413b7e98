//! What the processes of a parallel build share, apart from queues and assignments.
use vstd::prelude::*;

verus! {

pub const SHM_TOC_SHARED_KEY: u64 = 0xD000000000000001;

pub const SHM_TOC_TABLESCANDESC_KEY: u64 = 0xD000000000000002;

pub const SHM_TOC_CLUSTER_QUEUES_KEY: u64 = 0xD000000000000003;

pub const SHM_TOC_CENTROIDS_KEY: u64 = 0xD000000000000004;

pub const SHM_TOC_CLUSTER_START_NODES_KEY: u64 = 0xD000000000000005;

pub const SHM_TOC_CLUSTER_SIZES_KEY: u64 = 0xD000000000000006;

pub const SHM_TOC_WORKER_ASSIGNMENTS_KEY: u64 = 0xD000000000000007;

/// How vectors are stored in an index.
#[derive(Clone, Copy, Debug, PartialEq, Eq, Structural)]
pub enum StorageType {
    Plain,
    SbqCompression,
}

/// What a build was started with. Relations are known by their object identifiers.
#[derive(Clone, Copy, Debug, PartialEq, Eq, Structural)]
pub struct ParallelSharedParams {
    pub heaprelid: u32,
    pub indexrelid: u32,
    pub is_concurrent: bool,
    pub num_clusters: usize,
    pub total_vectors: usize,
    pub num_dimensions: usize,
    pub queue_capacity: usize,
}

/// How far a build has come, as one process sees it.
#[derive(Clone, Copy, Debug, PartialEq, Eq, Structural)]
pub struct ParallelBuildState {
    pub producer_done: bool,
    pub producer_ntuples: usize,
    pub consumers_finished: usize,
    pub start_nodes_initialized: bool,
    /// Flag indicating worker assignments are ready
    pub assignments_ready: bool,
}

impl ParallelBuildState {
    /// Nothing has happened yet.
    pub fn new() -> (r: ParallelBuildState)
        ensures
            r == (ParallelBuildState {
                producer_done: false,
                producer_ntuples: 0,
                consumers_finished: 0,
                start_nodes_initialized: false,
                assignments_ready: false,
            }),
    {
        ParallelBuildState {
            producer_done: false,
            producer_ntuples: 0,
            consumers_finished: 0,
            start_nodes_initialized: false,
            assignments_ready: false,
        }
    }
}

#[derive(Clone, Copy, Debug, PartialEq, Eq, Structural)]
pub struct ParallelShared {
    pub params: ParallelSharedParams,
    pub build_state: ParallelBuildState,
}

/// The room asked for in a shared memory segment, and how many parts it will have.
#[derive(Clone, Copy, Debug, PartialEq, Eq, Structural)]
pub struct TocEstimator {
    pub space_for_chunks: usize,
    pub number_of_keys: usize,
}

/// Asks for room for one more part, whose size is already aligned.
pub fn toc_estimate_single_chunk(estimator: &mut TocEstimator, aligned_size: usize)
    requires
        old(estimator).space_for_chunks + aligned_size <= usize::MAX,
        old(estimator).number_of_keys < usize::MAX,
    ensures
        final(estimator).space_for_chunks == old(estimator).space_for_chunks + aligned_size,
        final(estimator).number_of_keys == old(estimator).number_of_keys + 1,
{
    estimator.space_for_chunks = estimator.space_for_chunks + aligned_size;
    estimator.number_of_keys = estimator.number_of_keys + 1;
}

} // verus!
