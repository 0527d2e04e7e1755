//! What goes into clustering and what comes out of it.
use vstd::prelude::*;
use crate::single::Single;

verus! {

/// How vectors of a field are compared.
#[derive(Clone, Copy, Debug, PartialEq, Eq, Structural)]
pub enum Metric {
    /// Euclidean distance.
    L2,
    /// The angle between vectors; stored vectors have unit length.
    Cosine,
    /// The inner product of raw vectors.
    Dot,
}

/// What a vector field is declared as.
#[derive(Clone, Copy, Debug)]
pub struct VectorOptions {
    pub dim: usize,
    pub metric: Metric,
}

/// A matrix, stored row after row.
#[derive(Clone, Debug)]
pub struct IvfMatrix {
    pub values: Vec<Single>,
    pub rows: usize,
    pub dims: usize,
}

/// Vectors, and the documents that they are of.
#[derive(Clone, Debug)]
pub struct IvfVectors {
    pub doc_ids: Vec<u32>,
    pub matrix: IvfMatrix,
}

/// The clusters of a vector.
#[derive(Clone, Debug)]
pub struct Assignment {
    /// The cluster that the vector belongs to.
    pub primary: u32,
    /// The clusters that it is replicated into.
    pub replicas: Vec<u32>,
}

impl Assignment {
    /// An assignment without replicas.
    pub fn primary_only(primary: u32) -> (assignment: Assignment)
        ensures
            assignment.primary == primary,
            assignment.replicas@ == Seq::<u32>::empty(),
    {
        Assignment { primary, replicas: Vec::new() }
    }
}

/// How the clustering algorithm is to run.
#[derive(Clone, Copy, Debug, PartialEq, Eq, Structural)]
pub struct ClusteringConfig {
    pub suppress_warnings: bool,
    /// The share of the given vectors to train on.
    pub sampling_fraction: Single,
    /// Whether vectors are compared by their angle.
    pub angular: bool,
}

/// What the clustering algorithm is asked to do.
#[derive(Clone, Copy, Debug, PartialEq, Eq, Structural)]
pub struct ClusteringJob {
    pub num_clusters: usize,
    pub dim: usize,
    pub config: ClusteringConfig,
}

/// The parameters of a merge.
#[derive(Clone, Copy, Debug, PartialEq, Eq, Structural)]
pub struct IvfMergeSettings {
    pub num_centroids: usize,
    pub training_samples_per_centroid: usize,
    pub assign_batch_size: usize,
    pub max_posting_len: usize,
    pub min_posting_len: usize,
    pub max_replicas_per_vector: usize,
    pub max_replicas_per_cluster: usize,
    pub replica_epsilon: Single,
}

/// What an index sets of a clusterer.
#[derive(Clone, Copy, Debug)]
pub struct IndexOptions {
    pub centroid_ratio: Single,
    pub training_samples_per_centroid: usize,
    pub max_posting_len: Option<usize>,
    pub min_posting_len: Option<usize>,
    pub max_replicas_per_vector: Option<usize>,
    pub max_replicas_per_cluster: Option<usize>,
    pub replica_epsilon: Option<Single>,
}

} // verus!
