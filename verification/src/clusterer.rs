//! The clusterer of an inverted-file vector index.
use vstd::prelude::*;
use std::sync::Arc;
use crate::arithmetic::{apply, distance, has_row, is_arithmetic, results, row, row_of};
use crate::arithmetic::{squared_distance, Arithmetic, Op, Results};
use crate::arithmetic::lemma_matrix_has_row;
use crate::cache::{builds_table, empty_slot, is_left_with, is_usual_cap, table_for, HeldSlot};
use crate::cache::TableSlot;
use crate::errors::{ClusterError, KMeansError};
use crate::exactness::{law_neighbor_list, law_pruning_changes_nothing, pruning_is_always_safe};
use crate::fingerprint::fingerprint_of;
use crate::neighbors::{distances_from_row, neighbor_list, CentroidNeighbors, MAX_CENTROIDS};
use crate::ratio::{centroid_count, num_centroids};
use crate::replicas::{full_scan_replicas, indices, is_certified, listed_replicas};
use crate::replicas::{replicas_full_scan, replicas_pruned};
use crate::single::{Single, ONE_BITS, ZERO_BITS};
use crate::types::{Assignment, ClusteringConfig, ClusteringJob, IndexOptions, IvfMatrix};
use crate::types::{IvfMergeSettings, IvfVectors, Metric, VectorOptions};

verus! {

/// How many vectors are assigned at a time by default.
pub const DEFAULT_ASSIGN_BATCH_SIZE: usize = 40_960;

/// Boundary replication is on by default: where `max_replicas_per_vector` is
/// unset, a vector replicates into up to this many neighbor clusters. Set it to
/// zero to turn replication off.
pub const DEFAULT_MAX_REPLICAS_PER_VECTOR: usize = 8;

/// The bit pattern of the closure factor for boundary replication where it is
/// unset: `3.0`.
pub const DEFAULT_REPLICA_EPSILON_BITS: u32 = 0x4040_0000;

/// The bit pattern of the default centroid ratio: `0.01`.
pub const DEFAULT_CENTROID_RATIO_BITS: u32 = 0x3c23_d70a;

/// The settings of a clusterer.
#[derive(Clone, Copy, Debug)]
pub struct ClustererSettings {
    pub config: ClusteringConfig,
    /// Centroids per document.
    pub centroid_ratio: Single,
    pub training_samples_per_centroid: usize,
    pub assign_batch_size: usize,
    /// Hard cap on primary cluster size; unset, four times the mean.
    pub max_posting_len: Option<usize>,
    /// Floor on primary cluster size; unset, a quarter of the mean.
    pub min_posting_len: Option<usize>,
    /// Most clusters that a boundary vector replicates into; unset, the default.
    /// Zero turns replication off.
    pub max_replicas_per_vector: Option<usize>,
    /// Replica budget per cluster; unset, half the cap on its size.
    pub max_replicas_per_cluster: Option<usize>,
    /// Closure factor for replica candidates; unset, the default.
    pub replica_epsilon: Option<Single>,
}

/// Clusters the vectors of an index, by the arithmetic `A`.
#[derive(Debug)]
#[verifier::reject_recursive_types(A)]
pub struct SuperKMeansIvfClusterer<A: Arithmetic> {
    settings: ClustererSettings,
    neighbor_cache: TableSlot<A>,
}

/// The settings of a new clusterer.
pub open spec fn default_settings() -> ClustererSettings {
    ClustererSettings {
        config: ClusteringConfig {
            suppress_warnings: true,
            sampling_fraction: Single { bits: ONE_BITS },
            angular: false,
        },
        centroid_ratio: Single { bits: DEFAULT_CENTROID_RATIO_BITS },
        training_samples_per_centroid: 32,
        assign_batch_size: DEFAULT_ASSIGN_BATCH_SIZE,
        max_posting_len: None,
        min_posting_len: None,
        max_replicas_per_vector: None,
        max_replicas_per_cluster: None,
        replica_epsilon: None,
    }
}

impl ClustererSettings {
    /// The cap on a vector's replicas.
    pub open spec fn replica_cap(self) -> usize {
        match self.max_replicas_per_vector {
            Some(max) => max,
            None => DEFAULT_MAX_REPLICAS_PER_VECTOR,
        }
    }

    /// The closure factor for replica candidates.
    pub open spec fn epsilon(self) -> Single {
        match self.replica_epsilon {
            Some(epsilon) => epsilon,
            None => Single { bits: DEFAULT_REPLICA_EPSILON_BITS },
        }
    }

    /// Whether the settings are ones that a merge can go by.
    pub open spec fn allow_merge(self) -> bool {
        &&& Single { bits: ZERO_BITS }.is_below(self.centroid_ratio)
        &&& self.centroid_ratio.is_at_most(Single { bits: ONE_BITS })
        &&& self.training_samples_per_centroid > 1
        &&& self.assign_batch_size > 0
    }

    /// The mean number of documents per centroid, but at least one.
    pub open spec fn mean_posting_len(self, total: nat) -> nat {
        let mean = total / centroid_count(total, self.centroid_ratio);
        if mean < 1 {
            1
        } else {
            mean
        }
    }

    /// The cap on cluster size: as set, or four times the mean as far as a machine
    /// word goes.
    pub open spec fn posting_cap(self, total: nat) -> int {
        match self.max_posting_len {
            Some(max) => max as int,
            None => if 4 * self.mean_posting_len(total) > usize::MAX {
                usize::MAX as int
            } else {
                4 * self.mean_posting_len(total) as int
            },
        }
    }

    /// The floor on cluster size: as set, or a quarter of the mean but at least one.
    pub open spec fn posting_floor(self, total: nat) -> int {
        match self.min_posting_len {
            Some(min) => min as int,
            None => at_least_one(self.mean_posting_len(total) / 4),
        }
    }

    /// The replica budget of a cluster: as set, or half the cap on its size but
    /// at least one.
    pub open spec fn cluster_replica_cap(self, total: nat) -> int {
        match self.max_replicas_per_cluster {
            Some(max) => max as int,
            None => at_least_one((self.posting_cap(total) / 2) as nat),
        }
    }

    /// The configuration for a metric: cosine and inner product go by the angle.
    pub open spec fn config_for(self, metric: Metric) -> ClusteringConfig {
        ClusteringConfig {
            angular: self.config.angular || metric == Metric::Cosine || metric == Metric::Dot,
            ..self.config
        }
    }

    /// Whether these are the parameters of a merge.
    pub open spec fn are_merge_settings(self, total: nat, merge: IvfMergeSettings) -> bool {
        &&& merge.num_centroids == centroid_count(total, self.centroid_ratio)
        &&& merge.training_samples_per_centroid == self.training_samples_per_centroid
        &&& merge.assign_batch_size == self.assign_batch_size
        &&& merge.max_posting_len == self.posting_cap(total)
        &&& merge.min_posting_len == self.posting_floor(total)
        &&& merge.max_replicas_per_vector == self.replica_cap()
        &&& merge.max_replicas_per_cluster == self.cluster_replica_cap(total)
        &&& merge.replica_epsilon == self.epsilon()
    }

    /// What the clustering algorithm is set up for.
    pub open spec fn job(self, num_clusters: usize, options: VectorOptions) -> ClusteringJob {
        ClusteringJob {
            num_clusters,
            dim: options.dim,
            config: self.config_for(options.metric),
        }
    }
}

/// The number, but at least one.
pub open spec fn at_least_one(n: nat) -> int {
    if n < 1 {
        1
    } else {
        n as int
    }
}

/// What is wrong with vectors, if anything is.
pub open spec fn vector_problem(options: VectorOptions, vectors: IvfVectors) -> Option<ClusterError> {
    let matrix = vectors.matrix;
    if matrix.dims != options.dim {
        Some(ClusterError::VectorDims { expected: options.dim, got: matrix.dims })
    } else if vectors.doc_ids.len() != matrix.rows {
        Some(
            ClusterError::DocIdCount { expected: matrix.rows, got: vectors.doc_ids@.len() as usize },
        )
    } else if matrix.values@.len() != matrix.rows * options.dim {
        Some(
            ClusterError::VectorValueCount {
                expected: (matrix.rows * options.dim) as usize,
                got: matrix.values@.len() as usize,
            },
        )
    } else {
        None
    }
}

/// What is wrong with centroids, if anything is.
pub open spec fn centroid_problem(options: VectorOptions, centroids: IvfMatrix) -> Option<ClusterError> {
    if centroids.rows == 0 {
        Some(ClusterError::NoCentroids)
    } else if centroids.dims != options.dim {
        Some(ClusterError::CentroidDims { expected: options.dim, got: centroids.dims })
    } else if centroids.values@.len() != centroids.rows * options.dim {
        Some(
            ClusterError::CentroidValueCount {
                expected: (centroids.rows * options.dim) as usize,
                got: centroids.values@.len() as usize,
            },
        )
    } else {
        None
    }
}

/// What is wrong with the arguments of an assignment: with the vectors, or else
/// with the centroids.
pub open spec fn assignment_problem(
    options: VectorOptions,
    vectors: IvfVectors,
    centroids: IvfMatrix,
) -> Option<ClusterError> {
    match vector_problem(options, vectors) {
        Some(problem) => Some(problem),
        None => centroid_problem(options, centroids),
    }
}

/// Whether the number of values that a matrix should have can be counted.
pub open spec fn is_countable(rows: usize, dim: usize) -> bool {
    rows * dim <= usize::MAX
}

fn check_vectors(options: &VectorOptions, vectors: &IvfVectors) -> (r: Result<(), ClusterError>)
    requires
        vectors.matrix.dims == options.dim && vectors.doc_ids.len() == vectors.matrix.rows
            ==> is_countable(vectors.matrix.rows, options.dim),
    ensures
        match vector_problem(*options, *vectors) {
            Some(problem) => r == Err::<(), ClusterError>(problem),
            None => r is Ok,
        },
{
    let dim: usize = options.dim;
    if vectors.matrix.dims != dim {
        return Err(ClusterError::VectorDims { expected: dim, got: vectors.matrix.dims });
    }
    if vectors.doc_ids.len() != vectors.matrix.rows {
        return Err(
            ClusterError::DocIdCount { expected: vectors.matrix.rows, got: vectors.doc_ids.len() },
        );
    }
    let expected: usize = vectors.matrix.rows * dim;
    if vectors.matrix.values.len() != expected {
        return Err(
            ClusterError::VectorValueCount { expected, got: vectors.matrix.values.len() },
        );
    }
    Ok(())
}

fn check_centroids(options: &VectorOptions, centroids: &IvfMatrix) -> (r: Result<(), ClusterError>)
    requires
        centroids.rows != 0 && centroids.dims == options.dim ==> is_countable(
            centroids.rows,
            options.dim,
        ),
    ensures
        match centroid_problem(*options, *centroids) {
            Some(problem) => r == Err::<(), ClusterError>(problem),
            None => r is Ok,
        },
{
    let dim: usize = options.dim;
    if centroids.rows == 0 {
        return Err(ClusterError::NoCentroids);
    }
    if centroids.dims != dim {
        return Err(ClusterError::CentroidDims { expected: dim, got: centroids.dims });
    }
    let expected: usize = centroids.rows * dim;
    if centroids.values.len() != expected {
        return Err(ClusterError::CentroidValueCount { expected, got: centroids.values.len() });
    }
    Ok(())
}

/// Whether `r` is what training gives when the algorithm came to `outcome`: its
/// error, or the centroids if their number is right.
pub open spec fn is_trained(
    outcome: Result<Vec<Single>, KMeansError>,
    num_centroids: usize,
    dim: usize,
    r: Result<IvfMatrix, ClusterError>,
) -> bool {
    match outcome {
        Err(error) => r == Err::<IvfMatrix, ClusterError>(ClusterError::Clustering(error)),
        Ok(values) => if values@.len() != num_centroids * dim {
            r == Err::<IvfMatrix, ClusterError>(
                ClusterError::TrainedValueCount {
                    expected: (num_centroids * dim) as usize,
                    got: values@.len() as usize,
                },
            )
        } else {
            r == Ok::<IvfMatrix, ClusterError>(IvfMatrix { values, rows: num_centroids, dims: dim })
        },
    }
}

/// Takes the outcome of the clustering algorithm for the centroids.
pub fn finish_training(
    outcome: Result<Vec<Single>, KMeansError>,
    num_centroids: usize,
    dim: usize,
) -> (r: Result<IvfMatrix, ClusterError>)
    requires
        outcome is Ok ==> is_countable(num_centroids, dim),
    ensures
        is_trained(outcome, num_centroids, dim, r),
{
    match outcome {
        Err(error) => Err(ClusterError::Clustering(error)),
        Ok(values) => {
            let expected: usize = num_centroids * dim;
            if values.len() != expected {
                Err(ClusterError::TrainedValueCount { expected, got: values.len() })
            } else {
                Ok(IvfMatrix { values, rows: num_centroids, dims: dim })
            }
        },
    }
}

/// Whether a metric admits the triangle inequality that pruning rests on.
pub open spec fn admits_pruning(metric: Metric) -> bool {
    metric == Metric::L2 || metric == Metric::Cosine
}

/// What a scan may go by: where the metric admits pruning, a table of the
/// centroids, with lists of at most some usual cap; else no table.
pub open spec fn may_go_by(cap: Option<int>, metric: Metric) -> bool {
    match cap {
        Some(cap) => admits_pruning(metric) && is_usual_cap(cap),
        None => !admits_pruning(metric),
    }
}

/// The replicas of a vector whose primary is `p`: those that the scan of the
/// primary's list finds if there is a table and the scan is certified, else those
/// that the scan of all centroids finds.
pub open spec fn replicas_of(
    m: Results,
    cap: Option<int>,
    v: Seq<Single>,
    centroids: IvfMatrix,
    p: int,
    epsilon: Single,
    max: int,
) -> Seq<u32> {
    let rows = centroids.rows as int;
    let dim = centroids.dims as int;
    let values = centroids.values@;
    let ref_dist = distance(m, v, row_of(values, dim, p));
    let eps_sq = m(Op::Mul, epsilon, epsilon);
    let all = full_scan_replicas(m, v, values, rows, dim, p, ref_dist, eps_sq, max);
    match cap {
        Some(cap) => {
            let list = neighbor_list(m, values, rows, dim, p, cap);
            let kept = listed_replicas(m, list, v, values, dim, ref_dist, eps_sq, max);
            if is_certified(m, rows - 1 > cap, list, kept, ref_dist, epsilon, max) {
                indices(kept)
            } else {
                indices(all)
            }
        },
        None => indices(all),
    }
}

/// Whether `assignments` gives each vector its primary, and the replicas found by
/// going by a table with lists of at most `cap`, or by none.
pub open spec fn are_assignments_by(
    cap: Option<int>,
    m: Results,
    settings: ClustererSettings,
    vectors: IvfVectors,
    centroids: IvfMatrix,
    primaries: Seq<u32>,
    assignments: Seq<Assignment>,
) -> bool {
    &&& assignments.len() == primaries.len()
    &&& forall|i: int|
        0 <= i < primaries.len() ==> (#[trigger] assignments[i]).primary == primaries[i]
            && assignments[i].replicas@ == replicas_of(
            m,
            cap,
            row_of(vectors.matrix.values@, centroids.dims as int, i),
            centroids,
            primaries[i] as int,
            settings.epsilon(),
            settings.replica_cap() as int,
        )
}

/// Whether a vector has the replicas that the scan of all centroids finds,
/// wherever pruning is safe.
pub open spec fn has_all_replicas(
    m: Results,
    settings: ClustererSettings,
    vectors: IvfVectors,
    centroids: IvfMatrix,
    i: int,
    assignment: Assignment,
) -> bool {
    let v = row_of(vectors.matrix.values@, centroids.dims as int, i);
    let p = assignment.primary as int;
    let max = settings.replica_cap() as int;
    pruning_is_always_safe(m, v, centroids, p, settings.epsilon(), max) ==> assignment.replicas@
        == replicas_of(m, None, v, centroids, p, settings.epsilon(), max)
}

/// Whether `assignments` is what assignment gives for the primaries that the
/// algorithm came to: the primaries alone where replication is off, else the
/// primaries and the replicas that the scan of all centroids finds. Where the
/// metric admits pruning, the scan may go by a table of the centroids, which makes
/// no difference wherever that is safe.
pub open spec fn are_assignments(
    m: Results,
    settings: ClustererSettings,
    metric: Metric,
    vectors: IvfVectors,
    centroids: IvfMatrix,
    primaries: Seq<u32>,
    assignments: Seq<Assignment>,
) -> bool {
    if settings.replica_cap() == 0 {
        &&& assignments.len() == primaries.len()
        &&& forall|i: int|
            0 <= i < primaries.len() ==> (#[trigger] assignments[i]).primary == primaries[i]
                && assignments[i].replicas@ == Seq::<u32>::empty()
    } else {
        &&& exists|cap: Option<int>| #[trigger]
            may_go_by(cap, metric) && are_assignments_by(
                cap,
                m,
                settings,
                vectors,
                centroids,
                primaries,
                assignments,
            )
        &&& forall|i: int|
            0 <= i < assignments.len() ==> has_all_replicas(
                m,
                settings,
                vectors,
                centroids,
                i,
                #[trigger] assignments[i],
            )
    }
}

/// Whether primaries are ones that replicas can be found for: of no more vectors
/// than there are, each a centroid.
pub open spec fn are_primaries(primaries: Seq<u32>, vectors: int, centroids: int) -> bool {
    &&& primaries.len() <= vectors
    &&& forall|i: int| 0 <= i < primaries.len() ==> #[trigger] primaries[i] < centroids
}

impl<A: Arithmetic> Default for SuperKMeansIvfClusterer<A> {
    fn default() -> (clusterer: Self)
        ensures
            clusterer@ == default_settings(),
    {
        SuperKMeansIvfClusterer {
            settings: ClustererSettings {
                config: ClusteringConfig {
                    suppress_warnings: true,
                    sampling_fraction: Single { bits: ONE_BITS },
                    angular: false,
                },
                centroid_ratio: Single { bits: DEFAULT_CENTROID_RATIO_BITS },
                training_samples_per_centroid: 32,
                assign_batch_size: DEFAULT_ASSIGN_BATCH_SIZE,
                max_posting_len: None,
                min_posting_len: None,
                max_replicas_per_vector: None,
                max_replicas_per_cluster: None,
                replica_epsilon: None,
            },
            neighbor_cache: empty_slot(),
        }
    }
}

/// Clones have the same settings and share one slot for the table.
impl<A: Arithmetic> Clone for SuperKMeansIvfClusterer<A> {
    fn clone(&self) -> (clusterer: Self)
        ensures
            clusterer@ == self@,
            clusterer.cache() == self.cache(),
    {
        SuperKMeansIvfClusterer {
            settings: self.settings,
            neighbor_cache: self.neighbor_cache.clone(),
        }
    }
}

impl<A: Arithmetic> View for SuperKMeansIvfClusterer<A> {
    type V = ClustererSettings;

    closed spec fn view(&self) -> ClustererSettings {
        self.settings
    }
}

impl<A: Arithmetic> SuperKMeansIvfClusterer<A> {
    /// The slot of the clusterer's table.
    pub closed spec fn cache(&self) -> TableSlot<A> {
        self.neighbor_cache
    }

    /// A clusterer with the default settings.
    pub fn new() -> (clusterer: Self)
        ensures
            clusterer@ == default_settings(),
    {
        Self::default()
    }

    pub fn with_centroid_ratio(self, centroid_ratio: Single) -> (clusterer: Self)
        ensures
            clusterer@ == (ClustererSettings { centroid_ratio, ..self@ }),
            clusterer.cache() == self.cache(),
    {
        SuperKMeansIvfClusterer {
            settings: ClustererSettings { centroid_ratio, ..self.settings },
            neighbor_cache: self.neighbor_cache,
        }
    }

    pub fn with_training_samples_per_centroid(
        self,
        training_samples_per_centroid: usize,
    ) -> (clusterer: Self)
        ensures
            clusterer@ == (ClustererSettings { training_samples_per_centroid, ..self@ }),
            clusterer.cache() == self.cache(),
    {
        SuperKMeansIvfClusterer {
            settings: ClustererSettings { training_samples_per_centroid, ..self.settings },
            neighbor_cache: self.neighbor_cache,
        }
    }

    pub fn with_max_posting_len(self, max_posting_len: Option<usize>) -> (clusterer: Self)
        ensures
            clusterer@ == (ClustererSettings { max_posting_len, ..self@ }),
            clusterer.cache() == self.cache(),
    {
        SuperKMeansIvfClusterer {
            settings: ClustererSettings { max_posting_len, ..self.settings },
            neighbor_cache: self.neighbor_cache,
        }
    }

    pub fn with_min_posting_len(self, min_posting_len: Option<usize>) -> (clusterer: Self)
        ensures
            clusterer@ == (ClustererSettings { min_posting_len, ..self@ }),
            clusterer.cache() == self.cache(),
    {
        SuperKMeansIvfClusterer {
            settings: ClustererSettings { min_posting_len, ..self.settings },
            neighbor_cache: self.neighbor_cache,
        }
    }

    pub fn with_max_replicas_per_vector(
        self,
        max_replicas_per_vector: Option<usize>,
    ) -> (clusterer: Self)
        ensures
            clusterer@ == (ClustererSettings { max_replicas_per_vector, ..self@ }),
            clusterer.cache() == self.cache(),
    {
        SuperKMeansIvfClusterer {
            settings: ClustererSettings { max_replicas_per_vector, ..self.settings },
            neighbor_cache: self.neighbor_cache,
        }
    }

    pub fn with_max_replicas_per_cluster(
        self,
        max_replicas_per_cluster: Option<usize>,
    ) -> (clusterer: Self)
        ensures
            clusterer@ == (ClustererSettings { max_replicas_per_cluster, ..self@ }),
            clusterer.cache() == self.cache(),
    {
        SuperKMeansIvfClusterer {
            settings: ClustererSettings { max_replicas_per_cluster, ..self.settings },
            neighbor_cache: self.neighbor_cache,
        }
    }

    pub fn with_replica_epsilon(self, replica_epsilon: Option<Single>) -> (clusterer: Self)
        ensures
            clusterer@ == (ClustererSettings { replica_epsilon, ..self@ }),
            clusterer.cache() == self.cache(),
    {
        SuperKMeansIvfClusterer {
            settings: ClustererSettings { replica_epsilon, ..self.settings },
            neighbor_cache: self.neighbor_cache,
        }
    }

    /// The clusterer that an index asks for.
    pub fn for_index(options: &IndexOptions) -> (clusterer: Self)
        ensures
            clusterer@ == (ClustererSettings {
                centroid_ratio: options.centroid_ratio,
                training_samples_per_centroid: options.training_samples_per_centroid,
                max_posting_len: options.max_posting_len,
                min_posting_len: options.min_posting_len,
                max_replicas_per_vector: options.max_replicas_per_vector,
                max_replicas_per_cluster: options.max_replicas_per_cluster,
                replica_epsilon: options.replica_epsilon,
                ..default_settings()
            }),
    {
        Self::new()
            .with_centroid_ratio(options.centroid_ratio)
            .with_training_samples_per_centroid(options.training_samples_per_centroid)
            .with_max_posting_len(options.max_posting_len)
            .with_min_posting_len(options.min_posting_len)
            .with_max_replicas_per_vector(options.max_replicas_per_vector)
            .with_max_replicas_per_cluster(options.max_replicas_per_cluster)
            .with_replica_epsilon(options.replica_epsilon)
    }

    /// Centroids per document.
    pub fn centroid_ratio(&self) -> (ratio: Single)
        ensures
            ratio == self@.centroid_ratio,
    {
        self.settings.centroid_ratio
    }

    /// Vectors to train on per centroid.
    pub fn training_samples_per_centroid(&self) -> (samples: usize)
        ensures
            samples == self@.training_samples_per_centroid,
    {
        self.settings.training_samples_per_centroid
    }

    /// Vectors to assign at a time.
    pub fn assign_batch_size(&self) -> (size: usize)
        ensures
            size == self@.assign_batch_size,
    {
        self.settings.assign_batch_size
    }

    /// Most clusters that a vector replicates into; none if it is zero.
    pub fn replica_cap(&self) -> (max: usize)
        ensures
            max == self@.replica_cap(),
    {
        match self.settings.max_replicas_per_vector {
            Some(max) => max,
            None => DEFAULT_MAX_REPLICAS_PER_VECTOR,
        }
    }

    fn epsilon(&self) -> (epsilon: Single)
        ensures
            epsilon == self@.epsilon(),
    {
        match self.settings.replica_epsilon {
            Some(epsilon) => epsilon,
            None => Single { bits: DEFAULT_REPLICA_EPSILON_BITS },
        }
    }

    fn job(&self, num_clusters: usize, options: &VectorOptions) -> (job: ClusteringJob)
        ensures
            job == self@.job(num_clusters, *options),
    {
        let mut config = self.settings.config;
        if options.metric == Metric::Cosine || options.metric == Metric::Dot {
            config.angular = true;
        }
        ClusteringJob { num_clusters, dim: options.dim, config }
    }

    /// The parameters of a merge of `total_target_docs` documents.
    pub fn merge_settings(&self, total_target_docs: usize) -> (r: Result<
        IvfMergeSettings,
        ClusterError,
    >)
        requires
            self@.allow_merge(),
            total_target_docs >= 1,
        ensures
            r is Ok,
            self@.are_merge_settings(total_target_docs as nat, r->Ok_0),
    {
        let num_centroids: usize = num_centroids(total_target_docs, self.settings.centroid_ratio);
        let mean: usize = total_target_docs / num_centroids;
        let mean_posting_len: usize = if mean < 1 {
            1
        } else {
            mean
        };
        let max_posting_len: usize = match self.settings.max_posting_len {
            Some(max) => max,
            None => if mean_posting_len > usize::MAX / 4 {
                usize::MAX
            } else {
                mean_posting_len * 4
            },
        };
        let quarter: usize = mean_posting_len / 4;
        let min_posting_len: usize = match self.settings.min_posting_len {
            Some(min) => min,
            None => if quarter < 1 {
                1
            } else {
                quarter
            },
        };
        let half_cap: usize = max_posting_len / 2;
        let max_replicas_per_cluster: usize = match self.settings.max_replicas_per_cluster {
            Some(max) => max,
            None => if half_cap < 1 {
                1
            } else {
                half_cap
            },
        };
        Ok(
            IvfMergeSettings {
                num_centroids,
                training_samples_per_centroid: self.settings.training_samples_per_centroid,
                assign_batch_size: self.settings.assign_batch_size,
                max_posting_len,
                min_posting_len,
                max_replicas_per_vector: self.replica_cap(),
                max_replicas_per_cluster,
                replica_epsilon: self.epsilon(),
            },
        )
    }

    /// Trains centroids on vectors, by the clustering algorithm `cluster`.
    pub fn train<C: FnOnce(ClusteringJob, &IvfMatrix) -> Result<Vec<Single>, KMeansError>>(
        &self,
        options: &VectorOptions,
        vectors: &IvfVectors,
        num_centroids: usize,
        cluster: C,
    ) -> (r: Result<IvfMatrix, ClusterError>)
        requires
            vectors.matrix.dims == options.dim && vectors.doc_ids.len() == vectors.matrix.rows
                ==> is_countable(vectors.matrix.rows, options.dim),
            vector_problem(*options, *vectors) is None ==> {
                let job = self@.job(num_centroids, *options);
                &&& cluster.requires((job, &vectors.matrix))
                &&& forall|outcome: Result<Vec<Single>, KMeansError>| #[trigger]
                    cluster.ensures((job, &vectors.matrix), outcome) && outcome is Ok
                        ==> is_countable(num_centroids, options.dim)
            },
        ensures
            match vector_problem(*options, *vectors) {
                Some(problem) => r == Err::<IvfMatrix, ClusterError>(problem),
                None => exists|outcome: Result<Vec<Single>, KMeansError>| #[trigger]
                    cluster.ensures((self@.job(num_centroids, *options), &vectors.matrix), outcome)
                        && is_trained(outcome, num_centroids, options.dim, r),
            },
            r matches Ok(trained) ==> trained.rows == num_centroids && trained.dims == options.dim
                && trained.values@.len() == num_centroids * options.dim,
    {
        match check_vectors(options, vectors) {
            Err(problem) => return Err(problem),
            Ok(()) => {},
        }
        let outcome = cluster(self.job(num_centroids, options), &vectors.matrix);
        finish_training(outcome, num_centroids, options.dim)
    }

    /// The centroid-neighbor table of the given centroids. It is built and kept: as
    /// long as the centroids stay the same, the kept table is given out, whatever
    /// the cap on replicas. It is the one in the slot when the lock is released. No
    /// lock is held while a table is built; of several that are built at the same
    /// time, the first to be kept is given out by all calls.
    pub fn centroid_neighbors<
        B: FnOnce(&[Single], usize, usize, usize, u64) -> CentroidNeighbors<A>,
    >(
        &self,
        centroids: &[Single],
        num_centroids: usize,
        dim: usize,
        max_replicas: usize,
        build: B,
    ) -> (table: Arc<CentroidNeighbors<A>>)
        requires
            builds_table(build, centroids@, num_centroids, dim, max_replicas),
        ensures
            exists|cap: int| #[trigger]
                table.is_table_of(centroids@, num_centroids as int, dim as int, cap)
                    && is_usual_cap(cap),
            table.key() == fingerprint_of(centroids@, num_centroids as int, dim as int),
            exists|held: HeldSlot<'_, A>| #[trigger]
                is_left_with(
                    held,
                    self.cache(),
                    table,
                    centroids@,
                    num_centroids as int,
                    dim as int,
                    max_replicas as int,
                ),
    {
        let (table, held) = table_for(
            &self.neighbor_cache,
            centroids,
            num_centroids,
            dim,
            max_replicas,
            build,
        );
        assert(is_left_with(
            held,
            self.cache(),
            table,
            centroids@,
            num_centroids as int,
            dim as int,
            max_replicas as int,
        ));
        table
    }

    /// Gives each vector its primary cluster and the clusters that it is
    /// replicated into.
    ///
    /// Replicas are found by squared Euclidean distance on the stored values.
    /// With unit vectors, as the cosine metric has them, that is the order of the
    /// angles too. The triangle inequality does not hold of raw inner products, so
    /// for them every centroid is scanned.
    pub fn assign_primaries<
        B: FnOnce(&[Single], usize, usize, usize, u64) -> CentroidNeighbors<A>,
    >(
        &self,
        options: &VectorOptions,
        vectors: &IvfVectors,
        centroids: &IvfMatrix,
        primaries: Vec<u32>,
        build: B,
    ) -> (assignments: Vec<Assignment>)
        requires
            assignment_problem(*options, *vectors, *centroids) is None,
            self@.replica_cap() != 0 ==> centroids.rows <= MAX_CENTROIDS && is_arithmetic::<A>()
                && are_primaries(primaries@, vectors.matrix.rows as int, centroids.rows as int),
            self@.replica_cap() != 0 && admits_pruning(options.metric) ==> builds_table(
                build,
                centroids.values@,
                centroids.rows,
                centroids.dims,
                self@.replica_cap(),
            ),
        ensures
            are_assignments(
                results::<A>(),
                self@,
                options.metric,
                *vectors,
                *centroids,
                primaries@,
                assignments@,
            ),
    {
        let max_replicas: usize = self.replica_cap();
        let mut assignments: Vec<Assignment> = Vec::new();
        if max_replicas == 0 {
            let mut i: usize = 0;
            while i < primaries.len()
                invariant
                    i <= primaries.len(),
                    assignments.len() == i,
                    forall|j: int|
                        0 <= j < i ==> (#[trigger] assignments@[j]).primary == primaries@[j]
                            && assignments@[j].replicas@ == Seq::<u32>::empty(),
                decreases primaries.len() - i,
            {
                assignments.push(Assignment::primary_only(primaries[i]));
                i = i + 1;
            }
            return assignments;
        }
        let dim: usize = options.dim;
        let values = centroids.values.as_slice();
        let epsilon = self.epsilon();
        let eps_sq = apply::<A>(Op::Mul, epsilon, epsilon);
        let table: Option<Arc<CentroidNeighbors<A>>> = if options.metric == Metric::L2
            || options.metric == Metric::Cosine {
            Some(self.centroid_neighbors(values, centroids.rows, dim, max_replicas, build))
        } else {
            None
        };
        let ghost going_by = cap_behind(&table, *centroids);
        let mut i: usize = 0;
        while i < primaries.len()
            invariant
                i <= primaries.len(),
                assignments.len() == i,
                is_arithmetic::<A>(),
                are_primaries(
                    primaries@,
                    vectors.matrix.rows as int,
                    centroids.rows as int,
                ),
                assignment_problem(*options, *vectors, *centroids) is None,
                centroids.rows <= MAX_CENTROIDS,
                dim == options.dim,
                values@ == centroids.values@,
                epsilon == self@.epsilon(),
                eps_sq == results::<A>()(Op::Mul, epsilon, epsilon),
                max_replicas == self@.replica_cap(),
                may_go_by(going_by, options.metric),
                table is Some <==> going_by is Some,
                table matches Some(t) ==> t.is_table_of(
                    values@,
                    centroids.rows as int,
                    dim as int,
                    going_by->0,
                ),
                forall|j: int|
                    0 <= j < i ==> (#[trigger] assignments@[j]).primary == primaries@[j]
                        && assignments@[j].replicas@ == replicas_of(
                        results::<A>(),
                        going_by,
                        row_of(vectors.matrix.values@, centroids.dims as int, j),
                        *centroids,
                        primaries@[j] as int,
                        self@.epsilon(),
                        self@.replica_cap() as int,
                    ),
            decreases primaries.len() - i,
        {
            let primary: u32 = primaries[i];
            let p: usize = primary as usize;
            proof {
                lemma_matrix_has_row(
                    vectors.matrix.values@,
                    dim as int,
                    vectors.matrix.rows as int,
                    i as int,
                );
                lemma_rows_present(values@, dim as int, centroids.rows as int);
            }
            let v = row(vectors.matrix.values.as_slice(), dim, i);
            assert(has_row(values@, dim as int, p as int));
            let ref_dist = squared_distance::<A>(v, row(values, dim, p));
            let pruned: Option<Vec<u32>> = match &table {
                Some(t) => {
                    proof {
                        lemma_list_in_range(&**t, *centroids, going_by->0, p as int);
                    }
                    replicas_pruned::<A>(
                        &**t,
                        v,
                        values,
                        dim,
                        p,
                        ref_dist,
                        epsilon,
                        eps_sq,
                        max_replicas,
                    )
                },
                None => None,
            };
            let replicas: Vec<u32> = match pruned {
                Some(found) => found,
                None => replicas_full_scan::<A>(
                    v,
                    values,
                    centroids.rows,
                    dim,
                    p,
                    ref_dist,
                    eps_sq,
                    max_replicas,
                ),
            };
            assignments.push(Assignment { primary, replicas });
            i = i + 1;
        }
        proof {
            assert(are_assignments_by(
                going_by,
                results::<A>(),
                self@,
                *vectors,
                *centroids,
                primaries@,
                assignments@,
            ));
            assert forall|j: int| 0 <= j < assignments@.len() implies has_all_replicas(
                results::<A>(),
                self@,
                *vectors,
                *centroids,
                j,
                #[trigger] assignments@[j],
            ) by {
                if let Some(cap) = going_by {
                    law_pruning_changes_nothing(
                        results::<A>(),
                        cap,
                        row_of(vectors.matrix.values@, centroids.dims as int, j),
                        *centroids,
                        primaries@[j] as int,
                        self@.epsilon(),
                        self@.replica_cap() as int,
                    );
                }
            }
        }
        assignments
    }

    /// Assigns vectors to centroids: their primaries by the clustering algorithm
    /// `cluster`, their replicas by distance.
    pub fn assign<
        C: FnOnce(ClusteringJob, &IvfMatrix, &IvfMatrix) -> Result<Vec<u32>, KMeansError>,
        B: FnOnce(&[Single], usize, usize, usize, u64) -> CentroidNeighbors<A>,
    >(
        &self,
        options: &VectorOptions,
        vectors: &IvfVectors,
        centroids: &IvfMatrix,
        cluster: C,
        build: B,
    ) -> (r: Result<Vec<Assignment>, ClusterError>)
        requires
            vectors.matrix.dims == options.dim && vectors.doc_ids.len() == vectors.matrix.rows
                ==> is_countable(vectors.matrix.rows, options.dim),
            vector_problem(*options, *vectors) is None && centroids.rows != 0 && centroids.dims
                == options.dim ==> is_countable(centroids.rows, options.dim),
            assignment_problem(*options, *vectors, *centroids) is None && vectors.matrix.rows != 0 ==> {
                &&& cluster.requires(
                    (self@.job(centroids.rows, *options), &vectors.matrix, centroids),
                )
                &&& self@.replica_cap() != 0 ==> centroids.rows <= MAX_CENTROIDS && is_arithmetic::<A>()
                    && forall|primaries: Vec<u32>| #[trigger]
                    cluster.ensures(
                        (self@.job(centroids.rows, *options), &vectors.matrix, centroids),
                        Ok(primaries),
                    ) ==> are_primaries(
                        primaries@,
                        vectors.matrix.rows as int,
                        centroids.rows as int,
                    )
                &&& self@.replica_cap() != 0 && admits_pruning(options.metric) ==> builds_table(
                    build,
                    centroids.values@,
                    centroids.rows,
                    centroids.dims,
                    self@.replica_cap(),
                )
            },
        ensures
            match assignment_problem(*options, *vectors, *centroids) {
                Some(problem) => r == Err::<Vec<Assignment>, ClusterError>(problem),
                None => if vectors.matrix.rows == 0 {
                    r matches Ok(assignments) && assignments@ == Seq::<Assignment>::empty()
                } else {
                    exists|outcome: Result<Vec<u32>, KMeansError>| #[trigger]
                        cluster.ensures(
                            (self@.job(centroids.rows, *options), &vectors.matrix, centroids),
                            outcome,
                        ) && match outcome {
                            Err(error) => r == Err::<Vec<Assignment>, ClusterError>(
                                ClusterError::Clustering(error),
                            ),
                            Ok(primaries) => r matches Ok(assignments) && are_assignments(
                                results::<A>(),
                                self@,
                                options.metric,
                                *vectors,
                                *centroids,
                                primaries@,
                                assignments@,
                            ),
                        }
                },
            },
    {
        match check_vectors(options, vectors) {
            Err(problem) => return Err(problem),
            Ok(()) => {},
        }
        match check_centroids(options, centroids) {
            Err(problem) => return Err(problem),
            Ok(()) => {},
        }
        if vectors.matrix.rows == 0 {
            return Ok(Vec::new());
        }
        match cluster(self.job(centroids.rows, options), &vectors.matrix, centroids) {
            Err(error) => Err(ClusterError::Clustering(error)),
            Ok(primaries) => Ok(
                self.assign_primaries(options, vectors, centroids, primaries, build),
            ),
        }
    }
}

/// The cap on the lists of a table of the given centroids.
spec fn cap_behind<A: Arithmetic>(
    table: &Option<Arc<CentroidNeighbors<A>>>,
    centroids: IvfMatrix,
) -> Option<int> {
    match table {
        Some(t) => Some(
            choose|cap: int| #[trigger]
                t.is_table_of(
                    centroids.values@,
                    centroids.rows as int,
                    centroids.dims as int,
                    cap,
                ) && is_usual_cap(cap),
        ),
        None => None,
    }
}

proof fn lemma_rows_present(values: Seq<Single>, dim: int, rows: int)
    requires
        0 <= dim,
        rows * dim <= values.len(),
    ensures
        forall|c: int| 0 <= c < rows ==> #[trigger] has_row(values, dim, c),
{
    assert forall|c: int| 0 <= c < rows implies #[trigger] has_row(values, dim, c) by {
        lemma_matrix_has_row(values, dim, rows, c);
    }
}

proof fn lemma_list_in_range<A: Arithmetic>(
    table: &CentroidNeighbors<A>,
    centroids: IvfMatrix,
    cap: int,
    p: int,
)
    requires
        table.is_table_of(
            centroids.values@,
            centroids.rows as int,
            centroids.dims as int,
            cap,
        ),
        0 <= p < centroids.rows,
    ensures
        forall|k: int|
            0 <= k < table.lists()[p].len() ==> (#[trigger] table.lists()[p][k]).1 < centroids.rows,
{
    law_neighbor_list(
        distances_from_row(results::<A>(), centroids.values@, centroids.dims as int, p),
        centroids.rows as int,
        p,
        cap,
    );
}

} // verus!
