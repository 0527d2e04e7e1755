//! What calls give, said of the calls themselves.
//!
//! Each law here is about what a function can return for given arguments, or how
//! what it returns for some arguments relates to what it returns for others.
use vstd::prelude::*;
use vstd::arithmetic::power2::pow2;
use crate::arithmetic::{results, Arithmetic};
use crate::clusterer::{are_assignments, are_primaries, assignment_problem, finish_training};
use crate::clusterer::{is_trained, vector_problem, SuperKMeansIvfClusterer};
use crate::errors::{ClusterError, KMeansError};
use crate::guarantees::{law_centroid_problem, law_job, law_merge_parameters_relate, law_training};
use crate::guarantees::{law_vector_problem, lemma_size_is_natural};
use crate::neighbors::{CentroidNeighbors, MAX_CENTROIDS};
use crate::ratio::{is_nearest_double, law_centroid_count_in_double_precision};
use crate::ratio::{law_centroid_count_is_the_part, num_centroids};
use crate::single::Single;
use crate::steps::{is_right_assignment, lemma_assignments_are_right};
use crate::types::{Assignment, ClusteringJob, IndexOptions, IvfMatrix, IvfMergeSettings, IvfVectors};
use crate::types::{Metric, VectorOptions};

verus! {

/// A new clusterer has the default settings: one centroid per hundred documents,
/// thirty-two training samples per centroid, batches of 40960 vectors, every vector
/// that is given trained on, no angles unless the metric asks for them, and all else
/// unset.
pub proof fn law_new_clusterer<A: Arithmetic>(clusterer: SuperKMeansIvfClusterer<A>)
    requires
        call_ensures(SuperKMeansIvfClusterer::<A>::new, (), clusterer),
    ensures
        clusterer@.config.suppress_warnings,
        clusterer@.config.sampling_fraction.bits == 0x3f80_0000,
        !clusterer@.config.angular,
        clusterer@.centroid_ratio.bits == 0x3c23_d70a,
        clusterer@.training_samples_per_centroid == 32,
        clusterer@.assign_batch_size == 40960,
        clusterer@.max_posting_len is None,
        clusterer@.min_posting_len is None,
        clusterer@.max_replicas_per_vector is None,
        clusterer@.max_replicas_per_cluster is None,
        clusterer@.replica_epsilon is None,
{
}

/// The clusterer of an index goes by the index's options, each in its place; what
/// these say nothing of is as in a new clusterer.
pub proof fn law_clusterer_for_index<A: Arithmetic>(
    options: IndexOptions,
    clusterer: SuperKMeansIvfClusterer<A>,
    fresh: SuperKMeansIvfClusterer<A>,
)
    requires
        call_ensures(SuperKMeansIvfClusterer::<A>::for_index, (&options,), clusterer),
        call_ensures(SuperKMeansIvfClusterer::<A>::new, (), fresh),
    ensures
        clusterer@.centroid_ratio == options.centroid_ratio,
        clusterer@.training_samples_per_centroid == options.training_samples_per_centroid,
        clusterer@.max_posting_len == options.max_posting_len,
        clusterer@.min_posting_len == options.min_posting_len,
        clusterer@.max_replicas_per_vector == options.max_replicas_per_vector,
        clusterer@.max_replicas_per_cluster == options.max_replicas_per_cluster,
        clusterer@.replica_epsilon == options.replica_epsilon,
        clusterer@.config == fresh@.config,
        clusterer@.assign_batch_size == fresh@.assign_batch_size,
{
}

/// A clone has the settings of the original, and shares its slot.
pub proof fn law_clone<A: Arithmetic>(
    clusterer: SuperKMeansIvfClusterer<A>,
    clone: SuperKMeansIvfClusterer<A>,
)
    requires
        call_ensures(SuperKMeansIvfClusterer::<A>::clone, (&clusterer,), clone),
    ensures
        clone@.config == clusterer@.config,
        clone@.centroid_ratio == clusterer@.centroid_ratio,
        clone@.training_samples_per_centroid == clusterer@.training_samples_per_centroid,
        clone@.assign_batch_size == clusterer@.assign_batch_size,
        clone@.max_posting_len == clusterer@.max_posting_len,
        clone@.min_posting_len == clusterer@.min_posting_len,
        clone@.max_replicas_per_vector == clusterer@.max_replicas_per_vector,
        clone@.max_replicas_per_cluster == clusterer@.max_replicas_per_cluster,
        clone@.replica_epsilon == clusterer@.replica_epsilon,
        clone.cache() == clusterer.cache(),
{
}

/// Setting the ratio of centroids to documents sets it, and nothing else.
pub proof fn law_with_centroid_ratio<A: Arithmetic>(
    clusterer: SuperKMeansIvfClusterer<A>,
    centroid_ratio: Single,
    changed: SuperKMeansIvfClusterer<A>,
)
    requires
        call_ensures(
            SuperKMeansIvfClusterer::<A>::with_centroid_ratio,
            (clusterer, centroid_ratio),
            changed,
        ),
    ensures
        changed@.centroid_ratio == centroid_ratio,
        changed@.config == clusterer@.config,
        changed@.training_samples_per_centroid == clusterer@.training_samples_per_centroid,
        changed@.assign_batch_size == clusterer@.assign_batch_size,
        changed@.max_posting_len == clusterer@.max_posting_len,
        changed@.min_posting_len == clusterer@.min_posting_len,
        changed@.max_replicas_per_vector == clusterer@.max_replicas_per_vector,
        changed@.max_replicas_per_cluster == clusterer@.max_replicas_per_cluster,
        changed@.replica_epsilon == clusterer@.replica_epsilon,
        changed.cache() == clusterer.cache(),
{
}

/// Setting the number of training samples per centroid sets it, and nothing else.
pub proof fn law_with_training_samples_per_centroid<A: Arithmetic>(
    clusterer: SuperKMeansIvfClusterer<A>,
    training_samples_per_centroid: usize,
    changed: SuperKMeansIvfClusterer<A>,
)
    requires
        call_ensures(
            SuperKMeansIvfClusterer::<A>::with_training_samples_per_centroid,
            (clusterer, training_samples_per_centroid),
            changed,
        ),
    ensures
        changed@.training_samples_per_centroid == training_samples_per_centroid,
        changed@.config == clusterer@.config,
        changed@.centroid_ratio == clusterer@.centroid_ratio,
        changed@.assign_batch_size == clusterer@.assign_batch_size,
        changed@.max_posting_len == clusterer@.max_posting_len,
        changed@.min_posting_len == clusterer@.min_posting_len,
        changed@.max_replicas_per_vector == clusterer@.max_replicas_per_vector,
        changed@.max_replicas_per_cluster == clusterer@.max_replicas_per_cluster,
        changed@.replica_epsilon == clusterer@.replica_epsilon,
        changed.cache() == clusterer.cache(),
{
}

/// Setting the cap on cluster size sets it, and nothing else.
pub proof fn law_with_max_posting_len<A: Arithmetic>(
    clusterer: SuperKMeansIvfClusterer<A>,
    max_posting_len: Option<usize>,
    changed: SuperKMeansIvfClusterer<A>,
)
    requires
        call_ensures(
            SuperKMeansIvfClusterer::<A>::with_max_posting_len,
            (clusterer, max_posting_len),
            changed,
        ),
    ensures
        changed@.max_posting_len == max_posting_len,
        changed@.config == clusterer@.config,
        changed@.centroid_ratio == clusterer@.centroid_ratio,
        changed@.training_samples_per_centroid == clusterer@.training_samples_per_centroid,
        changed@.assign_batch_size == clusterer@.assign_batch_size,
        changed@.min_posting_len == clusterer@.min_posting_len,
        changed@.max_replicas_per_vector == clusterer@.max_replicas_per_vector,
        changed@.max_replicas_per_cluster == clusterer@.max_replicas_per_cluster,
        changed@.replica_epsilon == clusterer@.replica_epsilon,
        changed.cache() == clusterer.cache(),
{
}

/// Setting the floor on cluster size sets it, and nothing else.
pub proof fn law_with_min_posting_len<A: Arithmetic>(
    clusterer: SuperKMeansIvfClusterer<A>,
    min_posting_len: Option<usize>,
    changed: SuperKMeansIvfClusterer<A>,
)
    requires
        call_ensures(
            SuperKMeansIvfClusterer::<A>::with_min_posting_len,
            (clusterer, min_posting_len),
            changed,
        ),
    ensures
        changed@.min_posting_len == min_posting_len,
        changed@.config == clusterer@.config,
        changed@.centroid_ratio == clusterer@.centroid_ratio,
        changed@.training_samples_per_centroid == clusterer@.training_samples_per_centroid,
        changed@.assign_batch_size == clusterer@.assign_batch_size,
        changed@.max_posting_len == clusterer@.max_posting_len,
        changed@.max_replicas_per_vector == clusterer@.max_replicas_per_vector,
        changed@.max_replicas_per_cluster == clusterer@.max_replicas_per_cluster,
        changed@.replica_epsilon == clusterer@.replica_epsilon,
        changed.cache() == clusterer.cache(),
{
}

/// Setting the cap on the replicas of a vector sets it, and nothing else.
pub proof fn law_with_max_replicas_per_vector<A: Arithmetic>(
    clusterer: SuperKMeansIvfClusterer<A>,
    max_replicas_per_vector: Option<usize>,
    changed: SuperKMeansIvfClusterer<A>,
)
    requires
        call_ensures(
            SuperKMeansIvfClusterer::<A>::with_max_replicas_per_vector,
            (clusterer, max_replicas_per_vector),
            changed,
        ),
    ensures
        changed@.max_replicas_per_vector == max_replicas_per_vector,
        changed@.config == clusterer@.config,
        changed@.centroid_ratio == clusterer@.centroid_ratio,
        changed@.training_samples_per_centroid == clusterer@.training_samples_per_centroid,
        changed@.assign_batch_size == clusterer@.assign_batch_size,
        changed@.max_posting_len == clusterer@.max_posting_len,
        changed@.min_posting_len == clusterer@.min_posting_len,
        changed@.max_replicas_per_cluster == clusterer@.max_replicas_per_cluster,
        changed@.replica_epsilon == clusterer@.replica_epsilon,
        changed.cache() == clusterer.cache(),
{
}

/// Setting the replica budget of a cluster sets it, and nothing else.
pub proof fn law_with_max_replicas_per_cluster<A: Arithmetic>(
    clusterer: SuperKMeansIvfClusterer<A>,
    max_replicas_per_cluster: Option<usize>,
    changed: SuperKMeansIvfClusterer<A>,
)
    requires
        call_ensures(
            SuperKMeansIvfClusterer::<A>::with_max_replicas_per_cluster,
            (clusterer, max_replicas_per_cluster),
            changed,
        ),
    ensures
        changed@.max_replicas_per_cluster == max_replicas_per_cluster,
        changed@.config == clusterer@.config,
        changed@.centroid_ratio == clusterer@.centroid_ratio,
        changed@.training_samples_per_centroid == clusterer@.training_samples_per_centroid,
        changed@.assign_batch_size == clusterer@.assign_batch_size,
        changed@.max_posting_len == clusterer@.max_posting_len,
        changed@.min_posting_len == clusterer@.min_posting_len,
        changed@.max_replicas_per_vector == clusterer@.max_replicas_per_vector,
        changed@.replica_epsilon == clusterer@.replica_epsilon,
        changed.cache() == clusterer.cache(),
{
}

/// Setting the closure factor sets it, and nothing else.
pub proof fn law_with_replica_epsilon<A: Arithmetic>(
    clusterer: SuperKMeansIvfClusterer<A>,
    replica_epsilon: Option<Single>,
    changed: SuperKMeansIvfClusterer<A>,
)
    requires
        call_ensures(
            SuperKMeansIvfClusterer::<A>::with_replica_epsilon,
            (clusterer, replica_epsilon),
            changed,
        ),
    ensures
        changed@.replica_epsilon == replica_epsilon,
        changed@.config == clusterer@.config,
        changed@.centroid_ratio == clusterer@.centroid_ratio,
        changed@.training_samples_per_centroid == clusterer@.training_samples_per_centroid,
        changed@.assign_batch_size == clusterer@.assign_batch_size,
        changed@.max_posting_len == clusterer@.max_posting_len,
        changed@.min_posting_len == clusterer@.min_posting_len,
        changed@.max_replicas_per_vector == clusterer@.max_replicas_per_vector,
        changed@.max_replicas_per_cluster == clusterer@.max_replicas_per_cluster,
        changed.cache() == clusterer.cache(),
{
}

/// What was set is what is told: the ratio, the training samples and the cap on
/// replicas, which is eight where it was left unset, are those that the clusterer
/// was last given.
pub proof fn law_settings_are_told<A: Arithmetic>(
    clusterer: SuperKMeansIvfClusterer<A>,
    changed: SuperKMeansIvfClusterer<A>,
    set_ratio: Single,
    ratio: Single,
    set_samples: usize,
    samples: usize,
    set_replicas: Option<usize>,
    replicas: usize,
)
    ensures
        call_ensures(
            SuperKMeansIvfClusterer::<A>::with_centroid_ratio,
            (clusterer, set_ratio),
            changed,
        ) && call_ensures(SuperKMeansIvfClusterer::<A>::centroid_ratio, (&changed,), ratio)
            ==> ratio == set_ratio,
        call_ensures(
            SuperKMeansIvfClusterer::<A>::with_training_samples_per_centroid,
            (clusterer, set_samples),
            changed,
        ) && call_ensures(
            SuperKMeansIvfClusterer::<A>::training_samples_per_centroid,
            (&changed,),
            samples,
        ) ==> samples == set_samples,
        call_ensures(
            SuperKMeansIvfClusterer::<A>::with_max_replicas_per_vector,
            (clusterer, set_replicas),
            changed,
        ) && call_ensures(SuperKMeansIvfClusterer::<A>::replica_cap, (&changed,), replicas)
            ==> replicas == match set_replicas {
            Some(max) => max,
            None => 8,
        },
{
}

/// A clusterer tells its ratio, its training samples, its batch size and its cap on
/// replicas, which is eight if it is unset.
pub proof fn law_telling_settings<A: Arithmetic>(
    clusterer: SuperKMeansIvfClusterer<A>,
    ratio: Single,
    samples: usize,
    size: usize,
    replicas: usize,
)
    requires
        call_ensures(SuperKMeansIvfClusterer::<A>::centroid_ratio, (&clusterer,), ratio),
        call_ensures(
            SuperKMeansIvfClusterer::<A>::training_samples_per_centroid,
            (&clusterer,),
            samples,
        ),
        call_ensures(SuperKMeansIvfClusterer::<A>::assign_batch_size, (&clusterer,), size),
        call_ensures(SuperKMeansIvfClusterer::<A>::replica_cap, (&clusterer,), replicas),
    ensures
        ratio == clusterer@.centroid_ratio,
        samples == clusterer@.training_samples_per_centroid,
        size == clusterer@.assign_batch_size,
        clusterer@.max_replicas_per_vector is None ==> replicas == 8,
        clusterer@.max_replicas_per_vector matches Some(max) ==> replicas == max,
{
}

/// A default clusterer is like a new one.
pub proof fn law_default_clusterer<A: Arithmetic>(
    clusterer: SuperKMeansIvfClusterer<A>,
    fresh: SuperKMeansIvfClusterer<A>,
)
    requires
        call_ensures(SuperKMeansIvfClusterer::<A>::default, (), clusterer),
        call_ensures(SuperKMeansIvfClusterer::<A>::new, (), fresh),
    ensures
        clusterer@ == fresh@,
{
}

/// A new clusterer assigns 40960 vectors at a time, and so does one for an index.
pub proof fn law_batches<A: Arithmetic>(
    options: IndexOptions,
    clusterer: SuperKMeansIvfClusterer<A>,
    size: usize,
)
    requires
        call_ensures(SuperKMeansIvfClusterer::<A>::new, (), clusterer) || call_ensures(
            SuperKMeansIvfClusterer::<A>::for_index,
            (&options,),
            clusterer,
        ),
        call_ensures(SuperKMeansIvfClusterer::<A>::assign_batch_size, (&clusterer,), size),
    ensures
        size == 40960,
{
}

/// The parameters of a merge. A setting that is set is taken as it is.
/// Otherwise the cap on cluster size is four times the whole number of documents per
/// centroid, or the largest number there is; the floor is a quarter of that number,
/// but at least one; the replica budget of a cluster is half of the cap, but at
/// least one; a vector has at most eight replicas; and the closure factor is three.
pub proof fn law_merge<A: Arithmetic>(
    clusterer: SuperKMeansIvfClusterer<A>,
    total: usize,
    r: Result<IvfMergeSettings, ClusterError>,
)
    requires
        call_ensures(SuperKMeansIvfClusterer::<A>::merge_settings, (&clusterer, total), r),
        total >= 1,
    ensures
        r is Ok,
        ({
            let merge = r->Ok_0;
            let n = merge.num_centroids;
            let cap = merge.max_posting_len;
            let floor = merge.min_posting_len;
            let budget = merge.max_replicas_per_cluster;
            &&& 1 <= n <= total
            &&& merge.training_samples_per_centroid == clusterer@.training_samples_per_centroid
            &&& merge.assign_batch_size == clusterer@.assign_batch_size
            &&& clusterer@.max_posting_len matches Some(max) ==> cap == max
            &&& clusterer@.max_posting_len is None ==> {
                ||| cap % 4 == 0 && cap * n <= 4 * total < (cap + 4) * n
                ||| cap == usize::MAX && cap * n < 4 * total
            }
            &&& clusterer@.min_posting_len matches Some(min) ==> floor == min
            &&& clusterer@.min_posting_len is None ==> {
                &&& 1 <= floor
                &&& floor == 1 || 4 * floor * n <= total
                &&& total < 4 * (floor + 1) * n
            }
            &&& clusterer@.max_replicas_per_cluster matches Some(max) ==> budget == max
            &&& clusterer@.max_replicas_per_cluster is None ==> {
                ||| budget >= 1 && 2 * budget <= cap < 2 * budget + 2
                ||| budget == 1 && cap < 2
            }
            &&& clusterer@.max_replicas_per_vector matches Some(max) ==> merge.max_replicas_per_vector
                == max
            &&& clusterer@.max_replicas_per_vector is None ==> merge.max_replicas_per_vector == 8
            &&& clusterer@.replica_epsilon matches Some(epsilon) ==> merge.replica_epsilon == epsilon
            &&& clusterer@.replica_epsilon is None ==> merge.replica_epsilon.bits == 0x4040_0000
        }),
{
    law_merge_parameters_relate(clusterer@, total as nat, r->Ok_0);
}

/// The parameters of a merge for an index are those that its options set, where they
/// set them. Where they do not, a vector has at most eight replicas, and the closure
/// factor is three. Batches are of 40960 vectors.
pub proof fn law_merge_for_index<A: Arithmetic>(
    options: IndexOptions,
    clusterer: SuperKMeansIvfClusterer<A>,
    total: usize,
    r: Result<IvfMergeSettings, ClusterError>,
)
    requires
        call_ensures(SuperKMeansIvfClusterer::<A>::for_index, (&options,), clusterer),
        call_ensures(SuperKMeansIvfClusterer::<A>::merge_settings, (&clusterer, total), r),
    ensures
        r is Ok,
        ({
            let merge = r->Ok_0;
            &&& merge.training_samples_per_centroid == options.training_samples_per_centroid
            &&& merge.assign_batch_size == 40960
            &&& options.max_posting_len matches Some(max) ==> merge.max_posting_len == max
            &&& options.min_posting_len matches Some(min) ==> merge.min_posting_len == min
            &&& options.max_replicas_per_cluster matches Some(max)
                ==> merge.max_replicas_per_cluster == max
            &&& merge.max_replicas_per_vector == match options.max_replicas_per_vector {
                Some(max) => max,
                None => 8,
            }
            &&& options.replica_epsilon matches Some(epsilon) ==> merge.replica_epsilon == epsilon
            &&& options.replica_epsilon is None ==> merge.replica_epsilon.bits == 0x4040_0000
        }),
{
}

/// Every merge has the number of centroids that the number of documents and the
/// ratio have by themselves.
pub proof fn law_merge_counts_centroids<A: Arithmetic>(
    clusterer: SuperKMeansIvfClusterer<A>,
    ratio: Single,
    total: usize,
    n: usize,
    r: Result<IvfMergeSettings, ClusterError>,
)
    requires
        call_ensures(SuperKMeansIvfClusterer::<A>::centroid_ratio, (&clusterer,), ratio),
        call_ensures(SuperKMeansIvfClusterer::<A>::merge_settings, (&clusterer, total), r),
        call_ensures(num_centroids, (total, ratio), n),
        total >= 1,
    ensures
        r matches Ok(merge) && merge.num_centroids == n,
{
}

/// How many centroids documents get: the part of them that the ratio says, rounded
/// up, but at least one and at most all. A ratio of at most one is `s` over two to
/// the `k`. The part is exact where the product has no more than 53 bits, and else
/// up to one part in two to the 53rd for each of its two roundings.
pub proof fn law_num_centroids(total: usize, ratio: Single, n: usize, s: nat, k: nat)
    requires
        call_ensures(num_centroids, (total, ratio), n),
        1 <= total,
        0 < ratio.bits <= 0x3f80_0000,
        ratio.bits < 0x80_0000 ==> s == ratio.bits && k == 149,
        ratio.bits >= 0x80_0000 ==> s == 0x80_0000 + ratio.bits % 0x80_0000 && k + ratio.bits
            / 0x80_0000 == 150,
    ensures
        ({
            let q = 0x20_0000_0000_0000int;
            &&& 1 <= n <= total
            &&& n < total ==> (q - 1) * (q - 1) * (total * s) <= q * q * (n * pow2(k))
            &&& n > 1 ==> q * q * ((n - 1) * pow2(k)) < (q + 1) * (q + 1) * (total * s)
            &&& total * s < q && n < total ==> total * s <= n * pow2(k)
            &&& total * s < q && n > 1 ==> (n - 1) * pow2(k) < total * s
        }),
{
    law_centroid_count_is_the_part(total as nat, ratio, s, k);
}

/// The number of centroids is computed in double precision: the number of documents
/// is rounded to the nearest double, and so is its product with `s`. What comes out,
/// over two to the `k`, is rounded up, but at least one and at most all documents.
/// The ratio is `s` over two to the `k`.
pub proof fn law_num_centroids_in_double_precision(
    total: usize,
    ratio: Single,
    n: usize,
    s: nat,
    k: nat,
)
    requires
        call_ensures(num_centroids, (total, ratio), n),
        1 <= total,
        0 < ratio.bits <= 0x3f80_0000,
        ratio.bits < 0x80_0000 ==> s == ratio.bits && k == 149,
        ratio.bits >= 0x80_0000 ==> s == 0x80_0000 + ratio.bits % 0x80_0000 && k + ratio.bits
            / 0x80_0000 == 150,
    ensures
        1 <= n <= total,
        exists|documents: nat, product: nat|
            {
                &&& #[trigger] is_nearest_double(total as nat, documents)
                &&& #[trigger] is_nearest_double(documents * s, product)
                &&& n < total ==> product <= n * pow2(k)
                &&& n > 1 ==> (n - 1) * pow2(k) < product
            },
{
    law_centroid_count_in_double_precision(total as nat, ratio, s, k);
}

/// What is made of the outcome of training: centroids in the number asked for, of
/// the dimensionality asked for, with the values that came; or the error that came;
/// or, where another number of values came, an error that tells both numbers.
pub proof fn law_finish_training(
    outcome: Result<Vec<Single>, KMeansError>,
    num_centroids: usize,
    dim: usize,
    r: Result<IvfMatrix, ClusterError>,
)
    requires
        call_ensures(finish_training, (outcome, num_centroids, dim), r),
        outcome is Ok ==> num_centroids * dim <= usize::MAX,
    ensures
        r is Ok <==> outcome is Ok && outcome->Ok_0@.len() == num_centroids * dim,
        r matches Ok(trained) ==> trained.rows == num_centroids && trained.dims == dim
            && trained.values@ == outcome->Ok_0@,
        outcome matches Err(error) ==> r == Err::<IvfMatrix, ClusterError>(
            ClusterError::Clustering(error),
        ),
        outcome is Ok && r is Err ==> {
            &&& r->Err_0 is TrainedValueCount
            &&& r->Err_0->TrainedValueCount_expected == num_centroids * dim
            &&& r->Err_0->TrainedValueCount_got == outcome->Ok_0@.len()
        },
{
    law_training(outcome, num_centroids, VectorOptions { dim, metric: Metric::L2 }, r);
}

/// Whether the clustering algorithm is asked for the given number of clusters, of
/// the dimensionality of the field: by angle unless the field goes by Euclidean
/// distance and the clusterer does not ask for angles itself, and else as the
/// clusterer says.
pub open spec fn is_job_for<A: Arithmetic>(
    job: ClusteringJob,
    clusterer: SuperKMeansIvfClusterer<A>,
    options: VectorOptions,
    num_clusters: usize,
) -> bool {
    &&& job.num_clusters == num_clusters
    &&& job.dim == options.dim
    &&& job.config.angular <==> clusterer@.config.angular || options.metric != Metric::L2
    &&& job.config.suppress_warnings == clusterer@.config.suppress_warnings
    &&& job.config.sampling_fraction == clusterer@.config.sampling_fraction
}

/// Whether an error says what is wrong with vectors that do not fit the field: first
/// the dimensionality, then the number of document ids, then the number of values.
pub open spec fn is_vector_refusal(
    options: VectorOptions,
    vectors: IvfVectors,
    error: ClusterError,
) -> bool {
    let matrix = vectors.matrix;
    match error {
        ClusterError::VectorDims { expected, got } => {
            &&& expected == options.dim
            &&& got == matrix.dims
            &&& expected != got
        },
        ClusterError::DocIdCount { expected, got } => {
            &&& matrix.dims == options.dim
            &&& expected == matrix.rows
            &&& got == vectors.doc_ids@.len()
            &&& expected != got
        },
        ClusterError::VectorValueCount { expected, got } => {
            &&& matrix.dims == options.dim
            &&& vectors.doc_ids@.len() == matrix.rows
            &&& expected == matrix.rows * options.dim
            &&& got == matrix.values@.len()
            &&& expected != got
        },
        _ => false,
    }
}

/// Whether an error says what is wrong with centroids that do not fit the field:
/// first that there are none, then the dimensionality, then the number of values.
pub open spec fn is_centroid_refusal(
    options: VectorOptions,
    centroids: IvfMatrix,
    error: ClusterError,
) -> bool {
    match error {
        ClusterError::NoCentroids => centroids.rows == 0,
        ClusterError::CentroidDims { expected, got } => {
            &&& centroids.rows != 0
            &&& expected == options.dim
            &&& got == centroids.dims
            &&& expected != got
        },
        ClusterError::CentroidValueCount { expected, got } => {
            &&& centroids.rows != 0
            &&& centroids.dims == options.dim
            &&& expected == centroids.rows * options.dim
            &&& got == centroids.values@.len()
            &&& expected != got
        },
        _ => false,
    }
}

/// What training gives. If the vectors do not fit the field, it says why. Otherwise
/// the algorithm is asked for as many clusters as centroids are wanted; if it gives
/// them, the result is a matrix of that many centroids of the field's dimensionality
/// with the algorithm's values, and if it fails, so does training, with its error.
pub proof fn law_train<
    A: Arithmetic,
    C: FnOnce(ClusteringJob, &IvfMatrix) -> Result<Vec<Single>, KMeansError>,
>(
    clusterer: SuperKMeansIvfClusterer<A>,
    options: VectorOptions,
    vectors: IvfVectors,
    num_centroids: usize,
    cluster: C,
    r: Result<IvfMatrix, ClusterError>,
)
    requires
        call_ensures(
            SuperKMeansIvfClusterer::<A>::train::<C>,
            (&clusterer, &options, &vectors, num_centroids, cluster),
            r,
        ),
        vectors.matrix.dims == options.dim && vectors.doc_ids@.len() == vectors.matrix.rows
            ==> vectors.matrix.rows * options.dim <= usize::MAX,
    ensures
        ({
            let fits = vectors.matrix.dims == options.dim && vectors.doc_ids@.len()
                == vectors.matrix.rows && vectors.matrix.values@.len() == vectors.matrix.rows
                * options.dim;
            &&& !fits ==> r is Err && is_vector_refusal(options, vectors, r->Err_0)
            &&& fits ==> exists|job: ClusteringJob, outcome: Result<Vec<Single>, KMeansError>| #[trigger]
                cluster.ensures((job, &vectors.matrix), outcome) && is_job_for(
                    job,
                    clusterer,
                    options,
                    num_centroids,
                ) && match outcome {
                    Err(error) => r == Err::<IvfMatrix, ClusterError>(
                        ClusterError::Clustering(error),
                    ),
                    Ok(values) => {
                        &&& r is Ok <==> values@.len() == num_centroids * options.dim
                        &&& r matches Ok(trained) ==> trained.rows == num_centroids && trained.dims
                            == options.dim && trained.values@ == values@
                        &&& r matches Err(error) ==> error is TrainedValueCount && (num_centroids
                            * options.dim <= usize::MAX ==> error->TrainedValueCount_expected
                            == num_centroids * options.dim) && error->TrainedValueCount_got
                            == values@.len()
                    },
                }
        }),
{
    law_vector_problem(options, vectors);
    if vector_problem(options, vectors) is None {
        let job = clusterer@.job(num_centroids, options);
        law_job(clusterer@, num_centroids, options);
        let outcome = choose|outcome: Result<Vec<Single>, KMeansError>| #[trigger]
            cluster.ensures((job, &vectors.matrix), outcome) && is_trained(
                outcome,
                num_centroids,
                options.dim,
                r,
            );
        if let Ok(values) = outcome {
            assert(values.len() == values@.len());
            lemma_size_is_natural(num_centroids, options.dim);
        }
        assert(cluster.ensures((job, &vectors.matrix), outcome));
    }
}

/// What assignment gives. If the vectors do not fit the field, it says why, and else
/// if the centroids do not or there are none. Otherwise it gives nothing for no
/// vectors; and else the algorithm is asked for as many clusters as there are
/// centroids, and each primary that it comes to becomes an assignment in its place,
/// which is right if the primaries are centroids and no more than the vectors. If the
/// algorithm fails, so does assignment, with its error.
pub proof fn law_assign<
    A: Arithmetic,
    C: FnOnce(ClusteringJob, &IvfMatrix, &IvfMatrix) -> Result<Vec<u32>, KMeansError>,
    B: FnOnce(&[Single], usize, usize, usize, u64) -> CentroidNeighbors<A>,
>(
    clusterer: SuperKMeansIvfClusterer<A>,
    options: VectorOptions,
    vectors: IvfVectors,
    centroids: IvfMatrix,
    cluster: C,
    build: B,
    r: Result<Vec<Assignment>, ClusterError>,
)
    requires
        call_ensures(
            SuperKMeansIvfClusterer::<A>::assign::<C, B>,
            (&clusterer, &options, &vectors, &centroids, cluster, build),
            r,
        ),
        vectors.matrix.dims == options.dim && vectors.doc_ids@.len() == vectors.matrix.rows
            ==> vectors.matrix.rows * options.dim <= usize::MAX,
        centroids.rows != 0 && centroids.dims == options.dim ==> centroids.rows * options.dim
            <= usize::MAX,
    ensures
        ({
            let vectors_fit = vectors.matrix.dims == options.dim && vectors.doc_ids@.len()
                == vectors.matrix.rows && vectors.matrix.values@.len() == vectors.matrix.rows
                * options.dim;
            let fits = vectors_fit && centroids.rows != 0 && centroids.dims == options.dim
                && centroids.values@.len() == centroids.rows * options.dim;
            &&& !vectors_fit ==> r is Err && is_vector_refusal(options, vectors, r->Err_0)
            &&& vectors_fit && !fits ==> r is Err && is_centroid_refusal(
                options,
                centroids,
                r->Err_0,
            )
            &&& fits && vectors.matrix.rows == 0 ==> r is Ok && r->Ok_0@.len() == 0
            &&& fits && vectors.matrix.rows != 0 ==> exists|
                job: ClusteringJob,
                outcome: Result<Vec<u32>, KMeansError>,
            | #[trigger]
                cluster.ensures((job, &vectors.matrix, &centroids), outcome) && is_job_for(
                    job,
                    clusterer,
                    options,
                    centroids.rows,
                ) && match outcome {
                    Err(error) => r == Err::<Vec<Assignment>, ClusterError>(
                        ClusterError::Clustering(error),
                    ),
                    Ok(primaries) => {
                        &&& r is Ok
                        &&& r->Ok_0@.len() == primaries@.len()
                        &&& forall|i: int|
                            0 <= i < primaries@.len() ==> (#[trigger] r->Ok_0@[i]).primary
                                == primaries@[i]
                        &&& centroids.rows <= MAX_CENTROIDS && are_primaries(
                            primaries@,
                            vectors.matrix.rows as int,
                            centroids.rows as int,
                        ) ==> forall|i: int|
                            0 <= i < primaries@.len() ==> is_right_assignment(
                                results::<A>(),
                                clusterer@,
                                options.metric,
                                vectors,
                                centroids,
                                i,
                                primaries@[i],
                                #[trigger] r->Ok_0@[i],
                            )
                    },
                }
        }),
{
    law_vector_problem(options, vectors);
    law_centroid_problem(options, vectors, centroids);
    if assignment_problem(options, vectors, centroids) is None && vectors.matrix.rows != 0 {
        let job = clusterer@.job(centroids.rows, options);
        law_job(clusterer@, centroids.rows, options);
        let outcome = choose|outcome: Result<Vec<u32>, KMeansError>| #[trigger]
            cluster.ensures((job, &vectors.matrix, &centroids), outcome) && match outcome {
                Err(error) => r == Err::<Vec<Assignment>, ClusterError>(
                    ClusterError::Clustering(error),
                ),
                Ok(primaries) => r matches Ok(assignments) && are_assignments(
                    results::<A>(),
                    clusterer@,
                    options.metric,
                    vectors,
                    centroids,
                    primaries@,
                    assignments@,
                ),
            };
        assert(cluster.ensures((job, &vectors.matrix, &centroids), outcome));
        if let Ok(primaries) = outcome {
            if centroids.rows <= MAX_CENTROIDS && are_primaries(
                primaries@,
                vectors.matrix.rows as int,
                centroids.rows as int,
            ) {
                lemma_assignments_are_right(
                    results::<A>(),
                    clusterer@,
                    options.metric,
                    vectors,
                    centroids,
                    primaries@,
                    r->Ok_0@,
                );
            }
        }
    }
}

} // verus!
