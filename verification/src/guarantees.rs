//! What holds of every assignment and of every merge.
use vstd::prelude::*;
use vstd::arithmetic::div_mod::lemma_fundamental_div_mod;
use crate::arithmetic::{distance, row_of, Op, Results};
use crate::arithmetic::{lemma_matrix_has_row, lemma_row_bounds};
use crate::cache::MIN_NEIGHBOR_CAP;
use crate::clusterer::{admits_pruning, are_assignments, are_assignments_by, are_primaries};
use crate::clusterer::{assignment_problem, centroid_problem, has_all_replicas, is_trained};
use crate::clusterer::{may_go_by, replicas_of, vector_problem, ClustererSettings};
use crate::clusterer::{DEFAULT_MAX_REPLICAS_PER_VECTOR, DEFAULT_REPLICA_EPSILON_BITS};
use crate::errors::{ClusterError, KMeansError};
use crate::exactness::{law_neighbor_list, law_replicas, names, names_others_once};
use crate::exactness::{law_pruning_changes_nothing, lemma_kept, lemma_listed_candidates};
use crate::exactness::{law_few_centroids_prune_safely, pruning_is_always_safe, pruning_is_safe};
use crate::neighbors::{distances_from, distances_from_row, neighbor_list, MAX_CENTROIDS};
use crate::ratio::centroid_count;
use crate::replicas::{full_scan_replicas, indices, listed_candidates};
use crate::replicas::{listed_replicas, relative_neighborhood};
use crate::selection::{are_the_replicas, law_full_scan_finds_the_replicas};
use crate::single::{Entry, Single};
use crate::types::{Assignment, IvfMatrix, IvfMergeSettings, IvfVectors, Metric, VectorOptions};

verus! {

/// Whether clusters are fit to replicate a vector of cluster `p` into: at most
/// `max` of them, each one of the `n` clusters, none twice and none `p` itself.
pub open spec fn are_fit_replicas(replicas: Seq<u32>, n: int, p: int, max: int) -> bool {
    &&& replicas.len() <= max
    &&& forall|k: int| 0 <= k < replicas.len() ==> #[trigger] replicas[k] < n && replicas[k] != p
    &&& replicas.no_duplicates()
}

proof fn lemma_listed_replicas(
    m: Results,
    list: Seq<Entry>,
    v: Seq<Single>,
    centroids: Seq<Single>,
    n: int,
    dim: int,
    p: int,
    ref_dist: Single,
    eps_sq: Single,
    max: int,
)
    requires
        0 <= n <= MAX_CENTROIDS,
        0 <= max,
        names_others_once(list, n, p),
    ensures
        are_fit_replicas(
            indices(listed_replicas(m, list, v, centroids, dim, ref_dist, eps_sq, max)),
            n,
            p,
            max,
        ),
{
    let d = distances_from(m, v, centroids, dim);
    let threshold = m(Op::Mul, eps_sq, ref_dist);
    let cands = listed_candidates(list, d, threshold);
    let kept = listed_replicas(m, list, v, centroids, dim, ref_dist, eps_sq, max);
    lemma_listed_candidates(list, d, n, p, threshold);
    lemma_kept(relative_neighborhood(m, centroids, dim), cands, max);
    assert forall|k: int| 0 <= k < kept.len() implies (#[trigger] kept[k]).1 < n && kept[k].1 != p by {
        assert(cands.contains(kept[k]));
        assert(names(list, kept[k].1 as int));
    }
    assert forall|j: int, k: int| 0 <= j < k < kept.len() implies (#[trigger] kept[j]).1 != (
    #[trigger] kept[k]).1 by {
        assert(cands.contains(kept[j]) && cands.contains(kept[k]));
        assert(kept[j] != kept[k]);
    }
}

/// Whatever table of the centroids a scan goes by, the replicas of a vector are
/// fit: no more than the cap, clusters that there are, none twice, and not the
/// primary.
pub proof fn law_replicas_are_fit(
    m: Results,
    cap: Option<int>,
    v: Seq<Single>,
    centroids: IvfMatrix,
    p: int,
    epsilon: Single,
    max: int,
)
    requires
        centroids.rows <= MAX_CENTROIDS,
        0 <= p < centroids.rows,
        0 <= max,
        cap matches Some(c) ==> 0 <= c,
    ensures
        are_fit_replicas(
            replicas_of(m, cap, v, centroids, p, epsilon, max),
            centroids.rows as int,
            p,
            max,
        ),
{
    let n = centroids.rows as int;
    let dim = centroids.dims as int;
    let values = centroids.values@;
    let ref_dist = distance(m, v, row_of(values, dim, p));
    let eps_sq = m(Op::Mul, epsilon, epsilon);
    law_replicas(m, v, values, n, dim, p, ref_dist, eps_sq, max);
    let all = full_scan_replicas(m, v, values, n, dim, p, ref_dist, eps_sq, max);
    assert forall|j: int, k: int|
        0 <= j < indices(all).len() && 0 <= k < indices(all).len() && j != k implies indices(all)[j]
        != indices(all)[k] by {
        if j < k {
            assert(all[j].1 != all[k].1);
        } else {
            assert(all[k].1 != all[j].1);
        }
    }
    if let Some(c) = cap {
        law_neighbor_list(distances_from_row(m, values, dim, p), n, p, c);
        lemma_listed_replicas(
            m,
            neighbor_list(m, values, n, dim, p, c),
            v,
            values,
            n,
            dim,
            p,
            ref_dist,
            eps_sq,
            max,
        );
    }
}

/// Every assignment keeps the primary that it was given, and adds fit replicas:
/// no more than the cap, clusters that there are, none twice, and not the
/// primary. With a cap of zero there are none.
pub proof fn law_assignments_are_fit(
    m: Results,
    settings: ClustererSettings,
    metric: Metric,
    vectors: IvfVectors,
    centroids: IvfMatrix,
    primaries: Seq<u32>,
    assignments: Seq<Assignment>,
)
    requires
        are_assignments(m, settings, metric, vectors, centroids, primaries, assignments),
        are_primaries(primaries, vectors.matrix.rows as int, centroids.rows as int),
        centroids.rows <= MAX_CENTROIDS,
    ensures
        assignments.len() == primaries.len(),
        forall|i: int|
            0 <= i < assignments.len() ==> (#[trigger] assignments[i]).primary == primaries[i]
                && are_fit_replicas(
                assignments[i].replicas@,
                centroids.rows as int,
                primaries[i] as int,
                settings.replica_cap() as int,
            ),
{
    if settings.replica_cap() != 0 {
        let cap = choose|cap: Option<int>| #[trigger]
            may_go_by(cap, metric) && are_assignments_by(
                cap,
                m,
                settings,
                vectors,
                centroids,
                primaries,
                assignments,
            );
        assert forall|i: int| 0 <= i < assignments.len() implies are_fit_replicas(
            (#[trigger] assignments[i]).replicas@,
            centroids.rows as int,
            primaries[i] as int,
            settings.replica_cap() as int,
        ) by {
            law_replicas_are_fit(
                m,
                cap,
                row_of(vectors.matrix.values@, centroids.dims as int, i),
                centroids,
                primaries[i] as int,
                settings.epsilon(),
                settings.replica_cap() as int,
            );
        }
    }
}

/// By raw inner products, vectors are assigned as the scan of every centroid
/// has it: no table is gone by.
pub proof fn law_inner_products_are_not_pruned(
    m: Results,
    settings: ClustererSettings,
    vectors: IvfVectors,
    centroids: IvfMatrix,
    primaries: Seq<u32>,
    assignments: Seq<Assignment>,
)
    requires
        are_assignments(m, settings, Metric::Dot, vectors, centroids, primaries, assignments),
        settings.replica_cap() != 0,
    ensures
        are_assignments_by(None, m, settings, vectors, centroids, primaries, assignments),
{
}

/// Going by a table of the centroids, vectors are assigned as the scan of every
/// centroid has it, whatever the table's cap, exactly if for none of them a
/// certified list leaves out a centroid that makes a difference.
pub proof fn law_assignments_do_not_depend_on_the_table(
    cap: int,
    m: Results,
    settings: ClustererSettings,
    vectors: IvfVectors,
    centroids: IvfMatrix,
    primaries: Seq<u32>,
    assignments: Seq<Assignment>,
)
    requires
        are_assignments_by(Some(cap), m, settings, vectors, centroids, primaries, assignments),
        are_primaries(primaries, vectors.matrix.rows as int, centroids.rows as int),
        centroids.rows <= MAX_CENTROIDS,
        0 <= cap,
    ensures
        are_assignments_by(None, m, settings, vectors, centroids, primaries, assignments) <==> (
        forall|i: int|
            0 <= i < primaries.len() ==> pruning_is_safe(
                m,
                cap,
                row_of(vectors.matrix.values@, centroids.dims as int, i),
                centroids,
                #[trigger] primaries[i] as int,
                settings.epsilon(),
                settings.replica_cap() as int,
            )),
{
    assert forall|i: int|
        #![trigger assignments[i]]
        #![trigger primaries[i]]
        0 <= i < primaries.len() implies (assignments[i].replicas@ == replicas_of(
        m,
        None,
        row_of(vectors.matrix.values@, centroids.dims as int, i),
        centroids,
        primaries[i] as int,
        settings.epsilon(),
        settings.replica_cap() as int,
    ) <==> pruning_is_safe(
        m,
        cap,
        row_of(vectors.matrix.values@, centroids.dims as int, i),
        centroids,
        primaries[i] as int,
        settings.epsilon(),
        settings.replica_cap() as int,
    )) by {
        law_pruning_changes_nothing(
            m,
            cap,
            row_of(vectors.matrix.values@, centroids.dims as int, i),
            centroids,
            primaries[i] as int,
            settings.epsilon(),
            settings.replica_cap() as int,
        );
    }
}

/// With so few centroids that no kept table leaves one out, vectors are assigned as
/// the scan of every centroid has it, whichever table is gone by.
pub proof fn law_few_centroids_are_all_scanned(
    m: Results,
    settings: ClustererSettings,
    metric: Metric,
    vectors: IvfVectors,
    centroids: IvfMatrix,
    primaries: Seq<u32>,
    assignments: Seq<Assignment>,
)
    requires
        are_assignments(m, settings, metric, vectors, centroids, primaries, assignments),
        are_primaries(primaries, vectors.matrix.rows as int, centroids.rows as int),
        centroids.rows <= MIN_NEIGHBOR_CAP + 1,
        settings.replica_cap() != 0,
    ensures
        are_assignments_by(None, m, settings, vectors, centroids, primaries, assignments),
        is_settled(m, settings, metric, vectors, centroids, primaries),
{
    assert forall|i: int| 0 <= i < primaries.len() implies pruning_is_always_safe(
        m,
        row_of(vectors.matrix.values@, centroids.dims as int, i),
        centroids,
        #[trigger] primaries[i] as int,
        settings.epsilon(),
        settings.replica_cap() as int,
    ) by {
        law_few_centroids_prune_safely(
            m,
            row_of(vectors.matrix.values@, centroids.dims as int, i),
            centroids,
            primaries[i] as int,
            settings.epsilon(),
            settings.replica_cap() as int,
        );
    }
    assert forall|i: int| 0 <= i < primaries.len() implies (#[trigger] assignments[i]).primary
        == primaries[i] && assignments[i].replicas@ == replicas_of(
        m,
        None,
        row_of(vectors.matrix.values@, centroids.dims as int, i),
        centroids,
        primaries[i] as int,
        settings.epsilon(),
        settings.replica_cap() as int,
    ) by {
        lemma_settled(m, settings, metric, vectors, centroids, primaries, assignments, i);
    }
}

/// Whether two assignments say the same.
pub open spec fn is_same(a: Assignment, b: Assignment) -> bool {
    a.primary == b.primary && a.replicas@ == b.replicas@
}

/// Whether assignment leaves no choice: there are no replicas, no table is gone by,
/// or pruning is safe for every vector.
pub open spec fn is_settled(
    m: Results,
    settings: ClustererSettings,
    metric: Metric,
    vectors: IvfVectors,
    centroids: IvfMatrix,
    primaries: Seq<u32>,
) -> bool {
    ||| settings.replica_cap() == 0
    ||| !admits_pruning(metric)
    ||| forall|i: int|
        0 <= i < primaries.len() ==> pruning_is_always_safe(
            m,
            row_of(vectors.matrix.values@, centroids.dims as int, i),
            centroids,
            #[trigger] primaries[i] as int,
            settings.epsilon(),
            settings.replica_cap() as int,
        )
}

/// What a vector is assigned where assignment leaves no choice.
proof fn lemma_settled(
    m: Results,
    settings: ClustererSettings,
    metric: Metric,
    vectors: IvfVectors,
    centroids: IvfMatrix,
    primaries: Seq<u32>,
    assignments: Seq<Assignment>,
    i: int,
)
    requires
        are_assignments(m, settings, metric, vectors, centroids, primaries, assignments),
        is_settled(m, settings, metric, vectors, centroids, primaries),
        0 <= i < primaries.len(),
    ensures
        assignments.len() == primaries.len(),
        assignments[i].primary == primaries[i],
        assignments[i].replicas@ == if settings.replica_cap() == 0 {
            Seq::<u32>::empty()
        } else {
            replicas_of(
                m,
                None,
                row_of(vectors.matrix.values@, centroids.dims as int, i),
                centroids,
                primaries[i] as int,
                settings.epsilon(),
                settings.replica_cap() as int,
            )
        },
{
    let a = assignments[i];
    let p = primaries[i];
    if settings.replica_cap() != 0 {
        let cap = choose|cap: Option<int>| #[trigger]
            may_go_by(cap, metric) && are_assignments_by(
                cap,
                m,
                settings,
                vectors,
                centroids,
                primaries,
                assignments,
            );
        assert(has_all_replicas(m, settings, vectors, centroids, i, assignments[i]));
    }
}

/// Which table is kept never shows: two assignments of the same vectors, with the
/// same primaries and settings, say the same, where assignment leaves no choice.
pub proof fn law_kept_tables_do_not_show(
    m: Results,
    settings: ClustererSettings,
    metric: Metric,
    vectors: IvfVectors,
    centroids: IvfMatrix,
    primaries: Seq<u32>,
    first: Seq<Assignment>,
    second: Seq<Assignment>,
)
    requires
        are_assignments(m, settings, metric, vectors, centroids, primaries, first),
        are_assignments(m, settings, metric, vectors, centroids, primaries, second),
        is_settled(m, settings, metric, vectors, centroids, primaries),
    ensures
        first.len() == second.len(),
        forall|i: int| 0 <= i < first.len() ==> is_same(#[trigger] first[i], second[i]),
{
    assert forall|i: int| 0 <= i < first.len() implies is_same(#[trigger] first[i], second[i]) by {
        lemma_settled(m, settings, metric, vectors, centroids, primaries, first, i);
        lemma_settled(m, settings, metric, vectors, centroids, primaries, second, i);
    }
}

proof fn lemma_row_of_joined(a: Seq<Single>, b: Seq<Single>, dim: int, rows: int, i: int)
    requires
        0 <= dim,
        0 <= rows,
        0 <= i,
        a.len() == rows * dim,
    ensures
        i < rows ==> row_of(a + b, dim, i) == row_of(a, dim, i),
        (i + 1) * dim <= b.len() ==> row_of(a + b, dim, rows + i) == row_of(b, dim, i),
{
    lemma_row_bounds(dim, i);
    if i < rows {
        lemma_matrix_has_row(a, dim, rows, i);
        assert(row_of(a + b, dim, i) =~= row_of(a, dim, i));
    }
    if (i + 1) * dim <= b.len() {
        assert((rows + i) * dim == rows * dim + i * dim && (rows + i + 1) * dim == rows * dim + (i
            + 1) * dim) by (nonlinear_arith);
        assert(row_of(a + b, dim, rows + i) =~= row_of(b, dim, i));
    }
}

/// How vectors are cut into batches does not show: assigning two batches as one
/// gives the assignments of the first, and then those of the second, where
/// assignment leaves no choice.
pub proof fn law_batches_do_not_show(
    m: Results,
    settings: ClustererSettings,
    metric: Metric,
    centroids: IvfMatrix,
    a: IvfVectors,
    b: IvfVectors,
    joined: IvfVectors,
    pa: Seq<u32>,
    pb: Seq<u32>,
    of_a: Seq<Assignment>,
    of_b: Seq<Assignment>,
    of_joined: Seq<Assignment>,
)
    requires
        a.matrix.values@.len() == a.matrix.rows * centroids.dims,
        b.matrix.values@.len() == b.matrix.rows * centroids.dims,
        joined.matrix.values@ == a.matrix.values@ + b.matrix.values@,
        pa.len() == a.matrix.rows,
        pb.len() == b.matrix.rows,
        are_assignments(m, settings, metric, a, centroids, pa, of_a),
        are_assignments(m, settings, metric, b, centroids, pb, of_b),
        are_assignments(m, settings, metric, joined, centroids, pa + pb, of_joined),
        is_settled(m, settings, metric, joined, centroids, pa + pb),
    ensures
        of_joined.len() == of_a.len() + of_b.len(),
        forall|i: int| 0 <= i < of_a.len() ==> is_same(#[trigger] of_joined[i], of_a[i]),
        forall|i: int|
            0 <= i < of_b.len() ==> is_same(of_joined[of_a.len() + i], #[trigger] of_b[i]),
{
    let dim = centroids.dims as int;
    let rows = a.matrix.rows as int;
    let all = pa + pb;
    assert forall|i: int| 0 <= i < pa.len() implies (#[trigger] pa[i]) == all[i] && row_of(
        joined.matrix.values@,
        dim,
        i,
    ) == row_of(a.matrix.values@, dim, i) by {
        lemma_row_of_joined(a.matrix.values@, b.matrix.values@, dim, rows, i);
    }
    assert forall|i: int| 0 <= i < pb.len() implies (#[trigger] pb[i]) == all[rows + i] && row_of(
        joined.matrix.values@,
        dim,
        rows + i,
    ) == row_of(b.matrix.values@, dim, i) by {
        lemma_matrix_has_row(b.matrix.values@, dim, b.matrix.rows as int, i);
        lemma_row_of_joined(a.matrix.values@, b.matrix.values@, dim, rows, i);
    }
    assert(is_settled(m, settings, metric, a, centroids, pa));
    assert(is_settled(m, settings, metric, b, centroids, pb));
    assert forall|i: int| 0 <= i < of_a.len() implies is_same(#[trigger] of_joined[i], of_a[i]) by {
        assert(pa[i] == all[i]);
        lemma_settled(m, settings, metric, a, centroids, pa, of_a, i);
        lemma_settled(m, settings, metric, joined, centroids, all, of_joined, i);
    }
    assert forall|i: int| 0 <= i < of_b.len() implies is_same(
        of_joined[of_a.len() + i],
        #[trigger] of_b[i],
    ) by {
        assert(pb[i] == all[rows + i]);
        lemma_settled(m, settings, metric, b, centroids, pb, of_b, i);
        lemma_settled(m, settings, metric, joined, centroids, all, of_joined, rows + i);
    }
}

/// The parameters of every merge make sense: there is a centroid at least and
/// none without a document, and where they are not set, the floor on cluster size
/// is at most the mean, the cap at least the mean, and none of them zero.
pub proof fn law_merge_settings_make_sense(settings: ClustererSettings, total: nat)
    requires
        settings.allow_merge(),
        1 <= total <= usize::MAX,
    ensures
        1 <= centroid_count(total, settings.centroid_ratio) <= total,
        1 <= settings.mean_posting_len(total),
        settings.min_posting_len is None ==> 1 <= settings.posting_floor(total)
            <= settings.mean_posting_len(total),
        settings.max_posting_len is None ==> settings.mean_posting_len(total)
            <= settings.posting_cap(total) <= usize::MAX,
        settings.max_replicas_per_cluster is None ==> 1 <= settings.cluster_replica_cap(total),
{
    let n = centroid_count(total, settings.centroid_ratio);
    assert(total / n <= total) by (nonlinear_arith)
        requires
            1 <= n,
    ;
}

/// How a vector's replicas relate to its primary and to the settings: they are the
/// replicas among all other centroids, within the square of the closure factor times
/// the distance of the primary, and no more than the cap, where assignment leaves no
/// choice. A closure factor or cap that is not set is the default one.
pub proof fn law_assigned_replicas(
    m: Results,
    settings: ClustererSettings,
    metric: Metric,
    vectors: IvfVectors,
    centroids: IvfMatrix,
    primaries: Seq<u32>,
    assignments: Seq<Assignment>,
    i: int,
    epsilon: Single,
    max: usize,
)
    requires
        are_assignments(m, settings, metric, vectors, centroids, primaries, assignments),
        is_settled(m, settings, metric, vectors, centroids, primaries),
        are_primaries(primaries, vectors.matrix.rows as int, centroids.rows as int),
        centroids.rows <= MAX_CENTROIDS,
        0 <= i < primaries.len(),
        settings.replica_epsilon == Some(epsilon) || (settings.replica_epsilon is None
            && epsilon.bits == DEFAULT_REPLICA_EPSILON_BITS),
        settings.max_replicas_per_vector == Some(max) || (settings.max_replicas_per_vector is None
            && max == DEFAULT_MAX_REPLICAS_PER_VECTOR),
    ensures
        ({
            let values = centroids.values@;
            let dim = centroids.dims as int;
            let p = primaries[i];
            let v = row_of(vectors.matrix.values@, dim, i);
            let to_primary = distance(m, v, row_of(values, dim, p as int));
            &&& assignments[i].primary == p
            &&& max == 0 ==> assignments[i].replicas@.len() == 0
            &&& max > 0 ==> are_the_replicas(
                m,
                v,
                values,
                dim,
                |c: u32| c < centroids.rows && c != p,
                m(Op::Mul, m(Op::Mul, epsilon, epsilon), to_primary),
                max as int,
                assignments[i].replicas@,
            )
        }),
{
    let values = centroids.values@;
    let dim = centroids.dims as int;
    let p = primaries[i];
    let v = row_of(vectors.matrix.values@, dim, i);
    let ref_dist = distance(m, v, row_of(values, dim, p as int));
    let eps_sq = m(Op::Mul, epsilon, epsilon);
    assert(settings.epsilon() == epsilon);
    lemma_settled(m, settings, metric, vectors, centroids, primaries, assignments, i);
    law_full_scan_finds_the_replicas(
        m,
        v,
        values,
        centroids.rows as int,
        dim,
        p as int,
        ref_dist,
        eps_sq,
        max as int,
    );
    let rows = centroids.rows as int;
    let q = p as int;
    assert((|c: u32| c < rows && c != q) =~= (|c: u32| c < centroids.rows && c != p));
}

/// What a scan goes by: a table with a cap from 128 to 1024 by Euclidean distance
/// and by angle, none by raw inner products.
pub proof fn law_what_a_scan_goes_by(cap: Option<int>, metric: Metric)
    ensures
        may_go_by(cap, metric) <==> match metric {
            Metric::L2 => cap matches Some(c) && 128 <= c <= 1024,
            Metric::Cosine => cap matches Some(c) && 128 <= c <= 1024,
            Metric::Dot => cap is None,
        },
{
}

/// A setting that is set is taken as it is, and one that is not set stands for its
/// default. A merge can go by the settings if the ratio is above zero and at most
/// one, there is more than one training sample per centroid, and batches are not
/// empty.
pub proof fn law_settings(settings: ClustererSettings)
    ensures
        settings.max_replicas_per_vector matches Some(max) ==> settings.replica_cap() == max,
        settings.max_replicas_per_vector is None ==> settings.replica_cap() == 8,
        settings.replica_epsilon matches Some(epsilon) ==> settings.epsilon() == epsilon,
        settings.replica_epsilon is None ==> settings.epsilon().bits == 0x4040_0000,
        settings.allow_merge() <==> 0 < settings.centroid_ratio.bits <= 0x3f80_0000
            && settings.training_samples_per_centroid > 1 && settings.assign_batch_size > 0,
{
}

/// What the clustering algorithm is set up for: as many clusters, of the field's
/// dimensionality; by angle for cosine and inner product, or where the settings say
/// so; else as the settings say. Training asks for the number of centroids that it
/// is to train, assignment for the number of centroids that there are.
pub proof fn law_job(settings: ClustererSettings, num_clusters: usize, options: VectorOptions)
    ensures
        settings.job(num_clusters, options).num_clusters == num_clusters,
        settings.job(num_clusters, options).dim == options.dim,
        settings.job(num_clusters, options).config.angular <==> settings.config.angular
            || options.metric != Metric::L2,
        settings.job(num_clusters, options).config.suppress_warnings
            == settings.config.suppress_warnings,
        settings.job(num_clusters, options).config.sampling_fraction
            == settings.config.sampling_fraction,
{
}

pub proof fn lemma_size_is_natural(rows: usize, dim: usize)
    ensures
        0 <= rows * dim,
{
    assert(0 <= rows * dim) by (nonlinear_arith)
        requires
            0 <= rows,
            0 <= dim,
    ;
}

/// What training gives back: as many centroids as were asked for, of the field's
/// dimensionality, with the values that the algorithm gave, so that vectors of the
/// field can be assigned to them. It fails exactly if the algorithm did, with its
/// error, or gave another number of values, and then tells both numbers.
pub proof fn law_training(
    outcome: Result<Vec<Single>, KMeansError>,
    num_centroids: usize,
    options: VectorOptions,
    r: Result<IvfMatrix, ClusterError>,
)
    requires
        is_trained(outcome, num_centroids, options.dim, r),
        outcome is Ok ==> num_centroids * options.dim <= usize::MAX,
    ensures
        r is Ok <==> outcome is Ok && outcome->Ok_0@.len() == num_centroids * options.dim,
        r matches Ok(trained) ==> {
            &&& trained.rows == num_centroids
            &&& trained.dims == options.dim
            &&& trained.values@ == outcome->Ok_0@
            &&& num_centroids != 0 ==> centroid_problem(options, trained) is None
        },
        outcome matches Err(error) ==> r == Err::<IvfMatrix, ClusterError>(
            ClusterError::Clustering(error),
        ),
        outcome is Ok && r is Err ==> {
            &&& r->Err_0 is TrainedValueCount
            &&& r->Err_0->TrainedValueCount_expected == num_centroids * options.dim
            &&& r->Err_0->TrainedValueCount_got == outcome->Ok_0@.len()
        },
{
    lemma_size_is_natural(num_centroids, options.dim);
    if let Ok(values) = outcome {
        assert(values.len() == values@.len());
    }
}

/// What is accepted as vectors, and what is wrong otherwise: first the
/// dimensionality, then the number of document ids, then that of values.
pub proof fn law_vector_problem(options: VectorOptions, vectors: IvfVectors)
    requires
        vectors.matrix.dims == options.dim && vectors.doc_ids@.len() == vectors.matrix.rows
            ==> vectors.matrix.rows * options.dim <= usize::MAX,
    ensures
        ({
            let matrix = vectors.matrix;
            let problem = vector_problem(options, vectors);
            &&& problem is None <==> matrix.dims == options.dim && vectors.doc_ids@.len()
                == matrix.rows && matrix.values@.len() == matrix.rows * options.dim
            &&& matrix.dims != options.dim <==> problem == Some(
                ClusterError::VectorDims { expected: options.dim, got: matrix.dims },
            )
            &&& problem matches Some(ClusterError::DocIdCount { expected, got }) ==> {
                &&& matrix.dims == options.dim
                &&& expected == matrix.rows
                &&& got == vectors.doc_ids@.len()
                &&& expected != got
            }
            &&& problem matches Some(ClusterError::VectorValueCount { expected, got }) ==> {
                &&& matrix.dims == options.dim
                &&& vectors.doc_ids@.len() == matrix.rows
                &&& expected == matrix.rows * options.dim
                &&& got == matrix.values@.len()
                &&& expected != got
            }
            &&& problem is None || problem->0 is VectorDims || problem->0 is DocIdCount
                || problem->0 is VectorValueCount
        }),
{
    lemma_size_is_natural(vectors.matrix.rows, options.dim);
    assert(vectors.doc_ids.len() == vectors.doc_ids@.len());
    assert(vectors.matrix.values.len() == vectors.matrix.values@.len());
}

/// What is accepted as centroids, and what is wrong otherwise: first that there are
/// none, then the dimensionality, then the number of values. Vectors are looked at
/// before centroids.
pub proof fn law_centroid_problem(options: VectorOptions, vectors: IvfVectors, centroids: IvfMatrix)
    requires
        centroids.rows != 0 && centroids.dims == options.dim ==> centroids.rows * options.dim
            <= usize::MAX,
    ensures
        ({
            let problem = centroid_problem(options, centroids);
            &&& problem is None <==> centroids.rows != 0 && centroids.dims == options.dim
                && centroids.values@.len() == centroids.rows * options.dim
            &&& centroids.rows == 0 <==> problem == Some(ClusterError::NoCentroids)
            &&& centroids.rows != 0 && centroids.dims != options.dim <==> problem == Some(
                ClusterError::CentroidDims { expected: options.dim, got: centroids.dims },
            )
            &&& problem matches Some(ClusterError::CentroidValueCount { expected, got }) ==> {
                &&& centroids.rows != 0
                &&& centroids.dims == options.dim
                &&& expected == centroids.rows * options.dim
                &&& got == centroids.values@.len()
                &&& expected != got
            }
            &&& problem is None || problem->0 is NoCentroids || problem->0 is CentroidDims
                || problem->0 is CentroidValueCount
            &&& vector_problem(options, vectors) is Some ==> assignment_problem(
                options,
                vectors,
                centroids,
            ) == vector_problem(options, vectors)
            &&& vector_problem(options, vectors) is None ==> assignment_problem(
                options,
                vectors,
                centroids,
            ) == problem
        }),
{
    lemma_size_is_natural(centroids.rows, options.dim);
    assert(centroids.values.len() == centroids.values@.len());
}

/// How the parameters of a merge relate to one another. A parameter that is set is
/// taken as it is. Otherwise:
///
/// - the cap on cluster size is four times the whole number of documents that each
///   centroid gets, or the largest number there is;
/// - the floor is a quarter of it, rounded down, but at least one;
/// - the replica budget of a cluster is half of the cap of the same merge, rounded
///   down, but at least one.
pub proof fn law_merge_parameters_relate(
    settings: ClustererSettings,
    total: nat,
    merge: IvfMergeSettings,
)
    requires
        1 <= total <= usize::MAX,
        settings.are_merge_settings(total, merge),
    ensures
        ({
            let n = merge.num_centroids;
            let cap = merge.max_posting_len;
            let floor = merge.min_posting_len;
            let budget = merge.max_replicas_per_cluster;
            &&& 1 <= n <= total
            &&& settings.max_posting_len matches Some(max) ==> cap == max
            &&& settings.max_posting_len is None ==> {
                ||| cap % 4 == 0 && cap * n <= 4 * total < (cap + 4) * n
                ||| cap == usize::MAX && cap * n < 4 * total
            }
            &&& settings.min_posting_len matches Some(min) ==> floor == min
            &&& settings.min_posting_len is None ==> {
                &&& 1 <= floor
                &&& floor == 1 || 4 * floor * n <= total
                &&& total < 4 * (floor + 1) * n
            }
            &&& settings.max_replicas_per_cluster matches Some(max) ==> budget == max
            &&& settings.max_replicas_per_cluster is None ==> {
                ||| budget >= 1 && 2 * budget <= cap < 2 * budget + 2
                ||| budget == 1 && cap < 2
            }
            &&& settings.max_replicas_per_vector matches Some(max) ==> merge.max_replicas_per_vector
                == max
            &&& settings.max_replicas_per_vector is None ==> merge.max_replicas_per_vector == 8
            &&& settings.replica_epsilon matches Some(epsilon) ==> merge.replica_epsilon == epsilon
            &&& settings.replica_epsilon is None ==> merge.replica_epsilon.bits == 0x4040_0000
            &&& merge.training_samples_per_centroid == settings.training_samples_per_centroid
            &&& merge.assign_batch_size == settings.assign_batch_size
        }),
{
    let n = merge.num_centroids as int;
    let t = total as int;
    let mean = t / n;
    let cap = merge.max_posting_len as int;
    let floor = merge.min_posting_len as int;
    assert(1 <= n <= t);
    lemma_fundamental_div_mod(t, n);
    assert(mean * n <= t < (mean + 1) * n) by (nonlinear_arith)
        requires
            t == n * mean + t % n,
            0 <= t % n < n,
    ;
    assert(1 <= mean) by (nonlinear_arith)
        requires
            n <= t,
            t < (mean + 1) * n,
            1 <= n,
    ;
    assert(settings.mean_posting_len(total) == mean);
    if settings.max_posting_len is None {
        if 4 * mean <= usize::MAX {
            assert(cap == 4 * mean);
            assert(cap * n <= 4 * t < (cap + 4) * n) by (nonlinear_arith)
                requires
                    cap == 4 * mean,
                    mean * n <= t < (mean + 1) * n,
            ;
        } else {
            assert(cap * n < 4 * t) by (nonlinear_arith)
                requires
                    cap < 4 * mean,
                    mean * n <= t,
                    1 <= n,
            ;
        }
    }
    if settings.min_posting_len is None {
        assert(t < 4 * (floor + 1) * n) by (nonlinear_arith)
            requires
                t < (mean + 1) * n,
                mean + 1 <= 4 * (floor + 1),
                1 <= n,
        ;
        if floor != 1 {
            assert(4 * floor * n <= t) by (nonlinear_arith)
                requires
                    4 * floor <= mean,
                    mean * n <= t,
                    1 <= n,
            ;
        }
    }
}

} // verus!
