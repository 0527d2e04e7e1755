use ivf_clusterer::arithmetic::{squared_distance, Arithmetic, Op};
use ivf_clusterer::clusterer::{finish_training, SuperKMeansIvfClusterer};
use ivf_clusterer::errors::{ClusterError, ErrorKind, KMeansError};
use ivf_clusterer::fingerprint::centroid_fingerprint;
use ivf_clusterer::neighbors::{nearest_neighbors, CentroidNeighbors};
use ivf_clusterer::replicas::{replicas_full_scan, replicas_pruned, rng_dedup};
use ivf_clusterer::single::Single;
use ivf_clusterer::types::{
    Assignment, ClusteringConfig, ClusteringJob, IvfMatrix, IvfVectors, Metric, VectorOptions,
};

/// Single-precision arithmetic on bit patterns.
#[derive(Debug)]
struct F32;

impl Arithmetic for F32 {
    fn perform(op: Op, a: Single, b: Single) -> Single {
        let (x, y) = (f32::from_bits(a.bits), f32::from_bits(b.bits));
        let r = match op {
            Op::Add => x + y,
            Op::Sub => x - y,
            Op::Mul => x * y,
            Op::Sqrt => x.sqrt(),
        };
        single(r)
    }
}

fn build(
    centroids: &[Single],
    rows: usize,
    dim: usize,
    cap: usize,
    fingerprint: u64,
) -> CentroidNeighbors<F32> {
    CentroidNeighbors::build(centroids, rows, dim, cap, fingerprint)
}

fn no_table(_: &[Single], _: usize, _: usize, _: usize, _: u64) -> CentroidNeighbors<F32> {
    panic!("no table is needed")
}

fn single(x: f32) -> Single {
    Single { bits: x.to_bits() }
}

fn singles(xs: &[f32]) -> Vec<Single> {
    xs.iter().map(|&x| single(x)).collect()
}

fn matrix(xs: &[f32], dims: usize) -> IvfMatrix {
    IvfMatrix { values: singles(xs), rows: xs.len() / dims, dims }
}

fn vectors(xs: &[f32], dims: usize) -> IvfVectors {
    let matrix = matrix(xs, dims);
    IvfVectors { doc_ids: (0..matrix.rows as u32).collect(), matrix }
}

fn options(dim: usize, metric: Metric) -> VectorOptions {
    VectorOptions { dim, metric }
}

/// The index of the nearest centroid of each vector.
fn nearest(
    _: ClusteringJob,
    vectors: &IvfMatrix,
    centroids: &IvfMatrix,
) -> Result<Vec<u32>, KMeansError> {
    let dim = vectors.dims;
    Ok((0..vectors.rows)
        .map(|i| {
            let v = &vectors.values[i * dim..(i + 1) * dim];
            (0..centroids.rows)
                .map(|c| {
                    let d = squared_distance::<F32>(v, &centroids.values[c * dim..(c + 1) * dim]);
                    (d.total_key(), c as u32)
                })
                .min()
                .unwrap()
                .1
        })
        .collect())
}

fn not_reached<T>(_: ClusteringJob, _: &IvfMatrix) -> Result<T, KMeansError> {
    panic!("the arguments are not acceptable")
}

fn not_reached_either<T>(
    _: ClusteringJob,
    _: &IvfMatrix,
    _: &IvfMatrix,
) -> Result<T, KMeansError> {
    panic!("the arguments are not acceptable")
}

fn report(error: ClusterError) -> (ErrorKind, String) {
    (error.kind(), error.message())
}

fn invalid(message: &str) -> (ErrorKind, String) {
    (ErrorKind::InvalidArgument, message.to_string())
}

fn internal(message: &str) -> (ErrorKind, String) {
    (ErrorKind::Internal, message.to_string())
}

fn pairs(assignments: &[Assignment]) -> Vec<(u32, Vec<u32>)> {
    assignments.iter().map(|a| (a.primary, a.replicas.clone())).collect()
}

#[test]
fn squared_distances() {
    let d = |a: &[f32], b: &[f32]| squared_distance::<F32>(&singles(a), &singles(b));
    assert_eq!(d(&[1.0, 2.0, 3.0], &[4.0, 6.0, 3.0]), single(25.0));
    assert_eq!(d(&[1.0], &[1.0]), single(0.0));
    // Only the coordinates that both have count.
    assert_eq!(d(&[1.0, 2.0], &[3.0]), single(4.0));
    assert_eq!(d(&[], &[]), single([0.0f32; 0].iter().sum::<f32>()));
    assert_eq!(d(&[f32::MAX], &[-f32::MAX]), single(f32::INFINITY));
}

#[test]
fn vectors_that_do_not_fit_are_rejected() {
    let clusterer = SuperKMeansIvfClusterer::<F32>::new();
    let centroids = matrix(&[0.0, 0.0, 1.0, 1.0], 2);
    let field = options(2, Metric::L2);

    let wrong_dims = vectors(&[1.0, 2.0, 3.0], 3);
    let expected = invalid("vector dimensionality mismatch: expected 2, got 3");
    let error = clusterer.train(&field, &wrong_dims, 1, not_reached).unwrap_err();
    assert_eq!(report(error), expected);
    let error = clusterer
        .assign(&field, &wrong_dims, &centroids, not_reached_either, no_table)
        .unwrap_err();
    assert_eq!(report(error), expected);

    let mut wrong_ids = vectors(&[1.0, 2.0, 3.0, 4.0], 2);
    wrong_ids.doc_ids.push(7);
    let expected = invalid("vector doc_id count mismatch: expected 2, got 3");
    let error = clusterer.train(&field, &wrong_ids, 1, not_reached).unwrap_err();
    assert_eq!(report(error), expected);
    let error = clusterer
        .assign(&field, &wrong_ids, &centroids, not_reached_either, no_table)
        .unwrap_err();
    assert_eq!(report(error), expected);

    let mut wrong_values = vectors(&[1.0; 24], 2);
    wrong_values.matrix.values.pop();
    let expected = invalid("vector value count mismatch: expected 24, got 23");
    let error = clusterer.train(&field, &wrong_values, 1, not_reached).unwrap_err();
    assert_eq!(report(error), expected);
    let error = clusterer
        .assign(&field, &wrong_values, &centroids, not_reached_either, no_table)
        .unwrap_err();
    assert_eq!(report(error), expected);
}

#[test]
fn centroids_that_do_not_fit_are_rejected() {
    let clusterer = SuperKMeansIvfClusterer::<F32>::new();
    let field = options(2, Metric::L2);
    let vectors = vectors(&[1.0, 2.0], 2);
    let assign = |centroids: &IvfMatrix| {
        report(
            clusterer
                .assign(&field, &vectors, centroids, not_reached_either, no_table)
                .unwrap_err(),
        )
    };

    // Without centroids, their dimensionality does not matter.
    let none = IvfMatrix { values: Vec::new(), rows: 0, dims: 9 };
    assert_eq!(assign(&none), invalid("cannot assign with zero centroids"));
    let wrong_dims = matrix(&[1.0, 2.0, 3.0], 3);
    assert_eq!(
        assign(&wrong_dims),
        invalid("centroid dimensionality mismatch: expected 2, got 3")
    );
    let mut wrong_values = matrix(&[1.0, 2.0, 3.0, 4.0], 2);
    wrong_values.values.push(single(5.0));
    assert_eq!(
        assign(&wrong_values),
        invalid("centroid value count mismatch: expected 4, got 5")
    );
}

#[test]
fn the_vectors_are_checked_before_the_centroids() {
    let none = IvfMatrix { values: Vec::new(), rows: 0, dims: 2 };
    let error = SuperKMeansIvfClusterer::<F32>::new()
        .assign(
            &options(2, Metric::L2),
            &vectors(&[1.0, 2.0, 3.0], 3),
            &none,
            not_reached_either,
            no_table,
        )
        .unwrap_err();
    assert_eq!(
        report(error),
        invalid("vector dimensionality mismatch: expected 2, got 3")
    );
}

#[test]
fn failures_of_the_algorithm_are_passed_on() {
    let clusterer = SuperKMeansIvfClusterer::<F32>::new();
    let field = options(1, Metric::L2);
    let vectors = vectors(&[1.0, 2.0], 1);
    let centroids = matrix(&[1.0], 1);
    let error = clusterer
        .train(&field, &vectors, 1, |_, _| {
            Err(KMeansError::InvalidArgument("too few vectors".to_string()))
        })
        .unwrap_err();
    assert_eq!(report(error), invalid("too few vectors"));
    let error = clusterer
        .assign(
            &field,
            &vectors,
            &centroids,
            |_, _, _| Err(KMeansError::Runtime("no memory".to_string())),
            no_table,
        )
        .unwrap_err();
    assert_eq!(report(error), internal("no memory"));
}

#[test]
fn training_hands_out_the_job_and_takes_the_centroids() {
    let field = options(2, Metric::L2);
    let vectors = vectors(&[1.0, 2.0, 3.0, 4.0, 5.0, 6.0], 2);
    let trained = SuperKMeansIvfClusterer::<F32>::new()
        .train(&field, &vectors, 2, |job, matrix| {
            assert_eq!(
                job,
                ClusteringJob {
                    num_clusters: 2,
                    dim: 2,
                    config: ClusteringConfig {
                        suppress_warnings: true,
                        sampling_fraction: single(1.0),
                        angular: false,
                    },
                }
            );
            assert_eq!(matrix.rows, 3);
            Ok(matrix.values[2..6].to_vec())
        })
        .unwrap();
    assert_eq!(trained.rows, 2);
    assert_eq!(trained.dims, 2);
    assert_eq!(trained.values, singles(&[3.0, 4.0, 5.0, 6.0]));
}

#[test]
fn a_wrong_number_of_trained_values_is_an_internal_error() {
    let error = finish_training(Ok(singles(&[1.0, 2.0, 3.0])), 2, 2).unwrap_err();
    assert_eq!(
        report(error),
        internal("SuperKMeans returned 3 centroid floats, expected 4")
    );
    assert!(finish_training(Ok(Vec::new()), 0, 2).is_ok());
}

#[test]
fn cosine_and_inner_product_cluster_by_angle() {
    let vectors = vectors(&[1.0, 2.0], 1);
    for (metric, angular) in [(Metric::L2, false), (Metric::Cosine, true), (Metric::Dot, true)] {
        let field = options(1, metric);
        let _ = SuperKMeansIvfClusterer::<F32>::new().train(&field, &vectors, 1, |job, _| {
            assert_eq!(job.config.angular, angular);
            Ok(singles(&[0.0]))
        });
        let _ = SuperKMeansIvfClusterer::<F32>::new().assign(
            &field,
            &vectors,
            &matrix(&[0.0], 1),
            |job, _, centroids| {
                assert_eq!(job.config.angular, angular);
                assert_eq!(job.num_clusters, 1);
                assert_eq!(centroids.rows, 1);
                Err(KMeansError::Runtime(String::new()))
            },
            no_table,
        );
    }
}

#[test]
fn no_vectors_have_no_assignments() {
    let assignments = SuperKMeansIvfClusterer::<F32>::new()
        .assign(
            &options(2, Metric::L2),
            &vectors(&[], 2),
            &matrix(&[0.0, 0.0], 2),
            not_reached_either,
            no_table,
        )
        .unwrap();
    assert!(assignments.is_empty());
}

#[test]
fn without_replication_there_are_primaries_only() {
    let assignments = SuperKMeansIvfClusterer::<F32>::new()
        .with_max_replicas_per_vector(Some(0))
        .assign(
            &options(1, Metric::L2),
            &vectors(&[0.4, 0.6, 5.0], 1),
            &matrix(&[0.0, 1.0, 2.0], 1),
            nearest,
            no_table,
        )
        .unwrap();
    assert_eq!(pairs(&assignments), vec![(0, vec![]), (1, vec![]), (2, vec![])]);
}

/// On a line, the nearest centroid on each side of the vector stays; those behind
/// it are nearer to it than to the vector.
#[test]
fn replicas_spread_over_directions() {
    let centroids = matrix(&[0.0, 1.0, 2.0, 3.0, 4.0], 1);
    let vectors = vectors(&[2.25, 2.0, 0.0], 1);
    for metric in [Metric::L2, Metric::Cosine] {
        let assignments = SuperKMeansIvfClusterer::<F32>::new()
            .with_replica_epsilon(Some(single(8.0)))
            .assign(&options(1, metric), &vectors, &centroids, nearest, build)
            .unwrap();
        assert_eq!(
            pairs(&assignments),
            vec![(2, vec![3, 1]), (2, vec![]), (0, vec![])]
        );
    }
    // By inner products no table is built.
    let assignments = SuperKMeansIvfClusterer::<F32>::new()
        .with_replica_epsilon(Some(single(8.0)))
        .assign(&options(1, Metric::Dot), &vectors, &centroids, nearest, no_table)
        .unwrap();
    assert_eq!(
        pairs(&assignments),
        vec![(2, vec![3, 1]), (2, vec![]), (0, vec![])]
    );
}

/// Two centroids just in reach, at equal distances, far from each other.
#[test]
fn a_worked_example() {
    let vectors = IvfVectors { doc_ids: vec![7], matrix: matrix(&[1.0, 0.0], 2) };
    let centroids = matrix(&[0.0, 0.0, 4.0, 0.0, -2.0, 0.0], 2);
    let assignments = SuperKMeansIvfClusterer::<F32>::new()
        .assign(&options(2, Metric::L2), &vectors, &centroids, |_, _, _| Ok(vec![0]), build)
        .unwrap();
    assert_eq!(pairs(&assignments), vec![(0, vec![1, 2])]);
}

/// How vectors are cut into batches, and which table is kept, does not show.
#[test]
fn batches_and_kept_tables_do_not_show() {
    let centroids: Vec<f32> = (0..300).map(|i| ((i * 37) % 101) as f32).collect();
    let points: Vec<f32> = (0..90).map(|i| ((i * 53) % 97) as f32 + 0.25).collect();
    let field = options(3, Metric::L2);
    let fresh = SuperKMeansIvfClusterer::<F32>::new();
    let all = fresh
        .assign(&field, &vectors(&points, 3), &matrix(&centroids, 3), nearest, build)
        .unwrap();
    let used = SuperKMeansIvfClusterer::<F32>::new();
    let kept = matrix(&centroids, 3);
    used.centroid_neighbors(&kept.values, kept.rows, 3, 40, build);
    let mut cut = Vec::new();
    for batch in points.chunks(21) {
        cut.extend(used.assign(&field, &vectors(batch, 3), &kept, nearest, build).unwrap());
    }
    assert_eq!(pairs(&all), pairs(&cut));
}

#[test]
fn faulty_centroids_are_rejected_however_many_they_claim_to_be() {
    let centroids = IvfMatrix { values: Vec::new(), rows: usize::MAX, dims: 1 };
    let error = SuperKMeansIvfClusterer::<F32>::new()
        .assign(
            &options(1, Metric::L2),
            &vectors(&[1.0], 1),
            &centroids,
            not_reached_either,
            no_table,
        )
        .unwrap_err();
    assert_eq!(
        report(error),
        invalid("centroid value count mismatch: expected 18446744073709551615, got 0")
    );
}

#[test]
fn the_default_closure_factor_and_cap_apply() {
    let centroids = matrix(&[0.0, 1.0, 2.0, 3.0, 4.0], 1);
    let vectors = vectors(&[2.25], 1);
    // At three times 0.25, centroid 3 is in reach and centroid 1 is not.
    let assignments = SuperKMeansIvfClusterer::<F32>::new()
        .assign(&options(1, Metric::L2), &vectors, &centroids, nearest, build)
        .unwrap();
    assert_eq!(pairs(&assignments), vec![(2, vec![3])]);
    let assignments = SuperKMeansIvfClusterer::<F32>::new()
        .with_replica_epsilon(Some(single(8.0)))
        .with_max_replicas_per_vector(Some(1))
        .assign(&options(1, Metric::L2), &vectors, &centroids, nearest, build)
        .unwrap();
    assert_eq!(pairs(&assignments), vec![(2, vec![3])]);
}

#[test]
fn the_threshold_includes_its_bound() {
    let centroids = singles(&[0.0, 4.0, 4.5]);
    // The primary is 1 away and the closure factor 3: the one at 4 is just in reach.
    let found = replicas_full_scan::<F32>(&singles(&[1.0]),
        &centroids,
        3,
        1,
        0,
        single(1.0),
        single(9.0),
        8,
    );
    assert_eq!(found, vec![1]);
}

#[test]
fn equal_distances_go_by_index() {
    let centroids = singles(&[0.0, 1.0, -1.0, 1.0]);
    let found = replicas_full_scan::<F32>(&singles(&[0.0]),
        &centroids,
        4,
        1,
        0,
        single(4.0),
        single(1.0),
        8,
    );
    // The second one at 1 lies on the first, which is nearer to it than the vector.
    assert_eq!(found, vec![1, 2]);
    let list = nearest_neighbors::<F32>(&centroids, 4, 1, 0, 2);
    assert_eq!(list, vec![(single(1.0), 1), (single(1.0), 2)]);
}

#[test]
fn dedup_keeps_up_to_its_cap_and_tells_the_farthest() {
    let centroids = singles(&[5.0, -6.0, 7.0, 0.5]);
    let cands = vec![
        (single(0.25), 3),
        (single(25.0), 0),
        (single(36.0), 1),
        (single(49.0), 2),
    ];
    // From the vector at 0: centroid 0 is nearer to centroid 3 than to the vector.
    let (kept, farthest) = rng_dedup::<F32>(&cands, &centroids, 1, 8);
    assert_eq!((kept, farthest), (vec![3, 1], single(36.0)));
    let (kept, farthest) = rng_dedup::<F32>(&cands, &centroids, 1, 1);
    assert_eq!((kept, farthest), (vec![3], single(0.25)));
    let (kept, farthest) = rng_dedup::<F32>(&cands, &centroids, 1, 0);
    assert_eq!((kept, farthest), (vec![], single(0.0)));
}

#[test]
fn a_list_holds_all_others_where_the_cap_is_wide() {
    let centroids = singles(&[0.0, 10.0, 1.0, 4.0]);
    let list = nearest_neighbors::<F32>(&centroids, 4, 1, 3, 3);
    assert_eq!(
        list,
        vec![(single(9.0), 2), (single(16.0), 0), (single(36.0), 1)]
    );
    assert_eq!(nearest_neighbors::<F32>(&centroids, 4, 1, 3, 100), list);
    assert_eq!(nearest_neighbors::<F32>(&centroids, 4, 1, 3, 1), list[..1].to_vec());
    assert_eq!(nearest_neighbors::<F32>(&centroids, 4, 1, 3, 0), Vec::new());
    assert_eq!(nearest_neighbors::<F32>(&centroids, 1, 1, 0, 5), Vec::new());
}

#[test]
fn a_table_from_lists_is_the_table_that_is_built() {
    let centroids = singles(&[0.0, 10.0, 1.0, 4.0]);
    for cap in 0..5 {
        let fp = centroid_fingerprint(&centroids, 4, 1);
        let lists = (0..4).map(|p| nearest_neighbors::<F32>(&centroids, 4, 1, p, cap)).collect();
        let put = CentroidNeighbors::<F32>::from_lists(&centroids, 4, 1, cap, fp, lists);
        let built = build(&centroids, 4, 1, cap, fp);
        for p in 0..4 {
            assert_eq!(put.neighbors(p), built.neighbors(p));
        }
        assert_eq!(put.truncated(), cap < 3);
        assert_eq!(built.truncated(), cap < 3);
        assert_eq!(put.rows(), 4);
        assert_eq!(put.fingerprint(), fp);
    }
    let empty = build(&[], 0, 3, 4, centroid_fingerprint(&[], 0, 3));
    assert_eq!((empty.rows(), empty.truncated()), (0, false));
}

/// The replicas of one vector, by the pruned scan and by the full one.
fn both(
    v: &[f32],
    centroids: &[f32],
    dim: usize,
    p: usize,
    cap: usize,
    epsilon: f32,
    max: usize,
) -> (Option<Vec<u32>>, Vec<u32>) {
    let rows = centroids.len() / dim;
    let (v, centroids) = (singles(v), singles(centroids));
    let fp = centroid_fingerprint(&centroids, rows, dim);
    let table = build(&centroids, rows, dim, cap, fp);
    let to_primary = squared_distance::<F32>(&v, &centroids[p * dim..(p + 1) * dim]);
    let eps_sq = single(epsilon * epsilon);
    let pruned = replicas_pruned::<F32>(&table,
        &v,
        &centroids,
        dim,
        p,
        to_primary,
        single(epsilon),
        eps_sq,
        max,
    );
    let full = replicas_full_scan::<F32>(&v,
        &centroids,
        rows,
        dim,
        p,
        to_primary,
        eps_sq,
        max,
    );
    (pruned, full)
}

#[test]
fn an_exact_certificate_is_sound() {
    let centroids = [0.0, 8.0, -8.0, 16.0, -32.0];
    // The radius of the list is 16, and the primary is 1 away: 15 is safe.
    assert_eq!(both(&[1.0], &centroids, 1, 0, 3, 10.0, 8), (Some(vec![1, 2]), vec![1, 2]));
    // At a closure factor of 15 the needed radius is the safe one: not certified.
    assert_eq!(both(&[1.0], &centroids, 1, 0, 3, 15.0, 8), (None, vec![1, 2]));
    // A filled cap needs no more than its farthest replica.
    assert_eq!(both(&[1.0], &centroids, 1, 0, 3, 15.0, 2), (Some(vec![1, 2]), vec![1, 2]));
    // A list of nothing certifies nothing.
    assert_eq!(both(&[1.0], &centroids, 1, 0, 0, 10.0, 8), (None, vec![1, 2]));
    // A table that leaves nothing out is always certified.
    assert_eq!(both(&[1.0], &centroids, 1, 0, 4, 99.0, 8), (Some(vec![1, 2]), vec![1, 2]));
}

/// Where rounding makes the safe radius come out too large, the certificate can
/// hold although a centroid that the list leaves out is nearer.
#[test]
fn rounding_can_mislead_the_certificate() {
    let centroids = [0xbf03_0370u32, 0x3fd9_fd74, 0x3fd9_fd73].map(f32::from_bits);
    let v = [f32::from_bits(0x3de9_6b4a)];
    assert_eq!(both(&v, &centroids, 1, 0, 1, 3.0, 1), (Some(vec![1]), vec![2]));
}

#[test]
fn replicas_are_fit() {
    let mut state = 5u64;
    let mut coordinate = || {
        state = state.wrapping_mul(6364136223846793005).wrapping_add(1442695040888963407);
        ((state >> 40) % 17) as f32
    };
    let centroids: Vec<f32> = (0..60).map(|_| coordinate()).collect();
    let points: Vec<f32> = (0..200).map(|_| coordinate() + 0.5).collect();
    for metric in [Metric::L2, Metric::Cosine, Metric::Dot] {
        for max in [1usize, 3, 8] {
            let assignments = SuperKMeansIvfClusterer::<F32>::new()
                .with_max_replicas_per_vector(Some(max))
                .with_replica_epsilon(Some(single(4.0)))
                .assign(
                    &options(2, metric),
                    &vectors(&points, 2),
                    &matrix(&centroids, 2),
                    nearest,
                    build,
                )
                .unwrap();
            assert_eq!(assignments.len(), 100);
            for (i, a) in assignments.iter().enumerate() {
                assert!(a.replicas.len() <= max);
                assert!(a.replicas.iter().all(|&c| c < 30 && c != a.primary));
                let mut distinct = a.replicas.clone();
                distinct.sort_unstable();
                distinct.dedup();
                assert_eq!(distinct.len(), a.replicas.len());
                let (_, full) = both(
                    &points[2 * i..2 * i + 2],
                    &centroids,
                    2,
                    a.primary as usize,
                    29,
                    4.0,
                    max,
                );
                assert_eq!(a.replicas, full);
            }
        }
    }
}

#[test]
fn primaries_are_taken_as_the_algorithm_gives_them() {
    let clusterer = SuperKMeansIvfClusterer::<F32>::new();
    let assignments = clusterer.assign_primaries(
        &options(1, Metric::L2),
        &vectors(&[0.0, 3.0], 1),
        &matrix(&[0.0, 1.0, 2.0], 1),
        vec![2, 0],
        build,
    );
    assert_eq!(pairs(&assignments), vec![(2, vec![0, 1]), (0, vec![2])]);
    let off = clusterer.with_max_replicas_per_vector(Some(0));
    let assignments = off.assign_primaries(
        &options(1, Metric::L2),
        &vectors(&[0.0, 3.0], 1),
        &matrix(&[0.0, 1.0, 2.0], 1),
        vec![2, 0],
        no_table,
    );
    assert_eq!(pairs(&assignments), vec![(2, vec![]), (0, vec![])]);
}

/// Of unit vectors, the nearest centroid is the one with the largest inner
/// product.
#[test]
fn unit_vectors_go_by_angle() {
    let units = [[1.0f32, 0.0], [0.6, 0.8], [0.0, 1.0], [-0.8, 0.6], [-1.0, 0.0]];
    let v = [0.8f32, 0.6];
    let mut by_distance: Vec<usize> = (0..5).collect();
    by_distance.sort_by_key(|&c| {
        squared_distance::<F32>(&singles(&v), &singles(&units[c])).total_key()
    });
    let mut by_angle: Vec<usize> = (0..5).collect();
    let product = |c: usize| v[0] * units[c][0] + v[1] * units[c][1];
    by_angle.sort_by(|&a, &b| product(b).total_cmp(&product(a)));
    assert_eq!(by_distance, by_angle);
}

/// A candidate lies within `1 + epsilon` times the primary's distance of the
/// primary.
#[test]
fn candidates_lie_near_the_primary() {
    let centroids = [0.0f32, 3.0, -2.0, 4.0, 5.0];
    let (_, found) = both(&[1.0], &centroids, 1, 0, 4, 3.0, 8);
    assert_eq!(found, vec![1, 2]);
    for c in found {
        assert!(centroids[c as usize].abs() <= (1.0 + 3.0) * 1.0);
    }
}

/// A wider closure factor only appends replicas.
#[test]
fn wider_closure_appends_replicas() {
    let mut state = 11u64;
    let mut coordinate = || {
        state = state.wrapping_mul(6364136223846793005).wrapping_add(1442695040888963407);
        ((state >> 40) % 1009) as f32
    };
    let centroids: Vec<f32> = (0..120).map(|_| coordinate()).collect();
    for _ in 0..30 {
        let v = [coordinate(), coordinate(), coordinate()];
        let mut before: Vec<u32> = Vec::new();
        for epsilon in [0.5f32, 1.0, 2.0, 4.0, 16.0] {
            let (_, found) = both(&v, &centroids, 3, 7, 39, epsilon, 6);
            assert_eq!(found[..before.len()], before[..]);
            before = found;
        }
    }
}

/// A certified scan stays certified, and finds the same, with longer lists.
#[test]
fn larger_tables_keep_answers() {
    let centroids = [0.0, 8.0, -8.0, 16.0, -32.0, 64.0, -128.0];
    let mut certified = false;
    for cap in 0..8 {
        let (pruned, full) = both(&[1.0], &centroids, 1, 0, cap, 10.0, 8);
        assert!(!certified || pruned.is_some());
        certified = pruned.is_some();
        assert_eq!(pruned.unwrap_or(full.clone()), full);
    }
    assert!(certified);
}

#[test]
fn distances_are_symmetric_and_not_negative() {
    let points = [[0.0f32, 0.0], [3.0, 4.0], [-1.5, 2.25], [1.0e-30, -1.0e30]];
    for a in points {
        for b in points {
            let there = squared_distance::<F32>(&singles(&a), &singles(&b));
            let back = squared_distance::<F32>(&singles(&b), &singles(&a));
            assert_eq!(there, back);
            assert!(single(0.0).at_most(there));
        }
        assert_eq!(squared_distance::<F32>(&singles(&a), &singles(&a)), single(0.0));
    }
}

#[test]
fn an_untruncated_table_is_symmetric() {
    let centroids = singles(&[0.0, 10.0, 1.0, 4.0, -3.5]);
    let table = build(&centroids, 5, 1, 4, 0);
    for p in 0..5u32 {
        for &(d, c) in table.neighbors(p as usize) {
            assert!(table.neighbors(c as usize).contains(&(d, p)));
        }
    }
}

/// With few centroids no kept table leaves one out, so that not even rounding
/// shows: the centroid that misleads a shorter list is found.
#[test]
fn few_centroids_are_all_scanned() {
    let centroids = [0xbf03_0370u32, 0x3fd9_fd74, 0x3fd9_fd73].map(f32::from_bits);
    let v = [f32::from_bits(0x3de9_6b4a)];
    let assignments = SuperKMeansIvfClusterer::<F32>::new()
        .with_max_replicas_per_vector(Some(1))
        .assign(
            &options(1, Metric::L2),
            &vectors(&v, 1),
            &matrix(&centroids, 1),
            |_, _, _| Ok(vec![0]),
            build,
        )
        .unwrap();
    assert_eq!(pairs(&assignments), vec![(0, vec![2])]);
}

#[test]
fn a_lower_cap_cuts_the_tail() {
    let centroids = singles(&[5.0, -6.0, 70.0, 0.5, -90.0]);
    let cands = vec![
        (single(0.25), 3),
        (single(25.0), 0),
        (single(36.0), 1),
        (single(3600.0), 2),
        (single(7000.0), 4),
    ];
    let (all, _) = rng_dedup::<F32>(&cands, &centroids, 1, 8);
    assert_eq!(all, vec![3, 1, 2, 4]);
    for max in 0..8 {
        let (kept, _) = rng_dedup::<F32>(&cands, &centroids, 1, max);
        assert_eq!(kept, all[..max.min(all.len())]);
    }
}

#[test]
fn a_larger_cap_appends_neighbors() {
    let centroids = singles(&[0.0, 10.0, 1.0, 4.0, -3.5, 4.0]);
    let all = nearest_neighbors::<F32>(&centroids, 6, 1, 3, 9);
    assert_eq!(all.len(), 5);
    for cap in 0..9usize {
        let list = nearest_neighbors::<F32>(&centroids, 6, 1, 3, cap);
        assert_eq!(list, all[..cap.min(5)]);
    }
}

#[test]
fn a_far_centroid_does_not_show() {
    let find = |centroids: &[f32]| both(&[1.0], centroids, 1, 0, 9, 3.0, 8).1;
    let found = find(&[0.0, 3.0, 50.0, -1.5]);
    assert_eq!(found, vec![1, 3]);
    assert_eq!(find(&[0.0, 3.0, -700.0, -1.5]), found);
    assert_eq!(find(&[0.0, 3.0, f32::NAN, -1.5]), found);
    assert_eq!(find(&[0.0, 3.0, 50.0, -1.5, 4.5]), found);
}
