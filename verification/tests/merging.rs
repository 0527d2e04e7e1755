use ivf_clusterer::arithmetic::{Arithmetic, Op};
use ivf_clusterer::clusterer::SuperKMeansIvfClusterer;
use ivf_clusterer::ratio::num_centroids;
use ivf_clusterer::single::Single;
use ivf_clusterer::types::{IndexOptions, IvfMergeSettings};

/// An arithmetic that a merge has no use for.
struct F32;

impl Arithmetic for F32 {
    fn perform(_: Op, _: Single, _: Single) -> Single {
        panic!("a merge computes nothing")
    }
}

fn single(x: f32) -> Single {
    Single { bits: x.to_bits() }
}

fn expected_centroids(total: usize, ratio: f32) -> usize {
    let scaled = ((total as f64) * f64::from(ratio)).ceil() as usize;
    scaled.clamp(1, total)
}

#[test]
fn defaults() {
    let clusterer = SuperKMeansIvfClusterer::<F32>::new();
    assert_eq!(clusterer.centroid_ratio(), single(0.01));
    assert_eq!(clusterer.training_samples_per_centroid(), 32);
    assert_eq!(clusterer.assign_batch_size(), 40_960);
    assert_eq!(
        clusterer.merge_settings(100_000).unwrap(),
        IvfMergeSettings {
            num_centroids: 1000,
            training_samples_per_centroid: 32,
            assign_batch_size: 40_960,
            max_posting_len: 400,
            min_posting_len: 25,
            max_replicas_per_vector: 8,
            max_replicas_per_cluster: 200,
            replica_epsilon: single(3.0),
        }
    );
}

#[test]
fn options_win_over_defaults() {
    let clusterer = SuperKMeansIvfClusterer::<F32>::new()
        .with_centroid_ratio(single(0.5))
        .with_training_samples_per_centroid(7)
        .with_max_posting_len(Some(11))
        .with_min_posting_len(Some(0))
        .with_max_replicas_per_vector(Some(0))
        .with_max_replicas_per_cluster(Some(13))
        .with_replica_epsilon(Some(single(1.25)));
    let expected = IvfMergeSettings {
        num_centroids: 5,
        training_samples_per_centroid: 7,
        assign_batch_size: 40_960,
        max_posting_len: 11,
        min_posting_len: 0,
        max_replicas_per_vector: 0,
        max_replicas_per_cluster: 13,
        replica_epsilon: single(1.25),
    };
    assert_eq!(clusterer.merge_settings(9).unwrap(), expected);
    let same = SuperKMeansIvfClusterer::<F32>::for_index(&IndexOptions {
        centroid_ratio: single(0.5),
        training_samples_per_centroid: 7,
        max_posting_len: Some(11),
        min_posting_len: Some(0),
        max_replicas_per_vector: Some(0),
        max_replicas_per_cluster: Some(13),
        replica_epsilon: Some(single(1.25)),
    });
    assert_eq!(same.merge_settings(9).unwrap(), expected);
}

#[test]
fn the_replica_budget_follows_a_set_cap() {
    let clusterer = SuperKMeansIvfClusterer::<F32>::new().with_max_posting_len(Some(90));
    assert_eq!(clusterer.merge_settings(1000).unwrap().max_replicas_per_cluster, 45);
    let clusterer = clusterer.with_max_posting_len(Some(1));
    assert_eq!(clusterer.merge_settings(1000).unwrap().max_replicas_per_cluster, 1);
}

#[test]
fn small_merges() {
    let clusterer = SuperKMeansIvfClusterer::<F32>::new();
    let settings = clusterer.merge_settings(1).unwrap();
    assert_eq!(settings.num_centroids, 1);
    assert_eq!(settings.max_posting_len, 4);
    assert_eq!(settings.min_posting_len, 1);
    assert_eq!(settings.max_replicas_per_cluster, 2);
    let every = clusterer.with_centroid_ratio(single(1.0));
    assert_eq!(every.merge_settings(17).unwrap().num_centroids, 17);
}

#[test]
fn the_widest_merge_saturates() {
    let settings = SuperKMeansIvfClusterer::<F32>::new()
        .with_centroid_ratio(single(1.0e-40))
        .merge_settings(usize::MAX)
        .unwrap();
    assert_eq!(settings.num_centroids, 1);
    assert_eq!(settings.max_posting_len, usize::MAX);
    assert_eq!(settings.min_posting_len, usize::MAX / 4);
    assert_eq!(settings.max_replicas_per_cluster, usize::MAX / 2);
}

#[test]
fn centroid_counts_are_those_of_double_precision() {
    let mut ratios = vec![
        0.01f32,
        0.02,
        0.1,
        0.3,
        0.5,
        0.999_999_94,
        1.0,
        1.0 / 3.0,
        1.0e-3,
        1.0e-10,
        f32::MIN_POSITIVE,
        f32::from_bits(1),
        f32::from_bits(0x007f_ffff),
    ];
    let mut state = 99u64;
    for _ in 0..200 {
        state = state.wrapping_mul(6364136223846793005).wrapping_add(1442695040888963407);
        ratios.push(f32::from_bits(1 + (state >> 33) as u32 % 0x3f80_0000));
    }
    let mut totals = vec![1usize, 2, 3, 99, 100, 101, 1000, 12_345_678, 4_294_967_295];
    for shift in [24u32, 32, 52, 53, 54, 60, 63] {
        let power = 1usize << shift;
        totals.extend([power - 1, power, power + 1, power + (power >> 1) + 1]);
    }
    totals.extend([usize::MAX, usize::MAX - 1, usize::MAX - 1024, usize::MAX - 1025]);
    for _ in 0..200 {
        state = state.wrapping_mul(6364136223846793005).wrapping_add(1442695040888963407);
        totals.push((state | 1) as usize);
    }
    for &ratio in &ratios {
        for &total in &totals {
            assert_eq!(
                num_centroids(total, single(ratio)),
                expected_centroids(total, ratio),
                "{total} at {ratio:e}"
            );
        }
    }
}

#[test]
fn centroids_grow_with_documents_and_ratio() {
    let ratios = [1.0e-40f32, 1.0e-6, 0.01, 0.010_000_001, 0.3, 0.5, 0.9, 1.0];
    let totals = [1usize, 2, 99, 100, 101, 9_007_199_254_740_993, usize::MAX - 1, usize::MAX];
    for (i, &ratio) in ratios.iter().enumerate() {
        for (j, &total) in totals.iter().enumerate() {
            let n = num_centroids(total, single(ratio));
            if i > 0 {
                assert!(num_centroids(total, single(ratios[i - 1])) <= n);
            }
            if j > 0 {
                assert!(num_centroids(totals[j - 1], single(ratio)) <= n);
            }
        }
    }
}
