use ivf_clusterer::cache::{neighbor_cap, reuse};
use ivf_clusterer::arithmetic::{Arithmetic, Op};
use ivf_clusterer::clusterer::SuperKMeansIvfClusterer;
use ivf_clusterer::fingerprint::centroid_fingerprint;
use ivf_clusterer::neighbors::CentroidNeighbors;
use ivf_clusterer::single::Single;
use rustc_hash::FxHasher;
use std::hash::Hasher;
use std::sync::Arc;

/// Single-precision arithmetic on bit patterns.
#[derive(Debug)]
struct F32;

impl Arithmetic for F32 {
    fn perform(op: Op, a: Single, b: Single) -> Single {
        let (x, y) = (f32::from_bits(a.bits), f32::from_bits(b.bits));
        let r = match op {
            Op::Add => x + y,
            Op::Sub => x - y,
            Op::Mul => x * y,
            Op::Sqrt => x.sqrt(),
        };
        Single { bits: r.to_bits() }
    }
}

fn build(
    centroids: &[Single],
    rows: usize,
    dim: usize,
    cap: usize,
    fingerprint: u64,
) -> CentroidNeighbors<F32> {
    CentroidNeighbors::build(centroids, rows, dim, cap, fingerprint)
}

fn singles(xs: &[f32]) -> Vec<Single> {
    xs.iter().map(|x| Single { bits: x.to_bits() }).collect()
}

fn patterns(xs: &[u32]) -> Vec<Single> {
    xs.iter().map(|&bits| Single { bits }).collect()
}

#[test]
fn a_fingerprint_hashes_the_shape_and_every_value() {
    let values = [0.0f32, -0.0, 1.5, f32::NAN, f32::INFINITY, -7.25e-30];
    for (rows, dim) in [(0usize, 0usize), (1, 6), (2, 3), (3, 2), (6, 1)] {
        let mut hasher = FxHasher::default();
        hasher.write_usize(rows);
        hasher.write_usize(dim);
        for value in values {
            hasher.write_u32(value.to_bits());
        }
        assert_eq!(centroid_fingerprint(&singles(&values), rows, dim), hasher.finish());
    }
    let mut hasher = FxHasher::default();
    hasher.write_usize(0);
    hasher.write_usize(4);
    assert_eq!(centroid_fingerprint(&[], 0, 4), hasher.finish());
}

#[test]
fn a_fingerprint_has_a_known_value() {
    assert_eq!(
        centroid_fingerprint(&patterns(&[0x4000_0000; 3]), 3, 1),
        0xd324_2781_43da_293d
    );
}

#[test]
fn changing_one_value_changes_the_fingerprint() {
    let values = singles(&[1.0, 2.0, 3.0, 4.0, 5.0, 6.0]);
    let before = centroid_fingerprint(&values, 3, 2);
    for i in 0..values.len() {
        for bit in 0..32 {
            let mut other = values.clone();
            other[i].bits ^= 1 << bit;
            assert_ne!(centroid_fingerprint(&other, 3, 2), before);
        }
    }
    // The two zeros compare equal and have different patterns.
    assert_ne!(
        centroid_fingerprint(&singles(&[0.0]), 1, 1),
        centroid_fingerprint(&singles(&[-0.0]), 1, 1)
    );
}

#[test]
fn values_at_a_weighted_difference_of_zero_share_a_fingerprint() {
    let a = patterns(&[0x4000_0000, 0x4000_0000, 0x4000_0000]);
    let b = patterns(&[0x3ff2_af3b, 0x401f_0ccf, 0x4002_f872]);
    assert_eq!(centroid_fingerprint(&a, 3, 1), centroid_fingerprint(&b, 3, 1));
}

#[test]
fn the_neighbor_cap_scales_with_the_replica_cap() {
    for (max, cap) in [
        (0usize, 128usize),
        (1, 128),
        (4, 128),
        (5, 160),
        (8, 256),
        (31, 992),
        (32, 1024),
        (33, 1024),
        (usize::MAX, 1024),
    ] {
        assert_eq!(neighbor_cap(max), cap);
        assert_eq!(cap, max.saturating_mul(32).clamp(128, 1024));
    }
}

#[test]
fn a_kept_table_is_reused_if_it_serves() {
    let values = singles(&[0.0, 1.0, 3.0, 7.0]);
    let fp = centroid_fingerprint(&values, 4, 1);
    assert!(reuse::<F32>(None, &values, 4, 1, fp).is_none());
    let table = Arc::new(build(&values, 4, 1, 8, fp));
    let again = reuse(Some(table.clone()), &values, 4, 1, fp).unwrap();
    assert!(Arc::ptr_eq(&table, &again));
    // Neither other values, nor another shape, nor another fingerprint.
    let other = singles(&[0.0, 1.0, 3.0, 8.0]);
    assert!(reuse(Some(table.clone()), &other, 4, 1, fp).is_none());
    assert!(reuse(Some(table.clone()), &values, 2, 1, fp).is_none());
    assert!(reuse(Some(table.clone()), &values, 4, 0, fp).is_none());
    assert!(reuse(Some(table.clone()), &values[..3], 4, 1, fp).is_none());
    assert!(reuse(Some(table.clone()), &values, 4, 1, fp ^ 1).is_none());
}

#[test]
fn a_table_keeps_the_fingerprint_that_it_is_given() {
    let table = build(&singles(&[0.0, 1.0, -1.0, 2.0]), 4, 1, 2, 7);
    assert_eq!(table.fingerprint(), 7);
    assert_eq!(table.rows(), 4);
    assert!(table.truncated());
    let lists: Vec<Vec<(f32, u32)>> = (0..4)
        .map(|p| table.neighbors(p).iter().map(|e| (f32::from_bits(e.0.bits), e.1)).collect())
        .collect();
    assert_eq!(
        lists,
        vec![
            vec![(1.0, 1), (1.0, 2)],
            vec![(1.0, 0), (1.0, 3)],
            vec![(1.0, 0), (4.0, 1)],
            vec![(1.0, 1), (4.0, 0)],
        ]
    );
}

/// Centroids that share a fingerprint do not share a table.
#[test]
fn a_shared_fingerprint_does_not_share_a_table() {
    let a = patterns(&[0x4000_0000, 0x4000_0000, 0x4000_0000]);
    let b = patterns(&[0x3ff2_af3b, 0x401f_0ccf, 0x4002_f872]);
    let clusterer = SuperKMeansIvfClusterer::<F32>::new();
    let first = clusterer.centroid_neighbors(&a, 3, 1, 8, build);
    let second = clusterer.centroid_neighbors(&b, 3, 1, 8, build);
    assert_eq!(first.fingerprint(), second.fingerprint());
    assert!(!Arc::ptr_eq(&first, &second));
    assert_eq!(first.neighbors(0)[0].0.bits, 0);
    assert_ne!(second.neighbors(0)[0].0.bits, 0);
}

/// No lock is held while a table is built: `build` may ask for tables itself, and
/// the one that was kept meanwhile is given out.
#[test]
fn a_table_that_was_kept_meanwhile_is_given_out() {
    let values = singles(&[0.0, 1.0, 3.0, 7.0]);
    let clusterer = SuperKMeansIvfClusterer::<F32>::new();
    let clone = clusterer.clone();
    let kept = std::cell::RefCell::new(None);
    let table = clusterer.centroid_neighbors(&values, 4, 1, 8, |c, rows, dim, cap, fp| {
        *kept.borrow_mut() = Some(clone.centroid_neighbors(c, rows, dim, 8, build));
        build(c, rows, dim, cap, fp)
    });
    assert!(Arc::ptr_eq(&table, kept.borrow().as_ref().unwrap()));
}

#[test]
fn a_table_is_built_with_the_cap_for_the_replica_cap() {
    let rows = 300;
    let values: Vec<Single> = (0..rows).map(|i| Single { bits: (i as f32).to_bits() }).collect();
    let clusterer = SuperKMeansIvfClusterer::<F32>::new();
    let table = clusterer.centroid_neighbors(&values, rows, 1, 5, build);
    assert!(table.truncated());
    assert_eq!(table.neighbors(0).len(), 160);
    // The kept table serves whatever the replica cap is later.
    let again = clusterer.centroid_neighbors(&values, rows, 1, 20, build);
    assert!(Arc::ptr_eq(&table, &again));
}

#[test]
fn clones_share_the_table() {
    let values = singles(&[0.0, 1.0, 3.0, 7.0]);
    let clusterer = SuperKMeansIvfClusterer::<F32>::new().with_max_posting_len(Some(10));
    let clone = clusterer.clone();
    let table = clusterer.centroid_neighbors(&values, 4, 1, 8, build);
    let shared = clone.centroid_neighbors(&values, 4, 1, 8, build);
    assert!(Arc::ptr_eq(&table, &shared));
    let kept = clone.with_replica_epsilon(None).centroid_neighbors(&values, 4, 1, 8, build);
    assert!(Arc::ptr_eq(&table, &kept));
    let apart = SuperKMeansIvfClusterer::<F32>::new().centroid_neighbors(&values, 4, 1, 8, build);
    assert!(!Arc::ptr_eq(&table, &apart));
}

#[test]
fn a_later_table_replaces_the_kept_one() {
    let a = singles(&[0.0, 1.0, 3.0, 7.0]);
    let b = singles(&[0.0, 1.0, 3.0, 9.0]);
    let clusterer = SuperKMeansIvfClusterer::<F32>::default();
    let first = clusterer.centroid_neighbors(&a, 4, 1, 8, build);
    let second = clusterer.centroid_neighbors(&b, 4, 1, 8, build);
    let third = clusterer.centroid_neighbors(&b, 4, 1, 8, build);
    let fourth = clusterer.centroid_neighbors(&a, 4, 1, 8, build);
    assert!(Arc::ptr_eq(&second, &third));
    assert!(!Arc::ptr_eq(&first, &fourth));
}
