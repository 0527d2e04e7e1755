use ivf_clusterer::arithmetic::{squared_distance, Arithmetic, Op};
use ivf_clusterer::clusterer::SuperKMeansIvfClusterer;
use ivf_clusterer::fingerprint::centroid_fingerprint;
use ivf_clusterer::neighbors::CentroidNeighbors;
use ivf_clusterer::replicas::{replicas_full_scan, replicas_pruned};
use ivf_clusterer::single::Single;
use std::sync::Arc;

/// Single-precision arithmetic on bit patterns.
#[derive(Debug)]
struct F32;

impl Arithmetic for F32 {
    fn perform(op: Op, a: Single, b: Single) -> Single {
        let (x, y) = (f32::from_bits(a.bits), f32::from_bits(b.bits));
        let r = match op {
            Op::Add => x + y,
            Op::Sub => x - y,
            Op::Mul => x * y,
            Op::Sqrt => x.sqrt(),
        };
        single(r)
    }
}

fn single(x: f32) -> Single {
    Single { bits: x.to_bits() }
}

fn singles(xs: &[f32]) -> Vec<Single> {
    xs.iter().map(|&x| single(x)).collect()
}

fn build(
    centroids: &[Single],
    rows: usize,
    dim: usize,
    cap: usize,
    fingerprint: u64,
) -> CentroidNeighbors<F32> {
    CentroidNeighbors::build(centroids, rows, dim, cap, fingerprint)
}

/// Deterministic generator, so that the fixtures are reproducible.
struct Lcg(u64);

impl Lcg {
    fn unit(&mut self) -> f32 {
        self.0 = self
            .0
            .wrapping_mul(6364136223846793005)
            .wrapping_add(1442695040888963407);
        ((self.0 >> 33) as f32) / ((1u64 << 31) as f32)
    }

    fn coord(&mut self) -> f32 {
        self.unit() * 10.0
    }
}

fn make_matrix(rows: usize, dim: usize, lcg: &mut Lcg) -> Vec<f32> {
    (0..rows * dim).map(|_| lcg.coord()).collect()
}

/// The nearest centroid of a vector.
fn argmin(v: &[Single], centroids: &[Single], rows: usize, dim: usize) -> usize {
    (0..rows)
        .map(|c| {
            let d = squared_distance::<F32>(v, &centroids[c * dim..(c + 1) * dim]);
            (f32::from_bits(d.bits), c)
        })
        .min_by(|a, b| a.0.total_cmp(&b.0).then_with(|| a.1.cmp(&b.1)))
        .map(|(_, c)| c)
        .unwrap()
}

/// The pruned scan, with the full scan where it is not certified, must find what
/// the full scan finds, for each vector, across tight and loose closure factors
/// and truncated and untruncated tables.
#[test]
fn pruned_replica_set_equals_brute_force() {
    let dim = 4;
    let num_centroids = 40;
    let num_vectors = 300;
    let mut lcg = Lcg(0x9e3779b97f4a7c15);
    let centroids = singles(&make_matrix(num_centroids, dim, &mut lcg));
    let vectors = singles(&make_matrix(num_vectors, dim, &mut lcg));

    let configs = [
        (1.2f32, 8usize, 6usize),
        (1.2, 8, 20),
        (1.2, 4, 6),
        (10.0, 8, 6),
        (10.0, 8, 20),
        (10.0, 4, 12),
        (1.5, 8, 39), // untruncated
        (3.0, 6, 39), // untruncated
    ];

    let mut truncated_certified = 0usize;
    let mut truncated_fell_back = 0usize;

    for (epsilon, max_replicas, cap) in configs {
        let eps_sq = single(epsilon * epsilon);
        let fp = centroid_fingerprint(&centroids, num_centroids, dim);
        let table = build(&centroids, num_centroids, dim, cap, fp);
        assert_eq!(table.truncated(), (num_centroids - 1) > cap);

        let mut certified = 0usize;
        for vi in 0..num_vectors {
            let v = &vectors[vi * dim..(vi + 1) * dim];
            let p = argmin(v, &centroids, num_centroids, dim);
            let ref_dist = squared_distance::<F32>(v, &centroids[p * dim..(p + 1) * dim]);

            let brute = replicas_full_scan::<F32>(v,
                &centroids,
                num_centroids,
                dim,
                p,
                ref_dist,
                eps_sq,
                max_replicas,
            );
            let pruned = replicas_pruned::<F32>(&table,
                v,
                &centroids,
                dim,
                p,
                ref_dist,
                single(epsilon),
                eps_sq,
                max_replicas,
            );
            if pruned.is_some() {
                certified += 1;
            }
            let effective = pruned.unwrap_or_else(|| {
                replicas_full_scan::<F32>(v,
                    &centroids,
                    num_centroids,
                    dim,
                    p,
                    ref_dist,
                    eps_sq,
                    max_replicas,
                )
            });
            assert_eq!(
                effective, brute,
                "config (eps={epsilon}, max={max_replicas}, cap={cap}) vector {vi}: \
                 pruned set != brute-force set"
            );
        }

        // Untruncated tables certify every vector.
        if !table.truncated() {
            assert_eq!(certified, num_vectors);
        } else {
            truncated_certified += certified;
            truncated_fell_back += num_vectors - certified;
        }
    }

    assert!(
        truncated_certified > 0,
        "certified prune never fired on a truncated table"
    );
    assert!(
        truncated_fell_back > 0,
        "coverage fallback never fired on a truncated table"
    );
}

/// The table is built once for a set of centroids and reused; a different set of
/// centroids has another one built.
#[test]
fn neighbor_table_is_cached_and_rekeyed() {
    let dim = 4;
    let num_centroids = 16;
    let mut lcg = Lcg(123);
    let centroids = make_matrix(num_centroids, dim, &mut lcg);

    let clusterer = SuperKMeansIvfClusterer::<F32>::new();
    let first =
        clusterer.centroid_neighbors(&singles(&centroids), num_centroids, dim, 8, build);
    let second =
        clusterer.centroid_neighbors(&singles(&centroids), num_centroids, dim, 8, build);
    assert!(
        Arc::ptr_eq(&first, &second),
        "same centroids must reuse the cached table"
    );

    let mut other = centroids.clone();
    other[0] += 1.0; // perturb -> different fingerprint
    let third = clusterer.centroid_neighbors(&singles(&other), num_centroids, dim, 8, build);
    assert!(
        !Arc::ptr_eq(&first, &third),
        "different centroids must rebuild the table"
    );
    assert_ne!(first.fingerprint(), third.fingerprint());
}

/// Even with a very wide closure factor the pruned scan is certified for some
/// vectors, because the cap on replicas binds long before the radius does.
#[test]
fn prune_engages_at_default_epsilon() {
    let dim = 8;
    let num_centroids = 1500;
    let num_vectors = 800;
    let max_replicas = 8;
    let cap = max_replicas * 32;
    let mut lcg = Lcg(0xd1b54a32d192ed03);
    let centroids = make_matrix(num_centroids, dim, &mut lcg);
    // Each vector is a centroid plus a small jitter, so that it sits close to its
    // primary.
    let vectors: Vec<f32> = (0..num_vectors)
        .flat_map(|_| {
            let base = (lcg.unit() * num_centroids as f32) as usize % num_centroids;
            let c = &centroids[base * dim..(base + 1) * dim];
            (0..dim)
                .map(|d| c[d] + (lcg.unit() - 0.5) * 3.0)
                .collect::<Vec<_>>()
        })
        .collect();
    let centroids = singles(&centroids);
    let vectors = singles(&vectors);
    let fp = centroid_fingerprint(&centroids, num_centroids, dim);
    let table = build(&centroids, num_centroids, dim, cap, fp);
    let row_len = table.neighbors(0).len();
    assert_eq!(row_len, cap, "table truncated to the cap as expected");

    for (epsilon, min_frac) in [(10.0f32, 0.2f32), (1.5, 0.9)] {
        let eps_sq = single(epsilon * epsilon);
        let mut certified = 0usize;
        for vi in 0..num_vectors {
            let v = &vectors[vi * dim..(vi + 1) * dim];
            let p = argmin(v, &centroids, num_centroids, dim);
            let ref_dist = squared_distance::<F32>(v, &centroids[p * dim..(p + 1) * dim]);
            if replicas_pruned::<F32>(&table,
                v,
                &centroids,
                dim,
                p,
                ref_dist,
                single(epsilon),
                eps_sq,
                max_replicas,
            )
            .is_some()
            {
                certified += 1;
            }
        }
        let frac = certified as f32 / num_vectors as f32;
        println!(
            "epsilon={epsilon}: certified {certified}/{num_vectors} ({:.1}%); per-certified-vector \
             candidate scan = {row_len} of {num_centroids} centroids ({:.1}x fewer dist evals)",
            frac * 100.0,
            num_centroids as f32 / row_len as f32,
        );
        assert!(
            frac >= min_frac,
            "prune engaged on only {:.1}% of vectors at epsilon={epsilon} (floor {:.0}%)",
            frac * 100.0,
            min_frac * 100.0
        );
    }
}

/// Each centroid's list is sorted ascending by distance and index, leaves the
/// centroid itself out, and holds the nearest `min(cap, rows - 1)`.
#[test]
fn neighbor_table_rows_are_sorted_nearest_first() {
    let dim = 3;
    let rows = 12;
    let cap = 5;
    let mut lcg = Lcg(777);
    let centroids = singles(&make_matrix(rows, dim, &mut lcg));
    let fp = centroid_fingerprint(&centroids, rows, dim);
    let table = build(&centroids, rows, dim, cap, fp);

    for p in 0..rows {
        let row: Vec<(f32, u32)> = table
            .neighbors(p)
            .iter()
            .map(|&(d, c)| (f32::from_bits(d.bits), c))
            .collect();
        assert_eq!(row.len(), cap.min(rows - 1));
        assert!(row.iter().all(|&(_, c)| c as usize != p));
        for w in row.windows(2) {
            let (da, ia) = w[0];
            let (db, ib) = w[1];
            assert!(da < db || (da == db && ia < ib), "row {p} not sorted");
        }
        let mut all: Vec<(f32, u32)> = (0..rows)
            .filter(|&c| c != p)
            .map(|c| {
                (
                    f32::from_bits(
                        squared_distance::<F32>(&centroids[p * dim..(p + 1) * dim],
                            &centroids[c * dim..(c + 1) * dim],
                        )
                        .bits,
                    ),
                    c as u32,
                )
            })
            .collect();
        all.sort_unstable_by(|a, b| a.0.total_cmp(&b.0).then_with(|| a.1.cmp(&b.1)));
        assert_eq!(&all[..cap.min(rows - 1)], &row[..]);
    }
}
