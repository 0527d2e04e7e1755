//! The clusters that a vector near a boundary is replicated into.
use vstd::prelude::*;
use crate::arithmetic::{apply, distance, has_row, is_arithmetic, results, row, row_of};
use crate::arithmetic::{squared_distance, Arithmetic, Op, Results};
use crate::heap::sort_entries;
use crate::neighbors::{distances_from, entries, entry, others, CentroidNeighbors, Distances};
use crate::neighbors::MAX_CENTROIDS;
use crate::single::{nearest_first, Entry, Single, ZERO_BITS};

verus! {

/// Which kept entries stand in the way of which later ones.
pub type Blocks = spec_fn(Entry, Entry) -> bool;

/// A kept centroid blocks a candidate that is nearer to it than to the vector.
pub open spec fn relative_neighborhood(m: Results, centroids: Seq<Single>, dim: int) -> Blocks {
    |kept: Entry, e: Entry|
        distance(
            m,
            row_of(centroids, dim, e.1 as int),
            row_of(centroids, dim, kept.1 as int),
        ).is_below(e.0)
}

/// Whether some kept entry blocks `e`.
pub open spec fn is_covered(blocks: Blocks, kept: Seq<Entry>, e: Entry) -> bool {
    exists|j: int| 0 <= j < kept.len() && blocks(#[trigger] kept[j], e)
}

/// The entries that a greedy pass over `cands` keeps: each one, up to `max` of
/// them, that no entry kept before it blocks.
pub open spec fn kept_of(blocks: Blocks, cands: Seq<Entry>, max: int) -> Seq<Entry>
    decreases cands.len(),
{
    if cands.len() == 0 {
        Seq::empty()
    } else {
        let before = kept_of(blocks, cands.drop_last(), max);
        if before.len() < max && !is_covered(blocks, before, cands.last()) {
            before.push(cands.last())
        } else {
            before
        }
    }
}

/// The centroids of entries.
pub open spec fn indices(s: Seq<Entry>) -> Seq<u32> {
    Seq::new(s.len(), |i: int| s[i].1)
}

/// The distance of the last entry, the farthest one of a kept list; zero where
/// there is none.
pub open spec fn last_distance(s: Seq<Entry>) -> Single {
    if s.len() == 0 {
        Single { bits: ZERO_BITS }
    } else {
        s.last().0
    }
}

/// The entries whose distance passes the threshold.
pub open spec fn within(s: Seq<Entry>, threshold: Single) -> Seq<Entry> {
    s.filter(|e: Entry| e.0.is_at_most(threshold))
}

/// The replica candidates among `n` centroids: all but the primary `p` that pass
/// the threshold, nearest first.
pub open spec fn candidates(d: Distances, n: int, p: int, threshold: Single) -> Seq<Entry> {
    nearest_first(within(others(d, n, p), threshold))
}

/// The centroids of a table's list, each with its distance from the vector.
pub open spec fn rescored(list: Seq<Entry>, d: Distances) -> Seq<Entry> {
    Seq::new(list.len(), |k: int| (d(list[k].1 as int), list[k].1))
}

/// The replica candidates in a table's list, nearest first.
pub open spec fn listed_candidates(list: Seq<Entry>, d: Distances, threshold: Single) -> Seq<Entry> {
    nearest_first(within(rescored(list, d), threshold))
}

/// Greedy relative-neighborhood dedup over candidates that are sorted nearest
/// first. A candidate is kept unless a centroid kept before it is nearer to it
/// than the vector is, so that replicas spread over distinct directions. At most
/// `max_replicas` are kept. Returns the kept centroids and the squared distance
/// of the farthest of them.
pub fn rng_dedup<A: Arithmetic>(
    cands: &Vec<Entry>,
    centroids: &[Single],
    dim: usize,
    max_replicas: usize,
) -> (kept: (Vec<u32>, Single))
    requires
        is_arithmetic::<A>(),
        forall|i: int|
            0 <= i < cands.len() ==> has_row(centroids@, dim as int, (#[trigger] cands@[i]).1 as int),
    ensures
        ({
            let entries = kept_of(
                relative_neighborhood(results::<A>(), centroids@, dim as int),
                cands@,
                max_replicas as int,
            );
            kept.0@ == indices(entries) && kept.1 == last_distance(entries)
        }),
{
    let ghost blocks = relative_neighborhood(results::<A>(), centroids@, dim as int);
    let ghost mut kept = Seq::<Entry>::empty();
    let mut replicas: Vec<u32> = Vec::new();
    let mut farthest = Single { bits: ZERO_BITS };
    let mut i: usize = 0;
    while i < cands.len()
        invariant
            i <= cands.len(),
            is_arithmetic::<A>(),
            forall|i: int|
                0 <= i < cands.len() ==> has_row(
                    centroids@,
                    dim as int,
                    (#[trigger] cands@[i]).1 as int,
                ),
            blocks == relative_neighborhood(results::<A>(), centroids@, dim as int),
            kept == kept_of(blocks, cands@.take(i as int), max_replicas as int),
            forall|j: int|
                0 <= j < kept.len() ==> has_row(centroids@, dim as int, (#[trigger] kept[j]).1 as int),
            replicas@ == indices(kept),
            farthest == last_distance(kept),
        decreases cands.len() - i,
    {
        let candidate: Entry = cands[i];
        proof {
            assert(cands@.take(i + 1).drop_last() =~= cands@.take(i as int));
            assert(cands@.take(i + 1).last() == candidate);
        }
        if replicas.len() < max_replicas {
            let at = row(centroids, dim, candidate.1 as usize);
            let mut covered: bool = false;
            let mut j: usize = 0;
            while j < replicas.len() && !covered
                invariant
                    j <= replicas.len(),
                    is_arithmetic::<A>(),
                    blocks == relative_neighborhood(results::<A>(), centroids@, dim as int),
                    at@ == row_of(centroids@, dim as int, candidate.1 as int),
                    forall|j: int|
                        0 <= j < kept.len() ==> has_row(
                            centroids@,
                            dim as int,
                            (#[trigger] kept[j]).1 as int,
                        ),
                    replicas@ == indices(kept),
                    covered ==> is_covered(blocks, kept, candidate),
                    !covered ==> forall|k: int|
                        0 <= k < j ==> !blocks(#[trigger] kept[k], candidate),
                decreases replicas.len() - j,
            {
                assert(replicas@[j as int] == kept[j as int].1);
                let other = row(centroids, dim, replicas[j] as usize);
                covered = squared_distance::<A>(at, other).below(candidate.0);
                assert(covered == blocks(kept[j as int], candidate));
                j = j + 1;
            }
            if !covered {
                replicas.push(candidate.1);
                farthest = candidate.0;
                proof {
                    kept = kept.push(candidate);
                    assert(replicas@ =~= indices(kept));
                }
            }
        }
        i = i + 1;
    }
    proof {
        assert(cands@.take(i as int) =~= cands@);
    }
    (replicas, farthest)
}

proof fn lemma_within_step(s: Seq<Entry>, e: Entry, threshold: Single)
    ensures
        within(s.push(e), threshold) == if e.0.is_at_most(threshold) {
            within(s, threshold).push(e)
        } else {
            within(s, threshold)
        },
{
    reveal(Seq::filter);
    assert(s.push(e).drop_last() =~= s);
}

/// The replicas that a scan of every centroid finds.
pub open spec fn full_scan_replicas(
    m: Results,
    v: Seq<Single>,
    centroids: Seq<Single>,
    n: int,
    dim: int,
    p: int,
    ref_dist: Single,
    eps_sq: Single,
    max: int,
) -> Seq<Entry> {
    kept_of(
        relative_neighborhood(m, centroids, dim),
        candidates(distances_from(m, v, centroids, dim), n, p, m(Op::Mul, eps_sq, ref_dist)),
        max,
    )
}

/// Replicas by scanning all centroids. A centroid other than the primary `p` is
/// a candidate if its squared distance is at most `eps_sq * ref_dist`; the
/// candidates are deduped nearest first.
pub fn replicas_full_scan<A: Arithmetic>(
    v: &[Single],
    centroids: &[Single],
    num_centroids: usize,
    dim: usize,
    p: usize,
    ref_dist: Single,
    eps_sq: Single,
    max_replicas: usize,
) -> (replicas: Vec<u32>)
    requires
        is_arithmetic::<A>(),
        num_centroids <= MAX_CENTROIDS,
        forall|c: int|
            0 <= c < num_centroids && c != p ==> #[trigger] has_row(centroids@, dim as int, c),
    ensures
        replicas@ == indices(
            full_scan_replicas(
                results::<A>(),
                v@,
                centroids@,
                num_centroids as int,
                dim as int,
                p as int,
                ref_dist,
                eps_sq,
                max_replicas as int,
            ),
        ),
{
    let ghost d = distances_from(results::<A>(), v@, centroids@, dim as int);
    let threshold = apply::<A>(Op::Mul, eps_sq, ref_dist);
    let mut cands: Vec<Entry> = Vec::new();
    let mut c: usize = 0;
    proof {
        reveal(Seq::filter);
        assert(entries(d, 0) =~= Seq::<Entry>::empty());
        assert(cands@ =~= within(others(d, 0, p as int), threshold));
    }
    while c < num_centroids
        invariant
            c <= num_centroids <= MAX_CENTROIDS,
            is_arithmetic::<A>(),
            forall|c: int|
                0 <= c < num_centroids && c != p ==> #[trigger] has_row(centroids@, dim as int, c),
            d == distances_from(results::<A>(), v@, centroids@, dim as int),
            cands@ == within(others(d, c as int, p as int), threshold),
            forall|i: int|
                0 <= i < cands.len() ==> has_row(
                    centroids@,
                    dim as int,
                    (#[trigger] cands@[i]).1 as int,
                ),
        decreases num_centroids - c,
    {
        proof {
            crate::neighbors::lemma_others_step(d, c as int, p as int);
        }
        if c != p {
            assert(has_row(centroids@, dim as int, c as int));
            let distance = squared_distance::<A>(v, row(centroids, dim, c));
            let e: Entry = (distance, c as u32);
            assert(e == entry(d, c as int));
            proof {
                lemma_within_step(others(d, c as int, p as int), e, threshold);
            }
            if distance.at_most(threshold) {
                cands.push(e);
            }
        }
        c = c + 1;
    }
    let unsorted = cands;
    let sorted = sort_entries(unsorted);
    proof {
        lemma_sorted_keeps_rows(unsorted@, centroids@, dim as int);
    }
    rng_dedup::<A>(&sorted, centroids, dim, max_replicas).0
}

proof fn lemma_sorted_keeps_rows(s: Seq<Entry>, centroids: Seq<Single>, dim: int)
    requires
        forall|i: int| 0 <= i < s.len() ==> has_row(centroids, dim, (#[trigger] s[i]).1 as int),
    ensures
        forall|i: int|
            0 <= i < nearest_first(s).len() ==> has_row(
                centroids,
                dim,
                (#[trigger] nearest_first(s)[i]).1 as int,
            ),
{
    crate::single::lemma_nearest_first(s);
    assert forall|i: int| 0 <= i < nearest_first(s).len() implies has_row(
        centroids,
        dim,
        (#[trigger] nearest_first(s)[i]).1 as int,
    ) by {
        assert(nearest_first(s).contains(nearest_first(s)[i]));
        assert(s.contains(nearest_first(s)[i]));
    }
}

/// The replicas that a scan of the primary's list finds.
pub open spec fn listed_replicas(
    m: Results,
    list: Seq<Entry>,
    v: Seq<Single>,
    centroids: Seq<Single>,
    dim: int,
    ref_dist: Single,
    eps_sq: Single,
    max: int,
) -> Seq<Entry> {
    kept_of(
        relative_neighborhood(m, centroids, dim),
        listed_candidates(list, distances_from(m, v, centroids, dim), m(Op::Mul, eps_sq, ref_dist)),
        max,
    )
}

/// The distance of the last centroid of a table's list from the primary; zero
/// where there is none.
pub open spec fn list_radius(m: Results, list: Seq<Entry>) -> Single {
    if list.len() == 0 {
        Single { bits: ZERO_BITS }
    } else {
        m(Op::Sqrt, list.last().0, list.last().0)
    }
}

/// How far a centroid that a truncated list leaves out must be from the vector:
/// the radius of the list less the distance from the vector to the primary.
pub open spec fn safe_radius(m: Results, list: Seq<Entry>, ref_dist: Single) -> Single {
    m(Op::Sub, list_radius(m, list), m(Op::Sqrt, ref_dist, ref_dist))
}

/// How far a centroid must be from the vector to make no difference to the
/// replicas: as far as the farthest kept one if the cap is filled, else as far
/// as the candidate radius.
pub open spec fn needed_radius(
    m: Results,
    kept: Seq<Entry>,
    ref_dist: Single,
    epsilon: Single,
    max: int,
) -> Single {
    if kept.len() >= max {
        m(Op::Sqrt, last_distance(kept), last_distance(kept))
    } else {
        m(Op::Mul, epsilon, m(Op::Sqrt, ref_dist, ref_dist))
    }
}

/// The coverage certificate: the list leaves nothing out, or nothing that it
/// leaves out is near enough to matter.
pub open spec fn is_certified(
    m: Results,
    truncated: bool,
    list: Seq<Entry>,
    kept: Seq<Entry>,
    ref_dist: Single,
    epsilon: Single,
    max: int,
) -> bool {
    !truncated || needed_radius(m, kept, ref_dist, epsilon, max).is_below(
        safe_radius(m, list, ref_dist),
    )
}

/// Replicas by scanning only the neighbors of the primary `p` in the table, or
/// `None` if the coverage certificate fails: the caller then scans every
/// centroid.
///
/// A candidate lies within `epsilon` times the distance of the primary, so by the
/// triangle inequality it lies within `1 + epsilon` times that distance of the
/// primary itself. A centroid that the list leaves out is at least as far from the
/// primary as the last one listed, and so at least the difference of that radius
/// and the primary's distance away from the vector.
pub fn replicas_pruned<A: Arithmetic>(
    table: &CentroidNeighbors<A>,
    v: &[Single],
    centroids: &[Single],
    dim: usize,
    p: usize,
    ref_dist: Single,
    epsilon: Single,
    eps_sq: Single,
    max_replicas: usize,
) -> (replicas: Option<Vec<u32>>)
    requires
        is_arithmetic::<A>(),
        p < table.row_count(),
        forall|k: int|
            0 <= k < table.lists()[p as int].len() ==> has_row(
                centroids@,
                dim as int,
                (#[trigger] table.lists()[p as int][k]).1 as int,
            ),
    ensures
        ({
            let m = results::<A>();
            let list = table.lists()[p as int];
            let kept = listed_replicas(
                m,
                list,
                v@,
                centroids@,
                dim as int,
                ref_dist,
                eps_sq,
                max_replicas as int,
            );
            if is_certified(
                m,
                table.is_truncated(),
                list,
                kept,
                ref_dist,
                epsilon,
                max_replicas as int,
            ) {
                replicas matches Some(r) && r@ == indices(kept)
            } else {
                replicas is None
            }
        }),
{
    let ghost m = results::<A>();
    let ghost d = distances_from(m, v@, centroids@, dim as int);
    let list = table.neighbors(p);
    let threshold = apply::<A>(Op::Mul, eps_sq, ref_dist);
    let mut cands: Vec<Entry> = Vec::new();
    let mut k: usize = 0;
    proof {
        reveal(Seq::filter);
        assert(rescored(list@, d).take(0) =~= Seq::<Entry>::empty());
        assert(cands@ =~= within(rescored(list@, d).take(0), threshold));
    }
    while k < list.len()
        invariant
            k <= list.len(),
            is_arithmetic::<A>(),
            d == distances_from(results::<A>(), v@, centroids@, dim as int),
            forall|k: int|
                0 <= k < list.len() ==> has_row(centroids@, dim as int, (#[trigger] list@[k]).1 as int),
            cands@ == within(rescored(list@, d).take(k as int), threshold),
            forall|i: int|
                0 <= i < cands.len() ==> has_row(
                    centroids@,
                    dim as int,
                    (#[trigger] cands@[i]).1 as int,
                ),
        decreases list.len() - k,
    {
        let c: u32 = list[k].1;
        let distance = squared_distance::<A>(v, row(centroids, dim, c as usize));
        let e: Entry = (distance, c);
        proof {
            assert(rescored(list@, d).take(k + 1) =~= rescored(list@, d).take(k as int).push(e));
            lemma_within_step(rescored(list@, d).take(k as int), e, threshold);
        }
        if distance.at_most(threshold) {
            cands.push(e);
        }
        k = k + 1;
    }
    proof {
        assert(rescored(list@, d).take(k as int) =~= rescored(list@, d));
    }
    let unsorted = cands;
    let sorted = sort_entries(unsorted);
    proof {
        lemma_sorted_keeps_rows(unsorted@, centroids@, dim as int);
    }
    let (replicas, farthest) = rng_dedup::<A>(&sorted, centroids, dim, max_replicas);
    if !table.truncated() {
        return Some(replicas);
    }
    let to_primary = apply::<A>(Op::Sqrt, ref_dist, ref_dist);
    let radius = if list.len() == 0 {
        Single { bits: ZERO_BITS }
    } else {
        let last = list[list.len() - 1].0;
        apply::<A>(Op::Sqrt, last, last)
    };
    let safe = apply::<A>(Op::Sub, radius, to_primary);
    let needed = if replicas.len() >= max_replicas {
        apply::<A>(Op::Sqrt, farthest, farthest)
    } else {
        apply::<A>(Op::Mul, epsilon, to_primary)
    };
    if needed.below(safe) {
        Some(replicas)
    } else {
        None
    }
}

} // verus!
