//! When the coverage certificate is sound.
//!
//! Rounding can make the certificate hold where a centroid that a truncated list
//! leaves out is nearer than the certificate says. This cannot happen where the
//! rounding errs on the safe side, as it does where nothing is rounded.
use vstd::prelude::*;
use crate::arithmetic::{distance, row_of, Op, Results};
use crate::arithmetic::{law_common_coordinates_count, law_every_coordinate_counts};
use crate::clusterer::replicas_of;
use crate::exactness::{list_suffices, makes_no_difference, names};
use crate::exactness::{law_neighbor_list, lemma_all_kept_before, lemma_kept};
use crate::exactness::{law_pruning_changes_nothing, law_untruncated_table_is_exact};
use crate::exactness::{lemma_listed_candidates, pruning_is_safe};
use crate::geometry::{exact_distance, square};
use crate::geometry::{law_reverse_triangle, lemma_distance_symmetric};
use crate::neighbors::{distances_from, distances_from_row, entry, neighbor_list, MAX_CENTROIDS};
use crate::replicas::{is_certified, last_distance, list_radius};
use crate::replicas::{listed_candidates, listed_replicas};
use crate::replicas::{needed_radius, relative_neighborhood, safe_radius};
use crate::single::{ascending, rank, Entry, Single, ZERO_BITS};
use crate::single::lemma_rank_by_distance;
use crate::types::IvfMatrix;

verus! {

/// A reading of bit patterns as real numbers.
pub type Reading = spec_fn(Single) -> real;

/// Whether a reading orders numbers as their patterns are ordered, from zero up
/// and down.
pub open spec fn reads_numbers(val: Reading) -> bool {
    &&& val(Single { bits: ZERO_BITS }) == 0 as real
    &&& forall|a: Single, b: Single|
        !a.is_nan() && !b.is_nan() ==> (#[trigger] val(a) <= #[trigger] val(b)
            <==> a.signed_magnitude() <= b.signed_magnitude())
}

/// The point that a vector stands for.
pub open spec fn point(val: Reading, s: Seq<Single>) -> Seq<real> {
    Seq::new(s.len(), |i: int| val(s[i]))
}

/// The squared distance of the points that two vectors stand for.
pub open spec fn true_distance(val: Reading, a: Seq<Single>, b: Seq<Single>, dim: int) -> real {
    exact_distance(point(val, a), point(val, b), dim as nat)
}

/// Whether the results that the certificate of one vector rests on err on the
/// safe side, if they err at all:
///
/// - no centroid left out comes out nearer to the vector, or farther from the
///   primary, than it is;
/// - the primary does not come out nearer to the vector than it is;
/// - the safe radius comes out no larger than it is, and the needed radius no
///   smaller.
pub open spec fn certificate_is_cautious(
    m: Results,
    val: Reading,
    list: Seq<Entry>,
    kept: Seq<Entry>,
    v: Seq<Single>,
    centroids: Seq<Single>,
    n: int,
    dim: int,
    p: int,
    epsilon: Single,
    eps_sq: Single,
    max: int,
) -> bool {
    let primary = row_of(centroids, dim, p);
    let ref_dist = distance(m, v, primary);
    let to_primary = val(m(Op::Sqrt, ref_dist, ref_dist));
    let radius = val(list_radius(m, list));
    let needed = val(needed_radius(m, kept, ref_dist, epsilon, max));
    let threshold = m(Op::Mul, eps_sq, ref_dist);
    &&& forall|c: int|
        0 <= c < n && c != p && !#[trigger] names(list, c) ==> {
            let other = row_of(centroids, dim, c);
            &&& !distance(m, v, other).is_nan()
            &&& true_distance(val, v, other, dim) <= val(distance(m, v, other))
            &&& !distance(m, primary, other).is_nan()
            &&& val(distance(m, primary, other)) <= true_distance(val, primary, other, dim)
        }
    &&& 0 as real <= to_primary
    &&& true_distance(val, v, primary, dim) <= square(to_primary)
    &&& list.len() > 0 ==> !list.last().0.is_nan() && square(radius) <= val(list.last().0)
    &&& val(safe_radius(m, list, ref_dist)) <= radius - to_primary
    &&& 0 as real <= needed
    &&& if kept.len() >= max {
        val(last_distance(kept)) <= square(needed)
    } else {
        !threshold.is_nan() && val(threshold) <= square(needed)
    }
}

proof fn lemma_omitted_makes_no_difference(
    m: Results,
    val: Reading,
    list: Seq<Entry>,
    kept: Seq<Entry>,
    v: Seq<Single>,
    centroids: Seq<Single>,
    n: int,
    dim: int,
    p: int,
    c: int,
    epsilon: Single,
    eps_sq: Single,
    max: int,
)
    requires
        0 <= c < n,
        c != p,
        !names(list, c),
        reads_numbers(val),
        list.len() > 0 ==> rank(list.last()) < rank(
            entry(distances_from_row(m, centroids, dim, p), c),
        ),
        ascending(kept),
        !last_distance(kept).is_nan(),
        certificate_is_cautious(m, val, list, kept, v, centroids, n, dim, p, epsilon, eps_sq, max),
        needed_radius(m, kept, distance(m, v, row_of(centroids, dim, p)), epsilon, max).is_below(
            safe_radius(m, list, distance(m, v, row_of(centroids, dim, p))),
        ),
    ensures
        makes_no_difference(
            relative_neighborhood(m, centroids, dim),
            distances_from(m, v, centroids, dim),
            c,
            m(Op::Mul, eps_sq, distance(m, v, row_of(centroids, dim, p))),
            kept,
            max,
        ),
{
    let primary = row_of(centroids, dim, p);
    let other = row_of(centroids, dim, c);
    let ref_dist = distance(m, v, primary);
    let safe = safe_radius(m, list, ref_dist);
    let threshold = m(Op::Mul, eps_sq, ref_dist);
    let far = val(needed_radius(m, kept, ref_dist, epsilon, max));
    assert(far < val(safe)) by {
        assert(!(val(safe) <= far));
    }
    // An empty list has radius zero, and then nothing is certified.
    assert(list.len() > 0);
    let last = list.last().0;
    let from_primary = distance(m, primary, other);
    lemma_rank_by_distance(list.last(), entry(distances_from_row(m, centroids, dim, p), c));
    assert(last.order_key() <= from_primary.order_key());
    assert(val(last) <= val(from_primary));
    lemma_distance_symmetric(point(val, v), point(val, primary), dim as nat);
    law_reverse_triangle(
        point(val, primary),
        point(val, v),
        point(val, other),
        dim as nat,
        val(list_radius(m, list)),
        val(m(Op::Sqrt, ref_dist, ref_dist)),
        far,
    );
    let to_other = distance(m, v, other);
    assert(val(to_other) > square(far));
    if kept.len() >= max {
        let farthest = last_distance(kept);
        assert(!(val(to_other) <= val(farthest)));
        assert(farthest.order_key() < to_other.order_key());
        let e = entry(distances_from(m, v, centroids, dim), c);
        assert forall|k: int| 0 <= k < kept.len() implies rank(#[trigger] kept[k]) < rank(e) by {
            lemma_rank_by_distance(kept.last(), e);
            if k < kept.len() - 1 {
                assert(rank(kept[k]) <= rank(kept[kept.len() - 1]));
            }
        }
        lemma_all_kept_before(kept, e);
    } else {
        assert(!(val(to_other) <= val(threshold)));
    }
}

/// Where its results err on the safe side, the certificate is sound: a certified
/// list suffices, whichever centroids it leaves out.
pub proof fn law_cautious_certificate_is_sound(
    m: Results,
    val: Reading,
    cap: int,
    v: Seq<Single>,
    centroids: Seq<Single>,
    n: int,
    dim: int,
    p: int,
    epsilon: Single,
    eps_sq: Single,
    max: int,
)
    requires
        0 <= p < n <= MAX_CENTROIDS,
        0 <= cap,
        0 <= max,
        reads_numbers(val),
        ({
            let ref_dist = distance(m, v, row_of(centroids, dim, p));
            let list = neighbor_list(m, centroids, n, dim, p, cap);
            let kept = listed_replicas(m, list, v, centroids, dim, ref_dist, eps_sq, max);
            &&& is_certified(m, true, list, kept, ref_dist, epsilon, max)
            &&& certificate_is_cautious(
                m,
                val,
                list,
                kept,
                v,
                centroids,
                n,
                dim,
                p,
                epsilon,
                eps_sq,
                max,
            )
        }),
    ensures
        ({
            let ref_dist = distance(m, v, row_of(centroids, dim, p));
            let list = neighbor_list(m, centroids, n, dim, p, cap);
            list_suffices(
                relative_neighborhood(m, centroids, dim),
                list,
                distances_from(m, v, centroids, dim),
                n,
                p,
                m(Op::Mul, eps_sq, ref_dist),
                listed_replicas(m, list, v, centroids, dim, ref_dist, eps_sq, max),
                max,
            )
        }),
{
    let ref_dist = distance(m, v, row_of(centroids, dim, p));
    let list = neighbor_list(m, centroids, n, dim, p, cap);
    let kept = listed_replicas(m, list, v, centroids, dim, ref_dist, eps_sq, max);
    let d = distances_from(m, v, centroids, dim);
    let threshold = m(Op::Mul, eps_sq, ref_dist);
    let blocks = relative_neighborhood(m, centroids, dim);
    law_neighbor_list(distances_from_row(m, centroids, dim, p), n, p, cap);
    lemma_listed_candidates(list, d, n, p, threshold);
    lemma_kept(blocks, listed_candidates(list, d, threshold), max);
    if kept.len() > 0 {
        assert(listed_candidates(list, d, threshold).contains(kept[kept.len() - 1]));
    }
    assert forall|c: int| 0 <= c < n && c != p && !names(list, c) implies
        #[trigger] makes_no_difference(blocks, d, c, threshold, kept, max) by {
        lemma_omitted_makes_no_difference(
            m,
            val,
            list,
            kept,
            v,
            centroids,
            n,
            dim,
            p,
            c,
            epsilon,
            eps_sq,
            max,
        );
    }
}

/// Where a certificate, if there is one, errs on the safe side, pruning is safe:
/// the replicas found by going by a table are those that the scan of all centroids
/// finds.
pub proof fn law_cautious_pruning_is_safe(
    m: Results,
    val: Reading,
    cap: int,
    v: Seq<Single>,
    centroids: IvfMatrix,
    p: int,
    epsilon: Single,
    max: int,
)
    requires
        centroids.rows <= MAX_CENTROIDS,
        0 <= cap,
        0 <= p < centroids.rows,
        0 <= max,
        reads_numbers(val),
        ({
            let values = centroids.values@;
            let rows = centroids.rows as int;
            let dim = centroids.dims as int;
            let ref_dist = distance(m, v, row_of(values, dim, p));
            let eps_sq = m(Op::Mul, epsilon, epsilon);
            let list = neighbor_list(m, values, rows, dim, p, cap);
            let kept = listed_replicas(m, list, v, values, dim, ref_dist, eps_sq, max);
            rows - 1 > cap && is_certified(m, true, list, kept, ref_dist, epsilon, max)
                ==> certificate_is_cautious(
                m,
                val,
                list,
                kept,
                v,
                values,
                rows,
                dim,
                p,
                epsilon,
                eps_sq,
                max,
            )
        }),
    ensures
        pruning_is_safe(m, cap, v, centroids, p, epsilon, max),
        replicas_of(m, Some(cap), v, centroids, p, epsilon, max) == replicas_of(
            m,
            None,
            v,
            centroids,
            p,
            epsilon,
            max,
        ),
{
    let values = centroids.values@;
    let rows = centroids.rows as int;
    let dim = centroids.dims as int;
    let ref_dist = distance(m, v, row_of(values, dim, p));
    let eps_sq = m(Op::Mul, epsilon, epsilon);
    let list = neighbor_list(m, values, rows, dim, p, cap);
    let kept = listed_replicas(m, list, v, values, dim, ref_dist, eps_sq, max);
    if rows - 1 <= cap {
        law_untruncated_table_is_exact(m, cap, v, centroids, p, epsilon, max);
    } else {
        if is_certified(m, true, list, kept, ref_dist, epsilon, max) {
            law_cautious_certificate_is_sound(
                m,
                val,
                cap,
                v,
                values,
                rows,
                dim,
                p,
                epsilon,
                eps_sq,
                max,
            );
        }
        law_pruning_changes_nothing(m, cap, v, centroids, p, epsilon, max);
    }
}

/// Whether the squared distance of two vectors comes out unrounded.
pub open spec fn distance_is_exact(m: Results, val: Reading, a: Seq<Single>, b: Seq<Single>, dim: int) -> bool {
    &&& !distance(m, a, b).is_nan()
    &&& val(distance(m, a, b)) == true_distance(val, a, b, dim)
}

/// Whether a square root comes out unrounded.
pub open spec fn root_is_exact(m: Results, val: Reading, x: Single) -> bool {
    &&& 0 as real <= val(m(Op::Sqrt, x, x))
    &&& square(val(m(Op::Sqrt, x, x))) == val(x)
}

/// Whether a product comes out unrounded.
pub open spec fn product_is_exact(m: Results, val: Reading, x: Single, y: Single) -> bool {
    &&& !m(Op::Mul, x, y).is_nan()
    &&& val(m(Op::Mul, x, y)) == val(x) * val(y)
}

/// Whether a difference comes out unrounded.
pub open spec fn difference_is_exact(m: Results, val: Reading, x: Single, y: Single) -> bool {
    val(m(Op::Sub, x, y)) == val(x) - val(y)
}

/// Whether the results that the certificate of one vector rests on are unrounded:
/// the distances from the vector and from its primary, the radii, and the threshold.
pub open spec fn certificate_is_unrounded(
    m: Results,
    val: Reading,
    list: Seq<Entry>,
    kept: Seq<Entry>,
    v: Seq<Single>,
    centroids: Seq<Single>,
    n: int,
    dim: int,
    p: int,
    epsilon: Single,
    eps_sq: Single,
) -> bool {
    let primary = row_of(centroids, dim, p);
    let ref_dist = distance(m, v, primary);
    let to_primary = m(Op::Sqrt, ref_dist, ref_dist);
    &&& forall|c: int|
        0 <= c < n ==> distance_is_exact(m, val, v, #[trigger] row_of(centroids, dim, c), dim)
            && distance_is_exact(m, val, primary, row_of(centroids, dim, c), dim)
    &&& root_is_exact(m, val, ref_dist)
    &&& root_is_exact(m, val, last_distance(kept))
    &&& list.len() > 0 ==> root_is_exact(m, val, list.last().0)
    &&& difference_is_exact(m, val, list_radius(m, list), to_primary)
    &&& val(eps_sq) == square(val(epsilon))
    &&& product_is_exact(m, val, eps_sq, ref_dist)
    &&& product_is_exact(m, val, epsilon, to_primary)
}

/// Exact results err on no side: with a closure factor that is not negative, an
/// unrounded certificate is a cautious one.
pub proof fn law_unrounded_certificate_is_cautious(
    m: Results,
    val: Reading,
    cap: int,
    v: Seq<Single>,
    centroids: Seq<Single>,
    n: int,
    dim: int,
    p: int,
    epsilon: Single,
    eps_sq: Single,
    max: int,
)
    requires
        0 <= p < n <= MAX_CENTROIDS,
        0 <= cap,
        0 as real <= val(epsilon),
        ({
            let ref_dist = distance(m, v, row_of(centroids, dim, p));
            let list = neighbor_list(m, centroids, n, dim, p, cap);
            let kept = listed_replicas(m, list, v, centroids, dim, ref_dist, eps_sq, max);
            certificate_is_unrounded(
                m,
                val,
                list,
                kept,
                v,
                centroids,
                n,
                dim,
                p,
                epsilon,
                eps_sq,
            )
        }),
    ensures
        ({
            let ref_dist = distance(m, v, row_of(centroids, dim, p));
            let list = neighbor_list(m, centroids, n, dim, p, cap);
            let kept = listed_replicas(m, list, v, centroids, dim, ref_dist, eps_sq, max);
            certificate_is_cautious(
                m,
                val,
                list,
                kept,
                v,
                centroids,
                n,
                dim,
                p,
                epsilon,
                eps_sq,
                max,
            )
        }),
{
    let primary = row_of(centroids, dim, p);
    let ref_dist = distance(m, v, primary);
    let list = neighbor_list(m, centroids, n, dim, p, cap);
    let kept = listed_replicas(m, list, v, centroids, dim, ref_dist, eps_sq, max);
    let e = val(epsilon);
    let t = val(m(Op::Sqrt, ref_dist, ref_dist));
    law_neighbor_list(distances_from_row(m, centroids, dim, p), n, p, cap);
    assert(distance_is_exact(m, val, v, primary, dim));
    if list.len() > 0 {
        let last = list[list.len() - 1];
        assert(last == entry(distances_from_row(m, centroids, dim, p), last.1 as int));
        assert(distance_is_exact(m, val, primary, row_of(centroids, dim, last.1 as int), dim));
    }
    assert(0 as real <= e * t) by (nonlinear_arith)
        requires
            0 as real <= e,
            0 as real <= t,
    ;
    assert(square(e * t) == square(e) * square(t)) by (nonlinear_arith)
        requires
            square(e * t) == (e * t) * (e * t),
            square(e) == e * e,
            square(t) == t * t,
    ;
}

/// Whether the operations that a coordinate of two vectors takes part in come out
/// unrounded: its difference, the square of that, and adding this to the distance
/// over the coordinates before.
pub open spec fn coordinate_is_exact(
    m: Results,
    val: Reading,
    a: Seq<Single>,
    b: Seq<Single>,
    i: int,
) -> bool {
    let before = distance(m, a.take(i), b.take(i));
    let apart = m(Op::Sub, a[i], b[i]);
    let squared = m(Op::Mul, apart, apart);
    &&& val(apart) == val(a[i]) - val(b[i])
    &&& val(squared) == val(apart) * val(apart)
    &&& val(m(Op::Add, before, squared)) == val(before) + val(squared)
}

/// The computed distance is the squared Euclidean distance, over all coordinates
/// that both vectors have, where no operation on any of them is rounded and an
/// empty sum reads as zero.
pub proof fn law_distance_is_euclidean(m: Results, val: Reading, a: Seq<Single>, b: Seq<Single>, n: nat)
    requires
        n == a.len() || n == b.len(),
        n <= a.len(),
        n <= b.len(),
        val(Single { bits: 0x8000_0000 }) == 0 as real,
        forall|i: int| 0 <= i < n ==> #[trigger] coordinate_is_exact(m, val, a, b, i),
    ensures
        val(distance(m, a, b)) == exact_distance(point(val, a), point(val, b), n),
{
    lemma_prefix_is_euclidean(m, val, a, b, n);
    law_common_coordinates_count(m, a, b);
    assert(a.take(a.len() as int) =~= a);
    assert(b.take(b.len() as int) =~= b);
}

proof fn lemma_prefix_is_euclidean(m: Results, val: Reading, a: Seq<Single>, b: Seq<Single>, n: nat)
    requires
        n <= a.len(),
        n <= b.len(),
        val(Single { bits: 0x8000_0000 }) == 0 as real,
        forall|i: int| 0 <= i < n ==> #[trigger] coordinate_is_exact(m, val, a, b, i),
    ensures
        val(distance(m, a.take(n as int), b.take(n as int))) == exact_distance(
            point(val, a),
            point(val, b),
            n,
        ),
    decreases n,
{
    if n > 0 {
        let k = n - 1;
        lemma_prefix_is_euclidean(m, val, a, b, k as nat);
        assert(coordinate_is_exact(m, val, a, b, k));
        law_every_coordinate_counts(m, a.take(k), b.take(k), a[k], b[k]);
        assert(a.take(k).push(a[k]) =~= a.take(n as int));
        assert(b.take(k).push(b[k]) =~= b.take(n as int));
    } else {
        let x = a[0];
        law_every_coordinate_counts(m, a.take(0), b.take(0), x, x);
    }
}

proof fn lemma_roots_agree(r: real, s: real)
    requires
        0 as real <= r,
        0 as real <= s,
        r * r == s * s,
    ensures
        r == s,
{
    if r < s {
        assert(r * r < s * s) by (nonlinear_arith)
            requires
                0 as real <= r,
                r < s,
        ;
    }
    if s < r {
        assert(s * s < r * r) by (nonlinear_arith)
            requires
                0 as real <= s,
                s < r,
        ;
    }
}

/// What the certificate of a truncated list says where nothing is rounded: the last
/// centroid of the list is farther from the primary than the vector is, by more
/// than the farthest replica is from the vector where the cap is filled, and by more
/// than `epsilon` times the distance of the primary where it is not.
pub proof fn law_certificate_in_exact_arithmetic(
    m: Results,
    val: Reading,
    cap: int,
    v: Seq<Single>,
    centroids: Seq<Single>,
    n: int,
    dim: int,
    p: int,
    epsilon: Single,
    eps_sq: Single,
    max: int,
    radius: real,
    to_primary: real,
    to_farthest: real,
)
    requires
        0 <= p < n <= MAX_CENTROIDS,
        0 < cap < n,
        1 <= max,
        reads_numbers(val),
        0 as real <= radius,
        0 as real <= to_primary,
        0 as real <= to_farthest,
        ({
            let primary = row_of(centroids, dim, p);
            let ref_dist = distance(m, v, primary);
            let list = neighbor_list(m, centroids, n, dim, p, cap);
            let kept = listed_replicas(m, list, v, centroids, dim, ref_dist, eps_sq, max);
            let last = row_of(centroids, dim, list.last().1 as int);
            let farthest = row_of(centroids, dim, kept.last().1 as int);
            &&& certificate_is_unrounded(
                m,
                val,
                list,
                kept,
                v,
                centroids,
                n,
                dim,
                p,
                epsilon,
                eps_sq,
            )
            &&& !safe_radius(m, list, ref_dist).is_nan()
            &&& !needed_radius(m, kept, ref_dist, epsilon, max).is_nan()
            &&& radius * radius == true_distance(val, primary, last, dim)
            &&& to_primary * to_primary == true_distance(val, v, primary, dim)
            &&& kept.len() == max ==> to_farthest * to_farthest == true_distance(
                val,
                v,
                farthest,
                dim,
            )
        }),
    ensures
        ({
            let ref_dist = distance(m, v, row_of(centroids, dim, p));
            let list = neighbor_list(m, centroids, n, dim, p, cap);
            let kept = listed_replicas(m, list, v, centroids, dim, ref_dist, eps_sq, max);
            is_certified(m, true, list, kept, ref_dist, epsilon, max) <==> radius - to_primary > (
            if kept.len() == max {
                to_farthest
            } else {
                val(epsilon) * to_primary
            })
        }),
{
    let primary = row_of(centroids, dim, p);
    let ref_dist = distance(m, v, primary);
    let list = neighbor_list(m, centroids, n, dim, p, cap);
    let kept = listed_replicas(m, list, v, centroids, dim, ref_dist, eps_sq, max);
    let d = distances_from(m, v, centroids, dim);
    let threshold = m(Op::Mul, eps_sq, ref_dist);
    law_neighbor_list(distances_from_row(m, centroids, dim, p), n, p, cap);
    lemma_listed_candidates(list, d, n, p, threshold);
    lemma_kept(relative_neighborhood(m, centroids, dim), listed_candidates(list, d, threshold), max);
    let last = list[list.len() - 1];
    assert(last == entry(distances_from_row(m, centroids, dim, p), last.1 as int));
    assert(distance_is_exact(m, val, primary, row_of(centroids, dim, last.1 as int), dim));
    assert(distance_is_exact(m, val, v, primary, dim));
    lemma_roots_agree(radius, val(m(Op::Sqrt, last.0, last.0)));
    lemma_roots_agree(to_primary, val(m(Op::Sqrt, ref_dist, ref_dist)));
    if kept.len() == max {
        let far = kept[kept.len() - 1];
        assert(listed_candidates(list, d, threshold).contains(far));
        assert(names(list, far.1 as int));
        assert(far == entry(d, far.1 as int));
        assert(distance_is_exact(m, val, v, row_of(centroids, dim, far.1 as int), dim));
        lemma_roots_agree(to_farthest, val(m(Op::Sqrt, far.0, far.0)));
    }
    let needed = needed_radius(m, kept, ref_dist, epsilon, max);
    let safe = safe_radius(m, list, ref_dist);
    assert(val(safe) <= val(needed) <==> safe.signed_magnitude() <= needed.signed_magnitude());
}

} // verus!
