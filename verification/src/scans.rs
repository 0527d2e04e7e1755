//! How what scans find depends on what they are given.
use vstd::prelude::*;
use crate::arithmetic::{distance, row_of, squares_alike, Op, Results};
use crate::arithmetic::law_distance_is_symmetric;
use crate::clusterer::replicas_of;
use crate::exactness::{kept_before, list_suffices, makes_no_difference, names};
use crate::exactness::{names_others_once, passed_over, pruning_is_safe};
use crate::exactness::{law_list_is_exact_if_it_suffices, law_neighbor_list};
use crate::exactness::{law_pruning_changes_nothing, lemma_candidates, lemma_filter_keeps_order};
use crate::exactness::{lemma_filter_keeps_unique, lemma_kept, lemma_listed_candidates};
use crate::exactness::{lemma_same_entries_same_list, lemma_unseen};
use crate::neighbors::{distances_from, distances_from_row, entry, min_of, neighbor_list, others};
use crate::neighbors::{Distances, MAX_CENTROIDS};
use crate::neighbors::lemma_others;
use crate::replicas::{candidates, full_scan_replicas, is_certified, is_covered, kept_of};
use crate::replicas::{listed_candidates, listed_replicas, relative_neighborhood, safe_radius};
use crate::replicas::{within, Blocks};
use crate::single::{ascending, rank, Entry, Single};
use crate::single::{lemma_nearest_first, lemma_rank_by_distance};
use crate::types::IvfMatrix;

verus! {

/// A pass over more entries, that come after the others, keeps what it had kept
/// before, and then more.
proof fn lemma_kept_grows(blocks: Blocks, cands: Seq<Entry>, max: int, k: int)
    requires
        0 <= k <= cands.len(),
    ensures
        kept_of(blocks, cands.take(k), max).is_prefix_of(kept_of(blocks, cands, max)),
    decreases cands.len(),
{
    if k == cands.len() {
        assert(cands.take(k) =~= cands);
    } else {
        let t = cands.drop_last();
        lemma_kept_grows(blocks, t, max, k);
        assert(t.take(k) =~= cands.take(k));
        let before = kept_of(blocks, t, max);
        let first = kept_of(blocks, cands.take(k), max);
        assert(before.push(cands.last()).take(first.len() as int) =~= before.take(
            first.len() as int,
        ));
    }
}

proof fn lemma_all_within(s: Seq<Entry>, threshold: Single)
    requires
        forall|i: int| 0 <= i < s.len() ==> (#[trigger] s[i]).0.is_at_most(threshold),
    ensures
        within(s, threshold) == s,
    decreases s.len(),
{
    reveal(Seq::filter);
    if s.len() > 0 {
        let t = s.drop_last();
        assert forall|i: int| 0 <= i < t.len() implies (#[trigger] t[i]).0.is_at_most(threshold) by {
            assert(t[i] == s[i]);
        }
        lemma_all_within(t, threshold);
        assert(s[s.len() - 1].0.is_at_most(threshold));
        assert(t.push(s.last()) =~= s);
    }
}

/// What passes a threshold comes first among candidates.
proof fn lemma_within_comes_first(cands: Seq<Entry>, threshold: Single)
    requires
        ascending(cands),
        forall|i: int| 0 <= i < cands.len() ==> !(#[trigger] cands[i]).0.is_nan(),
    ensures
        within(cands, threshold).len() <= cands.len(),
        within(cands, threshold) == cands.take(within(cands, threshold).len() as int),
    decreases cands.len(),
{
    if cands.len() > 0 && cands.last().0.is_at_most(threshold) {
        assert forall|i: int| 0 <= i < cands.len() implies (#[trigger] cands[i]).0.is_at_most(
            threshold,
        ) by {
            if i < cands.len() - 1 {
                assert(rank(cands[i]) <= rank(cands[cands.len() - 1]));
                lemma_rank_by_distance(cands[i], cands[cands.len() - 1]);
            }
        }
        lemma_all_within(cands, threshold);
        assert(cands.take(cands.len() as int) =~= cands);
    } else {
        reveal(Seq::filter);
        if cands.len() > 0 {
            let t = cands.drop_last();
            assert forall|i: int| 0 <= i < t.len() implies !(#[trigger] t[i]).0.is_nan() by {
                assert(t[i] == cands[i]);
            }
            lemma_within_comes_first(t, threshold);
            let k = within(t, threshold).len() as int;
            assert(cands.take(k) =~= t.take(k));
        } else {
            assert(cands.take(0) =~= cands);
        }
    }
}

/// A wider closure factor only appends replicas: what the full scan finds with a
/// lower threshold comes first in what it finds with a higher one.
pub proof fn law_wider_closure_appends_replicas(
    m: Results,
    v: Seq<Single>,
    centroids: Seq<Single>,
    n: int,
    dim: int,
    p: int,
    ref_dist: Single,
    eps_sq: Single,
    wider: Single,
    max: int,
)
    requires
        0 <= n <= MAX_CENTROIDS,
        0 <= p,
        0 <= max,
        m(Op::Mul, eps_sq, ref_dist).is_at_most(m(Op::Mul, wider, ref_dist)),
    ensures
        full_scan_replicas(m, v, centroids, n, dim, p, ref_dist, eps_sq, max).is_prefix_of(
            full_scan_replicas(m, v, centroids, n, dim, p, ref_dist, wider, max),
        ),
{
    let d = distances_from(m, v, centroids, dim);
    let near = m(Op::Mul, eps_sq, ref_dist);
    let far = m(Op::Mul, wider, ref_dist);
    let a = candidates(d, n, p, near);
    let b = candidates(d, n, p, far);
    let passes = |e: Entry| e.0.is_at_most(near);
    lemma_candidates(d, n, p, near);
    lemma_candidates(d, n, p, far);
    lemma_filter_keeps_unique(b, passes);
    lemma_filter_keeps_order(b, passes);
    lemma_same_entries_same_list(a, b.filter(passes));
    assert forall|i: int| 0 <= i < b.len() implies !(#[trigger] b[i]).0.is_nan() by {
        assert(b.contains(b[i]));
    }
    lemma_within_comes_first(b, near);
    lemma_kept_grows(relative_neighborhood(m, centroids, dim), b, max, a.len() as int);
}

/// A list that names all that a sufficient list names suffices too, and its scan
/// keeps the same.
proof fn lemma_longer_list_suffices(
    blocks: Blocks,
    list: Seq<Entry>,
    longer: Seq<Entry>,
    d: Distances,
    n: int,
    p: int,
    threshold: Single,
    max: int,
)
    requires
        0 <= n <= MAX_CENTROIDS,
        0 <= p,
        0 <= max,
        names_others_once(list, n, p),
        names_others_once(longer, n, p),
        forall|c: int| #[trigger] names(list, c) ==> names(longer, c),
        list_suffices(
            blocks,
            list,
            d,
            n,
            p,
            threshold,
            kept_of(blocks, listed_candidates(list, d, threshold), max),
            max,
        ),
    ensures
        kept_of(blocks, listed_candidates(longer, d, threshold), max) == kept_of(
            blocks,
            listed_candidates(list, d, threshold),
            max,
        ),
        list_suffices(
            blocks,
            longer,
            d,
            n,
            p,
            threshold,
            kept_of(blocks, listed_candidates(longer, d, threshold), max),
            max,
        ),
{
    let a = listed_candidates(list, d, threshold);
    let b = listed_candidates(longer, d, threshold);
    let seen = |e: Entry| names(list, e.1 as int);
    let kept = kept_of(blocks, a, max);
    lemma_listed_candidates(list, d, n, p, threshold);
    lemma_listed_candidates(longer, d, n, p, threshold);
    lemma_filter_keeps_unique(b, seen);
    lemma_filter_keeps_order(b, seen);
    lemma_same_entries_same_list(a, b.filter(seen));
    lemma_unseen(blocks, b, seen, max);
    assert forall|e: Entry| #[trigger] b.contains(e) && !seen(e) implies passed_over(
        blocks,
        kept_before(kept, e),
        e,
        max,
    ) by {
        let k = choose|k: int| 0 <= k < longer.len() && (#[trigger] longer[k]).1 == e.1;
        assert(longer[k].1 < n && longer[k].1 != p);
        assert(makes_no_difference(blocks, d, e.1 as int, threshold, kept, max));
    }
    law_list_is_exact_if_it_suffices(blocks, list, d, n, p, threshold, max);
    law_list_is_exact_if_it_suffices(blocks, longer, d, n, p, threshold, max);
}

/// A larger table keeps certificates and answers: where pruning is safe and
/// certified with lists of at most `cap`, it is safe and certified with longer
/// lists, and finds the same, provided that the safe radius comes out no smaller.
pub proof fn law_larger_table_keeps_answers(
    m: Results,
    cap: int,
    larger: int,
    v: Seq<Single>,
    centroids: IvfMatrix,
    p: int,
    epsilon: Single,
    max: int,
)
    requires
        centroids.rows <= MAX_CENTROIDS,
        0 <= cap <= larger,
        0 <= p < centroids.rows,
        0 <= max,
        pruning_is_safe(m, cap, v, centroids, p, epsilon, max),
        ({
            let values = centroids.values@;
            let rows = centroids.rows as int;
            let dim = centroids.dims as int;
            let ref_dist = distance(m, v, row_of(values, dim, p));
            let eps_sq = m(Op::Mul, epsilon, epsilon);
            let list = neighbor_list(m, values, rows, dim, p, cap);
            let longer = neighbor_list(m, values, rows, dim, p, larger);
            let kept = listed_replicas(m, list, v, values, dim, ref_dist, eps_sq, max);
            &&& is_certified(m, rows - 1 > cap, list, kept, ref_dist, epsilon, max)
            &&& rows - 1 > cap ==> safe_radius(m, list, ref_dist).is_at_most(
                safe_radius(m, longer, ref_dist),
            )
        }),
    ensures
        pruning_is_safe(m, larger, v, centroids, p, epsilon, max),
        ({
            let values = centroids.values@;
            let rows = centroids.rows as int;
            let dim = centroids.dims as int;
            let ref_dist = distance(m, v, row_of(values, dim, p));
            let eps_sq = m(Op::Mul, epsilon, epsilon);
            let longer = neighbor_list(m, values, rows, dim, p, larger);
            let kept = listed_replicas(m, longer, v, values, dim, ref_dist, eps_sq, max);
            is_certified(m, rows - 1 > larger, longer, kept, ref_dist, epsilon, max)
        }),
        replicas_of(m, Some(larger), v, centroids, p, epsilon, max) == replicas_of(
            m,
            Some(cap),
            v,
            centroids,
            p,
            epsilon,
            max,
        ),
{
    let values = centroids.values@;
    let n = centroids.rows as int;
    let dim = centroids.dims as int;
    let ref_dist = distance(m, v, row_of(values, dim, p));
    let threshold = m(Op::Mul, m(Op::Mul, epsilon, epsilon), ref_dist);
    let dp = distances_from_row(m, values, dim, p);
    let list = neighbor_list(m, values, n, dim, p, cap);
    let longer = neighbor_list(m, values, n, dim, p, larger);
    law_neighbor_list(dp, n, p, cap);
    law_neighbor_list(dp, n, p, larger);
    lemma_others(dp, n, p);
    lemma_nearest_first(others(dp, n, p));
    assert forall|c: int| #[trigger] names(list, c) implies names(longer, c) by {
        let k = choose|k: int| 0 <= k < list.len() && (#[trigger] list[k]).1 == c;
        assert(longer[k] == list[k]);
    }
    lemma_longer_list_suffices(
        relative_neighborhood(m, values, dim),
        list,
        longer,
        distances_from(m, v, values, dim),
        n,
        p,
        threshold,
        max,
    );
    law_pruning_changes_nothing(m, cap, v, centroids, p, epsilon, max);
    law_pruning_changes_nothing(m, larger, v, centroids, p, epsilon, max);
}

/// A larger cap only appends to the lists of a table.
pub proof fn law_larger_cap_appends_neighbors(
    m: Results,
    centroids: Seq<Single>,
    rows: int,
    dim: int,
    p: int,
    cap: int,
    larger: int,
)
    requires
        0 <= cap <= larger,
    ensures
        neighbor_list(m, centroids, rows, dim, p, cap).is_prefix_of(
            neighbor_list(m, centroids, rows, dim, p, larger),
        ),
{
    let d = distances_from_row(m, centroids, dim, p);
    lemma_nearest_first(others(d, rows, p));
    let short = neighbor_list(m, centroids, rows, dim, p, cap);
    let long = neighbor_list(m, centroids, rows, dim, p, larger);
    assert(short =~= long.take(short.len() as int));
}

/// A lower cap only cuts the tail of what a greedy pass keeps.
pub proof fn law_lower_cap_cuts_the_tail(blocks: Blocks, cands: Seq<Entry>, lower: int, higher: int)
    requires
        0 <= lower <= higher,
    ensures
        kept_of(blocks, cands, lower) == kept_of(blocks, cands, higher).take(
            min_of(lower, kept_of(blocks, cands, higher).len() as int),
        ),
    decreases cands.len(),
{
    let high = kept_of(blocks, cands, higher);
    if cands.len() > 0 {
        let t = cands.drop_last();
        let x = cands.last();
        law_lower_cap_cuts_the_tail(blocks, t, lower, higher);
        let before = kept_of(blocks, t, higher);
        if before.len() < lower {
            assert(before.take(before.len() as int) =~= before);
            assert(high.take(high.len() as int) =~= high);
        } else {
            assert(before.push(x).take(lower) =~= before.take(lower));
            assert(before.take(lower).len() == lower);
        }
    } else {
        assert(high.take(0) =~= high);
    }
}

/// What a pass keeps depends on which of its candidates block which only.
proof fn lemma_kept_by_candidates(a: Blocks, b: Blocks, cands: Seq<Entry>, max: int)
    requires
        0 <= max,
        forall|x: Entry, y: Entry| #[trigger]
            a(x, y) != b(x, y) ==> !cands.contains(x) || !cands.contains(y),
    ensures
        kept_of(a, cands, max) == kept_of(b, cands, max),
    decreases cands.len(),
{
    if cands.len() > 0 {
        let t = cands.drop_last();
        let e = cands.last();
        assert forall|x: Entry| #[trigger] t.contains(x) implies cands.contains(x) by {
            let i = choose|i: int| 0 <= i < t.len() && t[i] == x;
            assert(cands[i] == x);
        }
        assert(cands[cands.len() - 1] == e);
        assert forall|x: Entry, y: Entry| #[trigger] a(x, y) != b(x, y) implies !t.contains(x)
            || !t.contains(y) by {
        }
        lemma_kept_by_candidates(a, b, t, max);
        lemma_kept(a, t, max);
        let before = kept_of(a, t, max);
        assert forall|j: int| 0 <= j < before.len() implies a(#[trigger] before[j], e) == b(
            before[j],
            e,
        ) by {
            assert(t.contains(before[j]));
        }
        assert(is_covered(a, before, e) == is_covered(b, before, e));
    }
}

/// A centroid beyond the threshold does not show in what the full scan finds:
/// wherever beyond the threshold it lies, the same is found.
pub proof fn law_far_centroid_does_not_show(
    m: Results,
    v: Seq<Single>,
    here: Seq<Single>,
    there: Seq<Single>,
    n: int,
    dim: int,
    p: int,
    far: int,
    ref_dist: Single,
    eps_sq: Single,
    max: int,
)
    requires
        0 <= n <= MAX_CENTROIDS,
        0 <= p,
        0 <= max,
        forall|c: int|
            0 <= c < n && c != far ==> #[trigger] row_of(here, dim, c) == row_of(there, dim, c),
        !distance(m, v, row_of(here, dim, far)).is_at_most(m(Op::Mul, eps_sq, ref_dist)),
        !distance(m, v, row_of(there, dim, far)).is_at_most(m(Op::Mul, eps_sq, ref_dist)),
    ensures
        full_scan_replicas(m, v, here, n, dim, p, ref_dist, eps_sq, max) == full_scan_replicas(
            m,
            v,
            there,
            n,
            dim,
            p,
            ref_dist,
            eps_sq,
            max,
        ),
{
    let threshold = m(Op::Mul, eps_sq, ref_dist);
    let d = distances_from(m, v, here, dim);
    let e = distances_from(m, v, there, dim);
    let a = candidates(d, n, p, threshold);
    let b = candidates(e, n, p, threshold);
    lemma_candidates(d, n, p, threshold);
    lemma_candidates(e, n, p, threshold);
    assert forall|x: Entry| #[trigger] a.contains(x) <==> b.contains(x) by {
        if x.1 < n && x.1 != far {
            assert(row_of(here, dim, x.1 as int) == row_of(there, dim, x.1 as int));
        }
    }
    lemma_same_entries_same_list(a, b);
    let blocks = relative_neighborhood(m, here, dim);
    let others = relative_neighborhood(m, there, dim);
    assert forall|x: Entry, y: Entry| #[trigger] blocks(x, y) != others(x, y) implies !a.contains(x)
        || !a.contains(y) by {
        if a.contains(x) && a.contains(y) {
            assert(x.1 != far && y.1 != far);
            assert(row_of(here, dim, x.1 as int) == row_of(there, dim, x.1 as int));
            assert(row_of(here, dim, y.1 as int) == row_of(there, dim, y.1 as int));
        }
    }
    lemma_kept_by_candidates(blocks, others, a, max);
}

/// A further centroid beyond the threshold does not show in what the full scan
/// finds.
pub proof fn law_further_centroid_does_not_show(
    m: Results,
    v: Seq<Single>,
    centroids: Seq<Single>,
    n: int,
    dim: int,
    p: int,
    ref_dist: Single,
    eps_sq: Single,
    max: int,
)
    requires
        0 <= n < MAX_CENTROIDS,
        0 <= p,
        0 <= max,
        !distance(m, v, row_of(centroids, dim, n)).is_at_most(m(Op::Mul, eps_sq, ref_dist)),
    ensures
        full_scan_replicas(m, v, centroids, n + 1, dim, p, ref_dist, eps_sq, max)
            == full_scan_replicas(m, v, centroids, n, dim, p, ref_dist, eps_sq, max),
{
    let threshold = m(Op::Mul, eps_sq, ref_dist);
    let d = distances_from(m, v, centroids, dim);
    lemma_candidates(d, n, p, threshold);
    lemma_candidates(d, n + 1, p, threshold);
    lemma_same_entries_same_list(
        candidates(d, n + 1, p, threshold),
        candidates(d, n, p, threshold),
    );
}

/// A table that leaves no centroid out is symmetric, where the distance of two
/// centroids is: each of them is in the list of the other, at that distance, and
/// at no other.
pub proof fn law_untruncated_table_is_symmetric(
    m: Results,
    centroids: Seq<Single>,
    rows: int,
    dim: int,
    cap: int,
    p: int,
    c: int,
)
    requires
        0 <= p < rows <= MAX_CENTROIDS,
        0 <= c < rows,
        p != c,
        rows - 1 <= cap,
        squares_alike(m, row_of(centroids, dim, p), row_of(centroids, dim, c)),
    ensures
        neighbor_list(m, centroids, rows, dim, p, cap).contains(
            (distance(m, row_of(centroids, dim, p), row_of(centroids, dim, c)), c as u32),
        ),
        forall|d: Single|
            neighbor_list(m, centroids, rows, dim, p, cap).contains((d, c as u32))
                <==> #[trigger] neighbor_list(m, centroids, rows, dim, c, cap).contains(
                (d, p as u32),
            ),
{
    let a = neighbor_list(m, centroids, rows, dim, p, cap);
    let b = neighbor_list(m, centroids, rows, dim, c, cap);
    law_distance_is_symmetric(m, row_of(centroids, dim, p), row_of(centroids, dim, c));
    lemma_listed_distance(m, centroids, rows, dim, cap, p, c);
    lemma_listed_distance(m, centroids, rows, dim, cap, c, p);
    assert forall|d: Single|
        a.contains((d, c as u32)) <==> #[trigger] b.contains((d, p as u32)) by {
    }
}

/// A table that leaves no centroid out lists each other centroid at its distance,
/// and at no other.
proof fn lemma_listed_distance(
    m: Results,
    centroids: Seq<Single>,
    rows: int,
    dim: int,
    cap: int,
    p: int,
    c: int,
)
    requires
        0 <= p < rows <= MAX_CENTROIDS,
        0 <= c < rows,
        p != c,
        rows - 1 <= cap,
    ensures
        forall|d: Single| #[trigger]
            neighbor_list(m, centroids, rows, dim, p, cap).contains((d, c as u32)) <==> d
                == distance(m, row_of(centroids, dim, p), row_of(centroids, dim, c)),
{
    let list = neighbor_list(m, centroids, rows, dim, p, cap);
    let from = distances_from_row(m, centroids, dim, p);
    law_neighbor_list(from, rows, p, cap);
    assert(names(list, c));
    let k = choose|k: int| 0 <= k < list.len() && (#[trigger] list[k]).1 == c;
    assert(list[k] == entry(from, c));
    assert forall|d: Single| #[trigger] list.contains((d, c as u32)) implies d == from(c) by {
        let j = choose|j: int| 0 <= j < list.len() && list[j] == (d, c as u32);
        assert(list[j] == entry(from, list[j].1 as int));
    }
}

} // verus!
