//! What replicas are, said of the replicas themselves.
//!
//! Among the centroids that are eligible, the replicas of a vector are the ones
//! that this module's predicate singles out: there is only one such list.
use vstd::prelude::*;
use crate::arithmetic::{distance, row_of, Op, Results};
use crate::exactness::{law_neighbor_list, lemma_candidates, lemma_kept};
use crate::exactness::{lemma_left_out, lemma_listed_candidates, names, names_others_once};
use crate::neighbors::{distances_from, distances_from_row, entry, neighbor_list};
use crate::neighbors::{CentroidNeighbors, MAX_CENTROIDS};
use crate::arithmetic::{results, Arithmetic};
use crate::replicas::{candidates, full_scan_replicas, indices, kept_of, last_distance};
use crate::replicas::{listed_candidates, listed_replicas, relative_neighborhood};
use crate::single::{ascending, rank, Entry, Single};
use crate::single::law_entries_by_distance_and_index;

verus! {

/// The squared distance from a vector to centroid `c`.
pub open spec fn to_centroid(m: Results, v: Seq<Single>, centroids: Seq<Single>, dim: int, c: u32) -> Single {
    distance(m, v, row_of(centroids, dim, c as int))
}

/// Whether centroid `b` is nearer to centroid `c` than the vector is.
pub open spec fn stands_between(
    m: Results,
    v: Seq<Single>,
    centroids: Seq<Single>,
    dim: int,
    b: u32,
    c: u32,
) -> bool {
    distance(m, row_of(centroids, dim, c as int), row_of(centroids, dim, b as int)).is_below(
        distance(m, v, row_of(centroids, dim, c as int)),
    )
}

/// Whether a vector comes by centroid `b` before centroid `c`: it is nearer, or as
/// near and has the lower index.
pub open spec fn comes_before(
    m: Results,
    v: Seq<Single>,
    centroids: Seq<Single>,
    dim: int,
    b: u32,
    c: u32,
) -> bool {
    let x = distance(m, v, row_of(centroids, dim, b as int));
    let y = distance(m, v, row_of(centroids, dim, c as int));
    x.order_key() < y.order_key() || (x == y && b < c)
}

/// Whether `found` are the replicas of a vector among the eligible centroids:
///
/// - they are eligible, and no more than `max`;
/// - each is at most `threshold` away from the vector;
/// - they come in order, and none stands between the vector and a later one;
/// - an eligible centroid within the threshold that is not among them has one of
///   them, that comes before it, stand between the vector and it, or else there are
///   `max` of them and all come before it.
pub open spec fn are_the_replicas(
    m: Results,
    v: Seq<Single>,
    centroids: Seq<Single>,
    dim: int,
    eligible: spec_fn(u32) -> bool,
    threshold: Single,
    max: int,
    found: Seq<u32>,
) -> bool {
    &&& found.len() <= max
    &&& forall|k: int|
        0 <= k < found.len() ==> eligible(#[trigger] found[k]) && distance(
            m,
            v,
            row_of(centroids, dim, found[k] as int),
        ).is_at_most(threshold)
    &&& forall|j: int, k: int|
        0 <= j < k < found.len() ==> comes_before(
            m,
            v,
            centroids,
            dim,
            #[trigger] found[j],
            #[trigger] found[k],
        ) && !stands_between(m, v, centroids, dim, found[j], found[k])
    &&& forall|c: u32|
        eligible(c) && !found.contains(c) && distance(
            m,
            v,
            row_of(centroids, dim, c as int),
        ).is_at_most(threshold) ==> #[trigger] is_passed_by(m, v, centroids, dim, max, found, c)
}

/// Whether a centroid has reason not to be among the replicas found.
pub open spec fn is_passed_by(
    m: Results,
    v: Seq<Single>,
    centroids: Seq<Single>,
    dim: int,
    max: int,
    found: Seq<u32>,
    c: u32,
) -> bool {
    ||| exists|j: int|
        0 <= j < found.len() && comes_before(m, v, centroids, dim, #[trigger] found[j], c)
            && stands_between(m, v, centroids, dim, found[j], c)
    ||| found.len() == max && forall|j: int|
        0 <= j < found.len() ==> comes_before(m, v, centroids, dim, #[trigger] found[j], c)
}

/// Of two lists of replicas that agree up to `k`, the second cannot go on with a
/// later centroid than the first does, nor end where the first goes on.
proof fn lemma_no_earlier(
    m: Results,
    v: Seq<Single>,
    centroids: Seq<Single>,
    dim: int,
    eligible: spec_fn(u32) -> bool,
    threshold: Single,
    max: int,
    a: Seq<u32>,
    b: Seq<u32>,
    k: int,
)
    requires
        are_the_replicas(m, v, centroids, dim, eligible, threshold, max, a),
        are_the_replicas(m, v, centroids, dim, eligible, threshold, max, b),
        0 <= k < a.len(),
        k <= b.len(),
        forall|j: int| 0 <= j < k ==> #[trigger] a[j] == b[j],
    ensures
        k < b.len(),
        !comes_before(m, v, centroids, dim, a[k], b[k]),
{
    let c = a[k];
    if k == b.len() || comes_before(m, v, centroids, dim, c, b[k]) {
        assert(!b.contains(c)) by {
            if b.contains(c) {
                let j = choose|j: int| 0 <= j < b.len() && b[j] == c;
                if j < k {
                    assert(a[j] == b[j]);
                    assert(comes_before(m, v, centroids, dim, a[j], a[k]));
                } else if j > k {
                    assert(comes_before(m, v, centroids, dim, b[k], b[j]));
                }
            }
        }
        assert(eligible(a[k]));
        assert(is_passed_by(m, v, centroids, dim, max, b, c));
        if exists|j: int|
            0 <= j < b.len() && comes_before(m, v, centroids, dim, #[trigger] b[j], c)
                && stands_between(m, v, centroids, dim, b[j], c) {
            let j = choose|j: int|
                0 <= j < b.len() && comes_before(m, v, centroids, dim, #[trigger] b[j], c)
                    && stands_between(m, v, centroids, dim, b[j], c);
            if j < k {
                assert(a[j] == b[j]);
                assert(!stands_between(m, v, centroids, dim, a[j], a[k]));
            } else if j > k {
                assert(comes_before(m, v, centroids, dim, b[k], b[j]));
            }
        } else if k < b.len() {
            assert(comes_before(m, v, centroids, dim, b[k], c));
        }
    }
}

/// There is only one list of replicas.
pub proof fn law_replicas_are_unique(
    m: Results,
    v: Seq<Single>,
    centroids: Seq<Single>,
    dim: int,
    eligible: spec_fn(u32) -> bool,
    threshold: Single,
    max: int,
    a: Seq<u32>,
    b: Seq<u32>,
)
    requires
        are_the_replicas(m, v, centroids, dim, eligible, threshold, max, a),
        are_the_replicas(m, v, centroids, dim, eligible, threshold, max, b),
    ensures
        a == b,
{
    lemma_agree_up_to(m, v, centroids, dim, eligible, threshold, max, a, b, a.len() as int);
    if a.len() < b.len() {
        lemma_no_earlier(
            m,
            v,
            centroids,
            dim,
            eligible,
            threshold,
            max,
            b,
            a,
            a.len() as int,
        );
    }
    assert(a =~= b);
}

proof fn lemma_agree_up_to(
    m: Results,
    v: Seq<Single>,
    centroids: Seq<Single>,
    dim: int,
    eligible: spec_fn(u32) -> bool,
    threshold: Single,
    max: int,
    a: Seq<u32>,
    b: Seq<u32>,
    k: int,
)
    requires
        are_the_replicas(m, v, centroids, dim, eligible, threshold, max, a),
        are_the_replicas(m, v, centroids, dim, eligible, threshold, max, b),
        0 <= k <= a.len(),
    ensures
        k <= b.len(),
        forall|j: int| 0 <= j < k ==> #[trigger] a[j] == b[j],
    decreases k,
{
    if k > 0 {
        lemma_agree_up_to(m, v, centroids, dim, eligible, threshold, max, a, b, k - 1);
        lemma_no_earlier(m, v, centroids, dim, eligible, threshold, max, a, b, k - 1);
        lemma_no_earlier(m, v, centroids, dim, eligible, threshold, max, b, a, k - 1);
        let x = distance(m, v, row_of(centroids, dim, a[k - 1] as int));
        let y = distance(m, v, row_of(centroids, dim, b[k - 1] as int));
        crate::single::lemma_patterns_are_ordered(x, y);
    }
}

/// What a greedy pass over sorted candidates keeps, said of the centroids.
proof fn lemma_kept_are_the_replicas(
    m: Results,
    v: Seq<Single>,
    centroids: Seq<Single>,
    dim: int,
    eligible: spec_fn(u32) -> bool,
    threshold: Single,
    max: int,
    cands: Seq<Entry>,
)
    requires
        0 <= max,
        ascending(cands),
        cands.no_duplicates(),
        forall|e: Entry| #[trigger]
            cands.contains(e) <==> eligible(e.1) && e.0 == to_centroid(m, v, centroids, dim, e.1)
                && e.0.is_at_most(threshold),
    ensures
        are_the_replicas(
            m,
            v,
            centroids,
            dim,
            eligible,
            threshold,
            max,
            indices(kept_of(relative_neighborhood(m, centroids, dim), cands, max)),
        ),
{
    let blocks = relative_neighborhood(m, centroids, dim);
    let kept = kept_of(blocks, cands, max);
    let found = indices(kept);
    lemma_kept(blocks, cands, max);
    assert forall|k: int| 0 <= k < found.len() implies eligible(#[trigger] found[k]) && distance(
        m,
        v,
        row_of(centroids, dim, found[k] as int),
    ).is_at_most(threshold) && kept[k].0 == to_centroid(m, v, centroids, dim, found[k]) by {
        assert(cands.contains(kept[k]));
    }
    assert forall|j: int, k: int| 0 <= j < k < found.len() implies comes_before(
        m,
        v,
        centroids,
        dim,
        #[trigger] found[j],
        #[trigger] found[k],
    ) && !stands_between(m, v, centroids, dim, found[j], found[k]) by {
        assert(kept[j] != kept[k]);
        assert(rank(kept[j]) <= rank(kept[k]));
        assert(!blocks(kept[j], kept[k]));
        law_entries_by_distance_and_index(kept[j], kept[k]);
        law_entries_by_distance_and_index(kept[k], kept[j]);
        if rank(kept[j]) == rank(kept[k]) {
            crate::single::lemma_rank_injective(kept[j], kept[k]);
        }
    }
    assert forall|c: u32|
        eligible(c) && !found.contains(c) && distance(
            m,
            v,
            row_of(centroids, dim, c as int),
        ).is_at_most(threshold) implies #[trigger] is_passed_by(
        m,
        v,
        centroids,
        dim,
        max,
        found,
        c,
    ) by {
        let e: Entry = (to_centroid(m, v, centroids, dim, c), c);
        assert(cands.contains(e));
        if kept.contains(e) {
            let k = choose|k: int| 0 <= k < kept.len() && kept[k] == e;
            assert(found[k] == c);
        }
        lemma_left_out(blocks, cands, max, e);
        if exists|j: int|
            0 <= j < kept.len() && rank(#[trigger] kept[j]) < rank(e) && blocks(kept[j], e) {
            let j = choose|j: int|
                0 <= j < kept.len() && rank(#[trigger] kept[j]) < rank(e) && blocks(kept[j], e);
            law_entries_by_distance_and_index(kept[j], e);
            assert(found[j] == kept[j].1);
            assert(comes_before(m, v, centroids, dim, found[j], c));
            assert(stands_between(m, v, centroids, dim, found[j], c));
        } else {
            assert forall|j: int| 0 <= j < found.len() implies comes_before(
                m,
                v,
                centroids,
                dim,
                #[trigger] found[j],
                c,
            ) by {
                assert(rank(kept[j]) < rank(e));
                law_entries_by_distance_and_index(kept[j], e);
            }
        }
    }
}

/// The full scan finds the replicas of the vector among all centroids but the
/// primary.
pub proof fn law_full_scan_finds_the_replicas(
    m: Results,
    v: Seq<Single>,
    centroids: Seq<Single>,
    n: int,
    dim: int,
    p: int,
    ref_dist: Single,
    eps_sq: Single,
    max: int,
)
    requires
        0 <= n <= MAX_CENTROIDS,
        0 <= p,
        0 <= max,
    ensures
        are_the_replicas(
            m,
            v,
            centroids,
            dim,
            |c: u32| c < n && c != p,
            m(Op::Mul, eps_sq, ref_dist),
            max,
            indices(full_scan_replicas(m, v, centroids, n, dim, p, ref_dist, eps_sq, max)),
        ),
{
    let d = distances_from(m, v, centroids, dim);
    let threshold = m(Op::Mul, eps_sq, ref_dist);
    lemma_candidates(d, n, p, threshold);
    lemma_kept_are_the_replicas(
        m,
        v,
        centroids,
        dim,
        |c: u32| c < n && c != p,
        threshold,
        max,
        candidates(d, n, p, threshold),
    );
}

/// The scan of a list finds the replicas of the vector among the centroids of the
/// list.
pub proof fn law_listed_scan_finds_the_replicas(
    m: Results,
    list: Seq<Entry>,
    v: Seq<Single>,
    centroids: Seq<Single>,
    n: int,
    dim: int,
    p: int,
    ref_dist: Single,
    eps_sq: Single,
    max: int,
)
    requires
        0 <= n <= MAX_CENTROIDS,
        0 <= max,
        names_others_once(list, n, p),
    ensures
        are_the_replicas(
            m,
            v,
            centroids,
            dim,
            |c: u32| exists|k: int| 0 <= k < list.len() && (#[trigger] list[k]).1 == c,
            m(Op::Mul, eps_sq, ref_dist),
            max,
            indices(listed_replicas(m, list, v, centroids, dim, ref_dist, eps_sq, max)),
        ),
{
    let d = distances_from(m, v, centroids, dim);
    let threshold = m(Op::Mul, eps_sq, ref_dist);
    lemma_listed_candidates(list, d, n, p, threshold);
    lemma_kept_are_the_replicas(
        m,
        v,
        centroids,
        dim,
        |c: u32| exists|k: int| 0 <= k < list.len() && (#[trigger] list[k]).1 == c,
        threshold,
        max,
        listed_candidates(list, d, threshold),
    );
}

/// How a greedy pass goes on: given one candidate more, it keeps that too exactly
/// if its cap is not filled and no kept centroid is nearer to the candidate than the
/// candidate's distance says. Without candidates it keeps nothing.
pub proof fn law_dedup_goes_on(
    m: Results,
    centroids: Seq<Single>,
    dim: int,
    cands: Seq<Entry>,
    e: Entry,
    max: int,
)
    ensures
        ({
            let kept = kept_of(relative_neighborhood(m, centroids, dim), cands, max);
            let next = kept_of(relative_neighborhood(m, centroids, dim), cands.push(e), max);
            next == if kept.len() < max && (forall|j: int|
                0 <= j < kept.len() ==> !distance(
                    m,
                    row_of(centroids, dim, e.1 as int),
                    row_of(centroids, dim, (#[trigger] kept[j]).1 as int),
                ).is_below(e.0)) {
                kept.push(e)
            } else {
                kept
            }
        }),
        cands.len() == 0 ==> kept_of(relative_neighborhood(m, centroids, dim), cands, max).len()
            == 0,
{
    let blocks = relative_neighborhood(m, centroids, dim);
    let kept = kept_of(blocks, cands, max);
    assert(cands.push(e).drop_last() =~= cands);
    assert forall|j: int| 0 <= j < kept.len() implies blocks(#[trigger] kept[j], e) == distance(
        m,
        row_of(centroids, dim, e.1 as int),
        row_of(centroids, dim, kept[j].1 as int),
    ).is_below(e.0) by {
    }
}

/// The distance that is told of a list of kept entries, in order, is that of one of
/// them, and no other one is farther. The centroids that are told are theirs.
pub proof fn law_farthest_kept(kept: Seq<Entry>)
    requires
        ascending(kept),
    ensures
        indices(kept).len() == kept.len(),
        forall|k: int| 0 <= k < kept.len() ==> #[trigger] indices(kept)[k] == kept[k].1,
        forall|k: int|
            0 <= k < kept.len() ==> (#[trigger] kept[k]).0.order_key() <= last_distance(
                kept,
            ).order_key(),
        kept.len() > 0 ==> exists|k: int|
            0 <= k < kept.len() && (#[trigger] kept[k]).0 == last_distance(kept),
        kept.len() == 0 ==> last_distance(kept).bits == 0,
{
    assert forall|k: int| 0 <= k < kept.len() implies (#[trigger] kept[k]).0.order_key()
        <= last_distance(kept).order_key() by {
        let last = kept[kept.len() - 1];
        law_entries_by_distance_and_index(last, kept[k]);
        if k < kept.len() - 1 {
            assert(rank(kept[k]) <= rank(last));
        }
    }
    if kept.len() > 0 {
        assert(kept[kept.len() - 1].0 == last_distance(kept));
    }
}

/// What a table of centroids holds: for each centroid its nearest others, `cap` of
/// them or all that there are, each with the distance between the two, in order, and
/// ahead of all that are left out. It is marked as truncated exactly if it leaves
/// any out.
pub proof fn law_table_of_centroids<A: Arithmetic>(
    table: CentroidNeighbors<A>,
    centroids: Seq<Single>,
    rows: int,
    dim: int,
    cap: int,
    p: int,
)
    requires
        table.is_table_of(centroids, rows, dim, cap),
        0 <= p < rows,
    ensures
        table.lists().len() == rows,
        table.row_count() == rows,
        table.dimension() == dim,
        table.values() == centroids,
        ({
            let m = results::<A>();
            let list = table.lists()[p];
            let from = row_of(centroids, dim, p);
            &&& list.len() == if cap < rows - 1 {
                cap
            } else {
                rows - 1
            }
            &&& forall|k: int|
                0 <= k < list.len() ==> (#[trigger] list[k]).1 < rows && list[k].1 != p && list[k].0
                    == distance(m, from, row_of(centroids, dim, list[k].1 as int))
            &&& forall|j: int, k: int|
                0 <= j < k < list.len() ==> comes_before(
                    m,
                    from,
                    centroids,
                    dim,
                    (#[trigger] list[j]).1,
                    (#[trigger] list[k]).1,
                )
            &&& forall|c: u32, k: int|
                0 <= k < list.len() && c < rows && c != p && (forall|j: int|
                    0 <= j < list.len() ==> (#[trigger] list[j]).1 != c) ==> #[trigger] comes_before(
                    m,
                    from,
                    centroids,
                    dim,
                    list[k].1,
                    c,
                )
            &&& table.is_truncated() <==> exists|c: u32|
                c < rows && c != p && !#[trigger] names(list, c as int)
        }),
{
    let m = results::<A>();
    let list = table.lists()[p];
    let from = row_of(centroids, dim, p);
    let d = distances_from_row(m, centroids, dim, p);
    assert(list == neighbor_list(m, centroids, rows, dim, p, cap));
    law_neighbor_list(d, rows, p, cap);
    assert forall|j: int, k: int| 0 <= j < k < list.len() implies comes_before(
        m,
        from,
        centroids,
        dim,
        (#[trigger] list[j]).1,
        (#[trigger] list[k]).1,
    ) by {
        law_entries_by_distance_and_index(list[j], list[k]);
        assert(list[j] == entry(d, list[j].1 as int) && list[k] == entry(d, list[k].1 as int));
    }
    assert forall|c: u32, k: int|
        0 <= k < list.len() && c < rows && c != p && (forall|j: int|
            0 <= j < list.len() ==> (#[trigger] list[j]).1 != c) implies #[trigger] comes_before(
        m,
        from,
        centroids,
        dim,
        list[k].1,
        c,
    ) by {
        assert(!names(list, c as int));
        assert(rank(list[k]) < rank(entry(d, c as int)));
        law_entries_by_distance_and_index(list[k], entry(d, c as int));
        assert(list[k] == entry(d, list[k].1 as int));
    }
    if table.is_truncated() {
        lemma_some_left_out(list, rows, p);
    }
}

/// A list of fewer centroids than there are others leaves one out.
pub proof fn lemma_some_left_out(list: Seq<Entry>, rows: int, p: int)
    requires
        0 <= p < rows <= MAX_CENTROIDS,
        list.len() < rows - 1,
    ensures
        exists|c: u32| c < rows && c != p && !#[trigger] names(list, c as int),
{
    if forall|c: u32| c < rows && c != p ==> #[trigger] names(list, c as int) {
        let named = Seq::new(list.len(), |k: int| list[k].1 as int).to_set();
        let all = vstd::set_lib::set_int_range(0, rows).remove(p);
        vstd::set_lib::lemma_int_range(0, rows);
        Seq::new(list.len(), |k: int| list[k].1 as int).lemma_cardinality_of_set();
        assert(all.subset_of(named)) by {
            assert forall|c: int| #[trigger] all.contains(c) implies named.contains(c) by {
                assert(names(list, (c as u32) as int));
                let k = choose|k: int| 0 <= k < list.len() && (#[trigger] list[k]).1 == c;
                assert(Seq::new(list.len(), |k: int| list[k].1 as int)[k] == c);
            }
        }
        vstd::set_lib::lemma_len_subset(all, named);
    }
}

} // verus!
