//! What the functions give that the clusterer is made of, said of their calls.
use vstd::prelude::*;
use std::sync::Arc;
use crate::arithmetic::{apply, distance, results, row, row_of, squared_distance, Arithmetic, Op};
use crate::arithmetic::Results;
use crate::arithmetic::{law_common_coordinates_count, law_every_coordinate_counts, law_rows};
use crate::cache::{is_left_with, neighbor_cap, reuse, HeldSlot, KeptTable};
use crate::clusterer::{are_assignments, are_assignments_by, are_primaries, may_go_by};
use crate::clusterer::{replicas_of, ClustererSettings, SuperKMeansIvfClusterer};
use crate::errors::{decimal, law_decimal_reads_back, law_errors, number_of};
use crate::errors::{ClusterError, ErrorKind, KMeansError};
use crate::exactness::{law_neighbor_list, lemma_kept, lemma_listed_candidates, names};
use crate::exactness::names_others_once;
use crate::fingerprint::{centroid_fingerprint, law_changed_shape_changes_fingerprint};
use crate::fingerprint::{law_changed_value_changes_fingerprint, law_shape_stands_before_the_values};
use crate::guarantees::law_settings;
use crate::heap::{sort_entries, MaxHeap};
use crate::neighbors::{distances_from, distances_from_row, entry, nearest_neighbors};
use crate::neighbors::{neighbor_list, CentroidNeighbors, MAX_CENTROIDS};
use crate::replicas::{indices, is_certified, kept_of, listed_candidates, listed_replicas};
use crate::replicas::{relative_neighborhood, replicas_full_scan, replicas_pruned, rng_dedup};
use crate::selection::{are_the_replicas, comes_before, law_dedup_goes_on};
use crate::selection::{law_full_scan_finds_the_replicas, law_listed_scan_finds_the_replicas};
use crate::selection::{law_replicas_are_unique, law_table_of_centroids, lemma_some_left_out};
use crate::single::{ascending, law_entries_by_distance_and_index, law_total_order_by_pattern};
use crate::single::{law_values_by_pattern, lemma_nearest_first, nearer, rank, Entry, Single};
use crate::types::{Assignment, IvfMatrix, IvfVectors, Metric, VectorOptions};

verus! {

/// How two numbers compare, by their patterns. Nothing compares with what is not a
/// number, and the two zeros are equal.
pub proof fn law_comparing(a: Single, b: Single, below: bool, at_most: bool)
    requires
        call_ensures(Single::below, (a, b), below),
        call_ensures(Single::at_most, (a, b), at_most),
    ensures
        ({
            let x = a.bits % 0x8000_0000;
            let y = b.bits % 0x8000_0000;
            let numbers = x <= 0x7f80_0000 && y <= 0x7f80_0000;
            let zeros = x == 0 && y == 0;
            &&& below <==> numbers && !zeros && if a.bits < 0x8000_0000 {
                a.bits < b.bits < 0x8000_0000
            } else {
                b.bits < a.bits
            }
            &&& at_most <==> below || (numbers && (zeros || a.bits == b.bits))
        }),
{
    law_values_by_pattern(a, b);
    law_values_by_pattern(b, a);
}

/// The total order of patterns: those with the sign come first, in descending order
/// of the pattern, then those without, in ascending order.
pub proof fn law_total_keys(a: Single, b: Single, of_a: i64, of_b: i64)
    requires
        call_ensures(Single::total_key, (a,), of_a),
        call_ensures(Single::total_key, (b,), of_b),
    ensures
        of_a == of_b <==> a.bits == b.bits,
        of_a < of_b <==> if a.bits < 0x8000_0000 {
            a.bits < b.bits < 0x8000_0000
        } else {
            b.bits < a.bits
        },
{
    law_total_order_by_pattern(a, b);
}

/// Of two entries the one at the smaller distance is nearer, and at the same
/// distance the one with the lower index.
pub proof fn law_nearer(a: Entry, b: Entry, of_a: i64, of_b: i64, r: bool)
    requires
        call_ensures(nearer, (a, b), r),
        call_ensures(Single::total_key, (a.0,), of_a),
        call_ensures(Single::total_key, (b.0,), of_b),
    ensures
        r <==> of_a < of_b || (of_a == of_b && a.1 < b.1),
{
    law_entries_by_distance_and_index(a, b);
    law_total_order_by_pattern(a.0, b.0);
}

/// Performing an operation gives what the arithmetic gives for it, with the operands in
/// their order.
pub proof fn law_apply<A: Arithmetic>(op: Op, a: Single, b: Single, r: Single)
    requires
        call_ensures(apply::<A>, (op, a, b), r),
    ensures
        r == A::result(op, a, b),
{
}

/// Every coordinate counts: with one coordinate more, the squared distance grows by
/// the square of the difference there. Without coordinates it is minus zero.
pub proof fn law_squared_distance_grows<A: Arithmetic>(
    a: &[Single],
    b: &[Single],
    longer_a: &[Single],
    longer_b: &[Single],
    r: Single,
    longer_r: Single,
)
    requires
        call_ensures(squared_distance::<A>, (a, b), r),
        call_ensures(squared_distance::<A>, (longer_a, longer_b), longer_r),
        a@.len() == b@.len(),
        longer_a@.len() == a@.len() + 1,
        longer_b@.len() == b@.len() + 1,
        forall|i: int| 0 <= i < a@.len() ==> #[trigger] longer_a@[i] == a@[i],
        forall|i: int| 0 <= i < b@.len() ==> #[trigger] longer_b@[i] == b@[i],
    ensures
        ({
            let difference = A::result(Op::Sub, longer_a@.last(), longer_b@.last());
            longer_r == A::result(Op::Add, r, A::result(Op::Mul, difference, difference))
        }),
        a@.len() == 0 ==> r.bits == 0x8000_0000,
{
    law_every_coordinate_counts(results::<A>(), a@, b@, longer_a@.last(), longer_b@.last());
    assert(longer_a@ =~= a@.push(longer_a@.last()));
    assert(longer_b@ =~= b@.push(longer_b@.last()));
}

/// Coordinates that only one of two vectors has do not count, whichever it is.
pub proof fn law_squared_distance_of_common_coordinates<A: Arithmetic>(
    a: &[Single],
    b: &[Single],
    cut_a: &[Single],
    cut_b: &[Single],
    r: Single,
    cut_r: Single,
)
    requires
        call_ensures(squared_distance::<A>, (a, b), r),
        call_ensures(squared_distance::<A>, (cut_a, cut_b), cut_r),
        cut_a@.len() == cut_b@.len(),
        cut_a@.len() == a@.len() || cut_b@.len() == b@.len(),
        cut_a@.len() <= a@.len(),
        cut_b@.len() <= b@.len(),
        forall|i: int| 0 <= i < cut_a@.len() ==> #[trigger] cut_a@[i] == a@[i],
        forall|i: int| 0 <= i < cut_b@.len() ==> #[trigger] cut_b@[i] == b@[i],
    ensures
        r == cut_r,
{
    law_common_coordinates_count(results::<A>(), a@, b@);
    if a@.len() <= b@.len() {
        assert(cut_a@ =~= a@);
        assert(cut_b@ =~= b@.take(a@.len() as int));
    } else {
        assert(cut_b@ =~= b@);
        assert(cut_a@ =~= a@.take(b@.len() as int));
    }
}

/// A row has as many values as a matrix has columns, those that stand in their
/// places behind the rows before it.
pub proof fn law_row(values: &[Single], dim: usize, i: usize, r: &[Single])
    requires
        call_ensures(row, (values, dim, i), r),
        i * dim + dim <= values@.len(),
    ensures
        r@.len() == dim,
        forall|j: int| 0 <= j < dim ==> #[trigger] r@[j] == values@[i * dim + j],
{
    law_rows(values@, dim as int, i as int);
}

/// Sorting keeps every entry as often as it is there, and puts them in order.
pub proof fn law_sorting(entries: Vec<Entry>, sorted: Vec<Entry>)
    requires
        call_ensures(sort_entries, (entries,), sorted),
    ensures
        sorted@.to_multiset() == entries@.to_multiset(),
        forall|i: int, j: int|
            0 <= i < j < sorted@.len() ==> (#[trigger] sorted@[i]).0.order_key() < (
            #[trigger] sorted@[j]).0.order_key() || (sorted@[i].0 == sorted@[j].0 && sorted@[i].1
                <= sorted@[j].1),
{
    lemma_nearest_first(entries@);
    lemma_in_order(sorted@);
}

proof fn lemma_in_order(s: Seq<Entry>)
    requires
        ascending(s),
    ensures
        forall|i: int, j: int|
            0 <= i < j < s.len() ==> (#[trigger] s[i]).0.order_key() < (
            #[trigger] s[j]).0.order_key() || (s[i].0 == s[j].0 && s[i].1 <= s[j].1),
{
    assert forall|i: int, j: int| 0 <= i < j < s.len() implies (#[trigger] s[i]).0.order_key() < (
    #[trigger] s[j]).0.order_key() || (s[i].0 == s[j].0 && s[i].1 <= s[j].1) by {
        assert(rank(s[i]) <= rank(s[j]));
        law_entries_by_distance_and_index(s[j], s[i]);
        law_total_order_by_pattern(s[i].0, s[j].0);
    }
}

/// What a heap gives as a sorted list: everything in it, in order.
pub proof fn law_heap_sorts(heap: MaxHeap, sorted: Vec<Entry>)
    requires
        call_ensures(MaxHeap::into_sorted_vec, (heap,), sorted),
    ensures
        sorted@.to_multiset() == heap@,
        forall|i: int, j: int|
            0 <= i < j < sorted@.len() ==> (#[trigger] sorted@[i]).0.order_key() < (
            #[trigger] sorted@[j]).0.order_key() || (sorted@[i].0 == sorted@[j].0 && sorted@[i].1
                <= sorted@[j].1),
{
    lemma_in_order(sorted@);
}

/// The top of a heap is in it, and nothing in it is farther. There is a top unless
/// the heap is empty, as a new one is.
pub proof fn law_heap_top(heap: MaxHeap, len: usize, top: Option<Entry>, other: Entry, farther: bool)
    requires
        call_ensures(MaxHeap::len, (&heap,), len),
        call_ensures(MaxHeap::peek, (&heap,), top),
        top is Some ==> call_ensures(nearer, (top->0, other), farther),
    ensures
        len == heap@.len(),
        top is Some <==> len > 0,
        top matches Some(t) ==> heap@.contains(t),
        top is Some && heap@.contains(other) ==> !farther,
        call_ensures(MaxHeap::new, (), heap) ==> len == 0,
{
}

/// The neighbors of a centroid: others, as many as the cap says or all that there
/// are, each with the distance between the two, in order, and ahead of all others
/// that are left out.
pub proof fn law_nearest_neighbors<A: Arithmetic>(
    centroids: &[Single],
    rows: usize,
    dim: usize,
    p: usize,
    cap: usize,
    list: Vec<Entry>,
)
    requires
        call_ensures(nearest_neighbors::<A>, (centroids, rows, dim, p, cap), list),
        p < rows <= MAX_CENTROIDS,
    ensures
        ({
            let m = results::<A>();
            let d = dim as int;
            let from = row_of(centroids@, d, p as int);
            &&& list@.len() == cap && cap <= rows - 1 || list@.len() == rows - 1 && rows - 1 <= cap
            &&& forall|k: int|
                0 <= k < list@.len() ==> (#[trigger] list@[k]).1 < rows && list@[k].1 != p
                    && list@[k].0 == distance(m, from, row_of(centroids@, d, list@[k].1 as int))
            &&& forall|j: int, k: int|
                0 <= j < k < list@.len() ==> comes_before(
                    m,
                    from,
                    centroids@,
                    d,
                    (#[trigger] list@[j]).1,
                    (#[trigger] list@[k]).1,
                )
            &&& forall|c: u32, k: int|
                0 <= k < list@.len() && c < rows && c != p && !names(list@, c as int)
                    ==> #[trigger] comes_before(m, from, centroids@, d, list@[k].1, c)
        }),
{
    let m = results::<A>();
    let from = row_of(centroids@, dim as int, p as int);
    let d = distances_from_row(m, centroids@, dim as int, p as int);
    law_neighbor_list(d, rows as int, p as int, cap as int);
    assert forall|j: int, k: int| 0 <= j < k < list@.len() implies comes_before(
        m,
        from,
        centroids@,
        dim as int,
        (#[trigger] list@[j]).1,
        (#[trigger] list@[k]).1,
    ) by {
        law_entries_by_distance_and_index(list@[j], list@[k]);
        assert(list@[j] == entry(d, list@[j].1 as int) && list@[k] == entry(
            d,
            list@[k].1 as int,
        ));
    }
    assert forall|c: u32, k: int|
        0 <= k < list@.len() && c < rows && c != p && !names(
            list@,
            c as int,
        ) implies #[trigger] comes_before(m, from, centroids@, dim as int, list@[k].1, c) by {
        assert(rank(list@[k]) < rank(entry(d, c as int)));
        law_entries_by_distance_and_index(list@[k], entry(d, c as int));
        assert(list@[k] == entry(d, list@[k].1 as int));
    }
}

/// What a table tells after it is built: the fingerprint that it was given, the
/// number of its centroids, for each centroid the list that its neighbors are, and
/// that it is truncated exactly if a list leaves another centroid out. It is of the
/// centroids that it was built from, and of no others.
pub proof fn law_built_table<A: Arithmetic>(
    centroids: &[Single],
    rows: usize,
    dim: usize,
    cap: usize,
    fingerprint: u64,
    table: CentroidNeighbors<A>,
    told_rows: usize,
    told_fingerprint: u64,
    truncated: bool,
    p: usize,
    listed: &Vec<Entry>,
    nearest: Vec<Entry>,
    others: &[Single],
    other_rows: usize,
    other_dim: usize,
    is_of: bool,
)
    requires
        call_ensures(
            CentroidNeighbors::<A>::build,
            (centroids, rows, dim, cap, fingerprint),
            table,
        ),
        call_ensures(CentroidNeighbors::<A>::rows, (&table,), told_rows),
        call_ensures(CentroidNeighbors::<A>::fingerprint, (&table,), told_fingerprint),
        call_ensures(CentroidNeighbors::<A>::truncated, (&table,), truncated),
        p < rows ==> call_ensures(CentroidNeighbors::<A>::neighbors, (&table, p), listed),
        p < rows ==> call_ensures(
            nearest_neighbors::<A>,
            (centroids, rows, dim, p, cap),
            nearest,
        ),
        call_ensures(
            CentroidNeighbors::<A>::is_of,
            (&table, others, other_rows, other_dim),
            is_of,
        ),
        rows <= MAX_CENTROIDS,
    ensures
        told_rows == rows,
        told_fingerprint == fingerprint,
        p < rows ==> listed@ == nearest@,
        p < rows ==> (truncated <==> exists|c: u32|
            c < rows && c != p && !#[trigger] names(listed@, c as int)),
        rows == 0 ==> !truncated,
        is_of <==> others@ == centroids@ && other_rows == rows && other_dim == dim,
{
    if p < rows {
        law_table_of_centroids(
            table,
            centroids@,
            rows as int,
            dim as int,
            cap as int,
            p as int,
        );
        assert(table.lists()[p as int] == neighbor_list(
            results::<A>(),
            centroids@,
            rows as int,
            dim as int,
            p as int,
            cap as int,
        ));
    }
}

/// A table from lists that were found by others is the same as one that is built.
pub proof fn law_table_from_lists<A: Arithmetic>(
    centroids: &[Single],
    rows: usize,
    dim: usize,
    cap: usize,
    fingerprint: u64,
    lists: Vec<Vec<Entry>>,
    taken: CentroidNeighbors<A>,
    built: CentroidNeighbors<A>,
)
    requires
        call_ensures(
            CentroidNeighbors::<A>::from_lists,
            (centroids, rows, dim, cap, fingerprint, lists),
            taken,
        ),
        call_ensures(
            CentroidNeighbors::<A>::build,
            (centroids, rows, dim, cap, fingerprint),
            built,
        ),
    ensures
        taken.lists() == built.lists(),
        taken.values() == built.values(),
        taken.row_count() == built.row_count(),
        taken.dimension() == built.dimension(),
        taken.is_truncated() == built.is_truncated(),
        taken.key() == built.key(),
{
    assert(taken.lists() =~= built.lists());
}

/// How dedup goes on: given one candidate more, it keeps that too exactly if the cap
/// is not filled and no kept centroid is nearer to the candidate than the candidate's
/// own distance. It tells the distance of the last one kept. Without candidates it
/// keeps nothing, and tells zero.
pub proof fn law_dedup<A: Arithmetic>(
    cands: &Vec<Entry>,
    more: &Vec<Entry>,
    centroids: &[Single],
    dim: usize,
    max: usize,
    kept: (Vec<u32>, Single),
    next: (Vec<u32>, Single),
)
    requires
        call_ensures(rng_dedup::<A>, (cands, centroids, dim, max), kept),
        call_ensures(rng_dedup::<A>, (more, centroids, dim, max), next),
        more@.len() == cands@.len() + 1,
        forall|i: int| 0 <= i < cands@.len() ==> #[trigger] more@[i] == cands@[i],
    ensures
        ({
            let e = more@.last();
            let is_kept = kept.0@.len() < max && (forall|j: int|
                0 <= j < kept.0@.len() ==> !distance(
                    results::<A>(),
                    row_of(centroids@, dim as int, e.1 as int),
                    row_of(centroids@, dim as int, (#[trigger] kept.0@[j]) as int),
                ).is_below(e.0));
            &&& is_kept ==> next.0@ == kept.0@.push(e.1) && next.1 == e.0
            &&& !is_kept ==> next.0@ == kept.0@ && next.1 == kept.1
        }),
        cands@.len() == 0 ==> kept.0@.len() == 0 && kept.1.bits == 0,
{
    let m = results::<A>();
    let e = more@.last();
    let d = dim as int;
    let before = kept_of(relative_neighborhood(m, centroids@, d), cands@, max as int);
    let after = kept_of(relative_neighborhood(m, centroids@, d), more@, max as int);
    law_dedup_goes_on(m, centroids@, d, cands@, e, max as int);
    assert(more@ =~= cands@.push(e));
    assert(indices(before).push(e.1) =~= indices(before.push(e)));
    if forall|j: int|
        0 <= j < kept.0@.len() ==> !distance(
            m,
            row_of(centroids@, d, e.1 as int),
            row_of(centroids@, d, (#[trigger] kept.0@[j]) as int),
        ).is_below(e.0) {
        assert forall|j: int| 0 <= j < before.len() implies !distance(
            m,
            row_of(centroids@, d, e.1 as int),
            row_of(centroids@, d, (#[trigger] before[j]).1 as int),
        ).is_below(e.0) by {
            assert(kept.0@[j] == before[j].1);
        }
    } else {
        let j = choose|j: int|
            0 <= j < kept.0@.len() && distance(
                m,
                row_of(centroids@, d, e.1 as int),
                row_of(centroids@, d, (#[trigger] kept.0@[j]) as int),
            ).is_below(e.0);
        assert(kept.0@[j] == before[j].1);
    }
}

/// The full scan gives the replicas of the vector among all centroids but the
/// primary, within the squared closure factor times the distance of the primary.
pub proof fn law_full_scan<A: Arithmetic>(
    v: &[Single],
    centroids: &[Single],
    rows: usize,
    dim: usize,
    p: usize,
    ref_dist: Single,
    eps_sq: Single,
    max: usize,
    replicas: Vec<u32>,
)
    requires
        call_ensures(
            replicas_full_scan::<A>,
            (v, centroids, rows, dim, p, ref_dist, eps_sq, max),
            replicas,
        ),
        rows <= MAX_CENTROIDS,
    ensures
        are_the_replicas(
            results::<A>(),
            v@,
            centroids@,
            dim as int,
            |c: u32| c < rows && c != p,
            A::result(Op::Mul, eps_sq, ref_dist),
            max as int,
            replicas@,
        ),
{
    let n = rows as int;
    let q = p as int;
    law_full_scan_finds_the_replicas(
        results::<A>(),
        v@,
        centroids@,
        n,
        dim as int,
        q,
        ref_dist,
        eps_sq,
        max as int,
    );
    assert((|c: u32| c < n && c != q) =~= (|c: u32| c < rows && c != p));
}

/// Whether a scan of the list of the primary shows that no other centroid matters:
/// the list has all others, or else the distance of its last centroid from the
/// primary, less the vector's distance from the primary, is above the distance of the
/// farthest replica found if these fill the cap, and above the closure factor times
/// the vector's distance from the primary if they do not. Distances are the roots of
/// squared distances here.
pub open spec fn shows_coverage(
    m: Results,
    list: Seq<Entry>,
    v: Seq<Single>,
    centroids: Seq<Single>,
    rows: int,
    dim: int,
    p: int,
    ref_dist: Single,
    epsilon: Single,
    max: int,
    found: Seq<u32>,
) -> bool {
    let zero = Single { bits: 0 };
    let radius = if list.len() == 0 {
        zero
    } else {
        m(Op::Sqrt, list.last().0, list.last().0)
    };
    let farthest = if found.len() == 0 {
        zero
    } else {
        distance(m, v, row_of(centroids, dim, found.last() as int))
    };
    let to_primary = m(Op::Sqrt, ref_dist, ref_dist);
    let needed = if found.len() == max {
        m(Op::Sqrt, farthest, farthest)
    } else {
        m(Op::Mul, epsilon, to_primary)
    };
    ||| forall|c: u32| c < rows && c != p ==> #[trigger] names(list, c as int)
    ||| needed.is_below(m(Op::Sub, radius, to_primary))
}

/// Whether `found` are the replicas of a vector among the centroids of a list.
pub open spec fn are_replicas_in_list(
    m: Results,
    list: Seq<Entry>,
    v: Seq<Single>,
    centroids: Seq<Single>,
    dim: int,
    threshold: Single,
    max: int,
    found: Seq<u32>,
) -> bool {
    are_the_replicas(
        m,
        v,
        centroids,
        dim,
        |c: u32| names(list, c as int),
        threshold,
        max,
        found,
    )
}

/// The pruned scan gives the replicas of the vector among the centroids in the list
/// of the primary, exactly if that shows that no other centroid matters, and else
/// nothing.
pub proof fn law_pruned_scan<A: Arithmetic>(
    table: CentroidNeighbors<A>,
    rows: int,
    cap: int,
    v: &[Single],
    centroids: &[Single],
    dim: usize,
    p: usize,
    ref_dist: Single,
    epsilon: Single,
    eps_sq: Single,
    max: usize,
    found: Seq<u32>,
    replicas: Option<Vec<u32>>,
)
    requires
        call_ensures(
            replicas_pruned::<A>,
            (&table, v, centroids, dim, p, ref_dist, epsilon, eps_sq, max),
            replicas,
        ),
        table.is_table_of(table.values(), rows, table.dimension(), cap),
        p < rows,
        are_replicas_in_list(
            results::<A>(),
            table.lists()[p as int],
            v@,
            centroids@,
            dim as int,
            A::result(Op::Mul, eps_sq, ref_dist),
            max as int,
            found,
        ),
    ensures
        replicas is Some <==> shows_coverage(
            results::<A>(),
            table.lists()[p as int],
            v@,
            centroids@,
            rows,
            dim as int,
            p as int,
            ref_dist,
            epsilon,
            max as int,
            found,
        ),
        replicas matches Some(r) ==> r@ == found,
{
    let m = results::<A>();
    let list = table.lists()[p as int];
    law_table_of_centroids(table, table.values(), rows, table.dimension(), cap, p as int);
    law_neighbor_list(
        distances_from_row(m, table.values(), table.dimension(), p as int),
        rows,
        p as int,
        cap,
    );
    lemma_listed_found(
        m,
        list,
        table.is_truncated(),
        v@,
        centroids@,
        rows,
        dim as int,
        p as int,
        ref_dist,
        epsilon,
        eps_sq,
        max as int,
        found,
    );
}

/// What a scan of a list finds and whether it is certified, said of the replicas
/// found.
proof fn lemma_listed_found(
    m: Results,
    list: Seq<Entry>,
    truncated: bool,
    v: Seq<Single>,
    centroids: Seq<Single>,
    rows: int,
    dim: int,
    p: int,
    ref_dist: Single,
    epsilon: Single,
    eps_sq: Single,
    max: int,
    found: Seq<u32>,
)
    requires
        0 <= p < rows <= MAX_CENTROIDS,
        0 <= max,
        names_others_once(list, rows, p),
        truncated <==> exists|c: u32| c < rows && c != p && !#[trigger] names(list, c as int),
        are_replicas_in_list(
            m,
            list,
            v,
            centroids,
            dim,
            m(Op::Mul, eps_sq, ref_dist),
            max,
            found,
        ),
    ensures
        ({
            let kept = listed_replicas(m, list, v, centroids, dim, ref_dist, eps_sq, max);
            &&& indices(kept) == found
            &&& is_certified(m, truncated, list, kept, ref_dist, epsilon, max) <==> shows_coverage(
                m,
                list,
                v,
                centroids,
                rows,
                dim,
                p,
                ref_dist,
                epsilon,
                max,
                found,
            )
        }),
{
    let kept = listed_replicas(m, list, v, centroids, dim, ref_dist, eps_sq, max);
    let threshold = m(Op::Mul, eps_sq, ref_dist);
    let d = distances_from(m, v, centroids, dim);
    law_listed_scan_finds_the_replicas(
        m,
        list,
        v,
        centroids,
        rows,
        dim,
        p,
        ref_dist,
        eps_sq,
        max,
    );
    assert((|c: u32| exists|k: int| 0 <= k < list.len() && (#[trigger] list[k]).1 == c) =~= (
    |c: u32| names(list, c as int)));
    law_replicas_are_unique(
        m,
        v,
        centroids,
        dim,
        |c: u32| names(list, c as int),
        threshold,
        max,
        indices(kept),
        found,
    );
    lemma_listed_candidates(list, d, rows, p, threshold);
    let cands = listed_candidates(list, d, threshold);
    lemma_kept(relative_neighborhood(m, centroids, dim), cands, max);
    if kept.len() > 0 {
        assert(cands.contains(kept[kept.len() - 1]));
        assert(found.last() == kept.last().1);
        assert(kept.last() == entry(d, kept.last().1 as int));
    }
}

/// Whether `replicas` are those of a vector among all centroids but the primary.
pub open spec fn are_replicas_among_all(
    m: Results,
    v: Seq<Single>,
    centroids: IvfMatrix,
    p: u32,
    epsilon: Single,
    max: int,
    replicas: Seq<u32>,
) -> bool {
    let dim = centroids.dims as int;
    let to_primary = distance(m, v, row_of(centroids.values@, dim, p as int));
    are_the_replicas(
        m,
        v,
        centroids.values@,
        dim,
        |c: u32| c < centroids.rows && c != p,
        m(Op::Mul, m(Op::Mul, epsilon, epsilon), to_primary),
        max,
        replicas,
    )
}

/// Whether `replicas` are those of a vector among the `cap` nearest others of its
/// primary, where these show that no other centroid matters, and else among all.
pub open spec fn are_replicas_by_list(
    m: Results,
    cap: int,
    v: Seq<Single>,
    centroids: IvfMatrix,
    p: u32,
    epsilon: Single,
    max: int,
    replicas: Seq<u32>,
) -> bool {
    let dim = centroids.dims as int;
    let rows = centroids.rows as int;
    let values = centroids.values@;
    let to_primary = distance(m, v, row_of(values, dim, p as int));
    let list = neighbor_list(m, values, rows, dim, p as int, cap);
    exists|found: Seq<u32>| #[trigger]
        are_replicas_in_list(
            m,
            list,
            v,
            values,
            dim,
            m(Op::Mul, m(Op::Mul, epsilon, epsilon), to_primary),
            max,
            found,
        ) && if shows_coverage(
            m,
            list,
            v,
            values,
            rows,
            dim,
            p as int,
            to_primary,
            epsilon,
            max,
            found,
        ) {
            replicas == found
        } else {
            are_replicas_among_all(m, v, centroids, p, epsilon, max, replicas)
        }
}

/// Whether an assignment is right for the vector in row `i`: it has the primary that
/// came for the vector, and as replicas those among all other centroids; or else,
/// unless the metric is the inner product, those among the nearest others of the
/// primary, for some cap from 128 to 1024, if these show that no other centroid
/// matters. The closure factor and the cap on replicas are those that are set, or
/// three and eight. With a cap of zero there are no replicas.
pub open spec fn is_right_assignment(
    m: Results,
    settings: ClustererSettings,
    metric: Metric,
    vectors: IvfVectors,
    centroids: IvfMatrix,
    i: int,
    primary: u32,
    assignment: Assignment,
) -> bool {
    is_right_by(
        m,
        metric,
        row_of(vectors.matrix.values@, centroids.dims as int, i),
        centroids,
        primary,
        match settings.replica_epsilon {
            Some(set) => set,
            None => Single { bits: 0x4040_0000 },
        },
        match settings.max_replicas_per_vector {
            Some(set) => set as int,
            None => 8,
        },
        assignment,
    )
}

/// Whether an assignment of a vector is right by a closure factor and a cap on
/// replicas.
pub open spec fn is_right_by(
    m: Results,
    metric: Metric,
    v: Seq<Single>,
    centroids: IvfMatrix,
    primary: u32,
    epsilon: Single,
    max: int,
    assignment: Assignment,
) -> bool {
    let replicas = assignment.replicas@;
    &&& assignment.primary == primary
    &&& max == 0 ==> replicas.len() == 0
    &&& max != 0 && metric == Metric::Dot ==> are_replicas_among_all(
        m,
        v,
        centroids,
        primary,
        epsilon,
        max,
        replicas,
    )
    &&& max != 0 && metric != Metric::Dot ==> exists|cap: int|
        128 <= cap <= 1024 && #[trigger] are_replicas_by_list(
            m,
            cap,
            v,
            centroids,
            primary,
            epsilon,
            max,
            replicas,
        )
}

/// Assignment of primaries gives one assignment for each, in their order, and each
/// is right.
pub proof fn law_assign_primaries<
    A: Arithmetic,
    B: FnOnce(&[Single], usize, usize, usize, u64) -> CentroidNeighbors<A>,
>(
    clusterer: SuperKMeansIvfClusterer<A>,
    options: VectorOptions,
    vectors: IvfVectors,
    centroids: IvfMatrix,
    primaries: Vec<u32>,
    build: B,
    assignments: Vec<Assignment>,
)
    requires
        call_ensures(
            SuperKMeansIvfClusterer::<A>::assign_primaries::<B>,
            (&clusterer, &options, &vectors, &centroids, primaries, build),
            assignments,
        ),
        are_primaries(primaries@, vectors.matrix.rows as int, centroids.rows as int),
        centroids.rows <= MAX_CENTROIDS,
    ensures
        assignments@.len() == primaries@.len(),
        forall|i: int|
            0 <= i < primaries@.len() ==> is_right_assignment(
                results::<A>(),
                clusterer@,
                options.metric,
                vectors,
                centroids,
                i,
                primaries@[i],
                #[trigger] assignments@[i],
            ),
{
    lemma_assignments_are_right(
        results::<A>(),
        clusterer@,
        options.metric,
        vectors,
        centroids,
        primaries@,
        assignments@,
    );
}

pub proof fn lemma_assignments_are_right(
    m: Results,
    settings: ClustererSettings,
    metric: Metric,
    vectors: IvfVectors,
    centroids: IvfMatrix,
    primaries: Seq<u32>,
    assignments: Seq<Assignment>,
)
    requires
        are_assignments(m, settings, metric, vectors, centroids, primaries, assignments),
        are_primaries(primaries, vectors.matrix.rows as int, centroids.rows as int),
        centroids.rows <= MAX_CENTROIDS,
    ensures
        assignments.len() == primaries.len(),
        forall|i: int|
            0 <= i < primaries.len() ==> is_right_assignment(
                m,
                settings,
                metric,
                vectors,
                centroids,
                i,
                primaries[i],
                #[trigger] assignments[i],
            ),
{
    law_settings(settings);
    if settings.replica_cap() != 0 {
        let going_by = choose|cap: Option<int>| #[trigger]
            may_go_by(cap, metric) && are_assignments_by(
                cap,
                m,
                settings,
                vectors,
                centroids,
                primaries,
                assignments,
            );
        assert forall|i: int| 0 <= i < primaries.len() implies is_right_assignment(
            m,
            settings,
            metric,
            vectors,
            centroids,
            i,
            primaries[i],
            #[trigger] assignments[i],
        ) by {
            lemma_replicas_are_right(
                m,
                going_by,
                row_of(vectors.matrix.values@, centroids.dims as int, i),
                centroids,
                primaries[i],
                settings.epsilon(),
                settings.replica_cap() as int,
            );
            assert(is_right_by(
                m,
                metric,
                row_of(vectors.matrix.values@, centroids.dims as int, i),
                centroids,
                primaries[i],
                settings.epsilon(),
                settings.replica_cap() as int,
                assignments[i],
            ));
        }
    }
}

proof fn lemma_replicas_are_right(
    m: Results,
    going_by: Option<int>,
    v: Seq<Single>,
    centroids: IvfMatrix,
    p: u32,
    epsilon: Single,
    max: int,
)
    requires
        p < centroids.rows <= MAX_CENTROIDS,
        0 <= max,
        going_by matches Some(cap) ==> 0 <= cap,
    ensures
        ({
            let replicas = replicas_of(m, going_by, v, centroids, p as int, epsilon, max);
            match going_by {
                Some(cap) => are_replicas_by_list(
                    m,
                    cap,
                    v,
                    centroids,
                    p,
                    epsilon,
                    max,
                    replicas,
                ),
                None => are_replicas_among_all(m, v, centroids, p, epsilon, max, replicas),
            }
        }),
{
    let values = centroids.values@;
    let dim = centroids.dims as int;
    let rows = centroids.rows as int;
    let q = p as int;
    let ref_dist = distance(m, v, row_of(values, dim, q));
    let eps_sq = m(Op::Mul, epsilon, epsilon);
    law_full_scan_finds_the_replicas(m, v, values, rows, dim, q, ref_dist, eps_sq, max);
    assert((|c: u32| c < rows && c != q) =~= (|c: u32| c < centroids.rows && c != p));
    if let Some(cap) = going_by {
        let list = neighbor_list(m, values, rows, dim, q, cap);
        let found = indices(listed_replicas(m, list, v, values, dim, ref_dist, eps_sq, max));
        law_neighbor_list(distances_from_row(m, values, dim, q), rows, q, cap);
        law_listed_scan_finds_the_replicas(
            m,
            list,
            v,
            values,
            rows,
            dim,
            q,
            ref_dist,
            eps_sq,
            max,
        );
        assert((|c: u32| exists|k: int| 0 <= k < list.len() && (#[trigger] list[k]).1 == c) =~= (
        |c: u32| names(list, c as int)));
        assert(are_replicas_in_list(
            m,
            list,
            v,
            values,
            dim,
            m(Op::Mul, eps_sq, ref_dist),
            max,
            found,
        ));
        if rows - 1 > cap {
            lemma_some_left_out(list, rows, q);
        }
        lemma_listed_found(
            m,
            list,
            rows - 1 > cap,
            v,
            values,
            rows,
            dim,
            q,
            ref_dist,
            epsilon,
            eps_sq,
            max,
            found,
        );
    }
}

/// The number of neighbors that is stored per centroid: thirty-two for each replica
/// that a vector may have, but at least 128 and at most 1024.
pub proof fn law_stored_neighbors(max_replicas: usize, cap: usize)
    requires
        call_ensures(neighbor_cap, (max_replicas,), cap),
    ensures
        max_replicas <= 4 ==> cap == 128,
        4 <= max_replicas <= 32 ==> cap == 32 * max_replicas,
        max_replicas >= 32 ==> cap == 1024,
{
}

/// A table is used again exactly if it is of the same centroids and under the same
/// fingerprint.
pub proof fn law_using_a_table_again<A: Arithmetic>(
    table: Arc<CentroidNeighbors<A>>,
    centroids: &[Single],
    rows: usize,
    dim: usize,
    fingerprint: u64,
    is_of: bool,
    told: u64,
    found: Option<Arc<CentroidNeighbors<A>>>,
    found_in_nothing: Option<Arc<CentroidNeighbors<A>>>,
)
    requires
        call_ensures(CentroidNeighbors::<A>::is_of, (&*table, centroids, rows, dim), is_of),
        call_ensures(CentroidNeighbors::<A>::fingerprint, (&*table,), told),
        call_ensures(reuse::<A>, (Some(table), centroids, rows, dim, fingerprint), found),
        call_ensures(reuse::<A>, (None, centroids, rows, dim, fingerprint), found_in_nothing),
    ensures
        is_of && told == fingerprint ==> found == Some(table),
        !is_of || told != fingerprint ==> found is None,
        found_in_nothing is None,
{
}

/// A kept table is given out as it was kept.
pub proof fn law_keeping_a_table<A: Arithmetic>(
    table: Arc<CentroidNeighbors<A>>,
    kept: KeptTable<A>,
    given: Arc<CentroidNeighbors<A>>,
)
    requires
        call_ensures(KeptTable::<A>::new, (table,), kept),
        call_ensures(KeptTable::<A>::give_out, (&kept,), given),
    ensures
        given == table,
{
}

/// The table that a clusterer gives out is of the given centroids, and under the
/// fingerprint that these have by themselves. For some cap from 128 to 1024 each of
/// its lists is the list of the nearest neighbors. It is the one in the clusterer's
/// slot when the lock is released: the one that the lock found there, if that was of
/// the same centroids and under the same fingerprint, or else one with the cap that
/// belongs to the cap on replicas.
pub proof fn law_centroid_neighbors<
    A: Arithmetic,
    B: FnOnce(&[Single], usize, usize, usize, u64) -> CentroidNeighbors<A>,
>(
    clusterer: SuperKMeansIvfClusterer<A>,
    centroids: &[Single],
    rows: usize,
    dim: usize,
    max_replicas: usize,
    build: B,
    table: Arc<CentroidNeighbors<A>>,
    fingerprint: u64,
    cap: usize,
)
    requires
        call_ensures(
            SuperKMeansIvfClusterer::<A>::centroid_neighbors::<B>,
            (&clusterer, centroids, rows, dim, max_replicas, build),
            table,
        ),
        call_ensures(centroid_fingerprint, (centroids, rows, dim), fingerprint),
        call_ensures(neighbor_cap, (max_replicas,), cap),
    ensures
        table.values() == centroids@,
        table.row_count() == rows,
        table.dimension() == dim,
        table.key() == fingerprint,
        exists|n: int|
            128 <= n <= 1024 && #[trigger] table.is_table_of(
                centroids@,
                rows as int,
                dim as int,
                n,
            ),
        exists|held: HeldSlot<'_, A>|
            {
                &&& #[trigger] held.slot() == clusterer.cache()
                &&& held.table() == Some(table)
                &&& match held.found_table() {
                    Some(kept) => if kept.values() == centroids@ && kept.row_count() == rows
                        && kept.dimension() == dim && kept.key() == fingerprint {
                        table == kept
                    } else {
                        table.is_table_of(centroids@, rows as int, dim as int, cap as int)
                    },
                    None => table.is_table_of(centroids@, rows as int, dim as int, cap as int),
                }
            },
{
    let held = choose|held: HeldSlot<'_, A>| #[trigger]
        is_left_with(
            held,
            clusterer.cache(),
            table,
            centroids@,
            rows as int,
            dim as int,
            max_replicas as int,
        );
    assert(held.slot() == clusterer.cache());
}

/// One value changed, or the number of rows, or the dimensionality, makes another
/// fingerprint.
pub proof fn law_fingerprints_tell_apart(
    a: &[Single],
    b: &[Single],
    rows: usize,
    dim: usize,
    other_rows: usize,
    other_dim: usize,
    i: int,
    of_a: u64,
    of_b: u64,
    of_other_shape: u64,
)
    requires
        call_ensures(centroid_fingerprint, (a, rows, dim), of_a),
        call_ensures(centroid_fingerprint, (b, rows, dim), of_b),
        call_ensures(centroid_fingerprint, (a, other_rows, other_dim), of_other_shape),
        a@.len() == b@.len(),
        0 <= i < a@.len(),
        forall|j: int| 0 <= j < a@.len() && j != i ==> #[trigger] a@[j] == b@[j],
    ensures
        of_a == of_b <==> a@[i] == b@[i],
        (rows == other_rows) != (dim == other_dim) ==> of_a != of_other_shape,
        rows == other_rows && dim == other_dim ==> of_a == of_other_shape,
{
    if a@[i] != b@[i] {
        law_changed_value_changes_fingerprint(a@, b@, rows as int, dim as int, i);
    } else {
        assert(a@ =~= b@);
    }
    if (rows == other_rows) != (dim == other_dim) {
        law_changed_shape_changes_fingerprint(
            a@,
            rows as int,
            dim as int,
            other_rows as int,
            other_dim as int,
        );
    }
}

/// The shape counts in a fingerprint as if it stood before the values: first the
/// number of rows, then the dimensionality.
pub proof fn law_fingerprint_of_shape(
    values: &[Single],
    rows: usize,
    dim: usize,
    joined: &[Single],
    of_values: u64,
    of_joined: u64,
)
    requires
        call_ensures(centroid_fingerprint, (values, rows, dim), of_values),
        call_ensures(centroid_fingerprint, (joined, 0, 0), of_joined),
        joined@.len() == values@.len() + 2,
        joined@[0].bits == rows,
        joined@[1].bits == dim,
        forall|i: int| 0 <= i < values@.len() ==> #[trigger] values@[i] == joined@[i + 2],
    ensures
        of_joined == of_values,
{
    law_shape_stands_before_the_values(joined@[0], joined@[1], values@);
    assert(joined@ =~= seq![joined@[0], joined@[1]] + values@);
}

/// What an error tells: what kind it is of, and its text with the two numbers in
/// decimal, which read back as they are.
pub proof fn law_error_reports(expected: usize, got: usize, kind: ErrorKind, text: String)
    ensures
        ({
            let e = ClusterError::VectorDims { expected, got };
            &&& call_ensures(ClusterError::kind, (&e,), kind) ==> kind is InvalidArgument
            &&& call_ensures(ClusterError::message, (&e,), text) ==> text@
                == "vector dimensionality mismatch: expected "@ + decimal(expected as nat)
                + ", got "@ + decimal(got as nat)
        }),
        ({
            let e = ClusterError::DocIdCount { expected, got };
            &&& call_ensures(ClusterError::kind, (&e,), kind) ==> kind is InvalidArgument
            &&& call_ensures(ClusterError::message, (&e,), text) ==> text@
                == "vector doc_id count mismatch: expected "@ + decimal(expected as nat)
                + ", got "@ + decimal(got as nat)
        }),
        ({
            let e = ClusterError::VectorValueCount { expected, got };
            &&& call_ensures(ClusterError::kind, (&e,), kind) ==> kind is InvalidArgument
            &&& call_ensures(ClusterError::message, (&e,), text) ==> text@
                == "vector value count mismatch: expected "@ + decimal(expected as nat)
                + ", got "@ + decimal(got as nat)
        }),
        ({
            let e = ClusterError::CentroidDims { expected, got };
            &&& call_ensures(ClusterError::kind, (&e,), kind) ==> kind is InvalidArgument
            &&& call_ensures(ClusterError::message, (&e,), text) ==> text@
                == "centroid dimensionality mismatch: expected "@ + decimal(expected as nat)
                + ", got "@ + decimal(got as nat)
        }),
        ({
            let e = ClusterError::CentroidValueCount { expected, got };
            &&& call_ensures(ClusterError::kind, (&e,), kind) ==> kind is InvalidArgument
            &&& call_ensures(ClusterError::message, (&e,), text) ==> text@
                == "centroid value count mismatch: expected "@ + decimal(expected as nat)
                + ", got "@ + decimal(got as nat)
        }),
        ({
            let e = ClusterError::TrainedValueCount { expected, got };
            &&& call_ensures(ClusterError::kind, (&e,), kind) ==> kind is Internal
            &&& call_ensures(ClusterError::message, (&e,), text) ==> text@
                == "SuperKMeans returned "@ + decimal(got as nat) + " centroid floats, expected "@
                + decimal(expected as nat)
        }),
        number_of(decimal(expected as nat)) == expected,
        number_of(decimal(got as nat)) == got,
{
    law_errors(expected, got, text);
    law_decimal_reads_back(expected as nat);
    law_decimal_reads_back(got as nat);
}

/// A failure of the algorithm is reported in its own words. It is the caller's fault
/// if the algorithm says so, and internal if the algorithm failed while running. That
/// there is no centroid is the caller's fault.
pub proof fn law_failures_are_reported(
    message: String,
    of_refused: ErrorKind,
    of_failed: ErrorKind,
    of_none: ErrorKind,
    told_refused: String,
    told_failed: String,
    told_none: String,
)
    requires
        ({
            let refused = ClusterError::Clustering(KMeansError::InvalidArgument(message));
            let failed = ClusterError::Clustering(KMeansError::Runtime(message));
            let none = ClusterError::NoCentroids;
            &&& call_ensures(ClusterError::kind, (&refused,), of_refused)
            &&& call_ensures(ClusterError::kind, (&failed,), of_failed)
            &&& call_ensures(ClusterError::kind, (&none,), of_none)
            &&& call_ensures(ClusterError::message, (&refused,), told_refused)
            &&& call_ensures(ClusterError::message, (&failed,), told_failed)
            &&& call_ensures(ClusterError::message, (&none,), told_none)
        }),
    ensures
        of_refused is InvalidArgument,
        of_failed is Internal,
        of_none is InvalidArgument,
        told_refused@ == message@,
        told_failed@ == message@,
        told_none@ == "cannot assign with zero centroids"@,
{
    law_errors(0, 0, message);
}

/// An assignment to a primary only has that primary, and no replicas.
pub proof fn law_primary_only(primary: u32, assignment: Assignment)
    requires
        call_ensures(Assignment::primary_only, (primary,), assignment),
    ensures
        assignment.primary == primary,
        assignment.replicas@.len() == 0,
{
}

} // verus!
