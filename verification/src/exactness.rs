//! When the pruned scan finds the replicas that the full scan finds.
use vstd::prelude::*;
use crate::arithmetic::{distance, row_of, Op, Results};
use crate::cache::{is_usual_cap, MIN_NEIGHBOR_CAP};
use crate::clusterer::replicas_of;
use crate::neighbors::{distances_from, distances_from_row, entry};
use crate::neighbors::{min_of, nearest_others, neighbor_list, others, Distances, MAX_CENTROIDS};
use crate::neighbors::lemma_others;
use crate::replicas::{candidates, full_scan_replicas, indices, is_certified, is_covered, kept_of};
use crate::replicas::{listed_candidates, listed_replicas, relative_neighborhood, rescored, within};
use crate::replicas::Blocks;
use crate::single::{ascending, nearest_first, rank, Entry, Single};
use crate::single::{lemma_ascending_is_sorted, lemma_nearest_first, lemma_rank_injective};
use crate::types::IvfMatrix;

verus! {

/// Whether a list names centroid `c`.
pub open spec fn names(list: Seq<Entry>, c: int) -> bool {
    exists|k: int| 0 <= k < list.len() && (#[trigger] list[k]).1 == c
}

/// Whether a list names centroids other than `p`, each at most once.
pub open spec fn names_others_once(list: Seq<Entry>, n: int, p: int) -> bool {
    &&& forall|k: int| 0 <= k < list.len() ==> (#[trigger] list[k]).1 < n && list[k].1 != p
    &&& forall|j: int, k: int|
        0 <= j < k < list.len() ==> (#[trigger] list[j]).1 != (#[trigger] list[k]).1
}

/// The kept entries that come before `e`.
pub open spec fn kept_before(kept: Seq<Entry>, e: Entry) -> Seq<Entry> {
    kept.filter(|k: Entry| rank(k) < rank(e))
}

/// Whether a greedy pass that has kept certain entries passes over `e`: its cap
/// is filled, or one of them blocks `e`.
pub open spec fn passed_over(blocks: Blocks, kept: Seq<Entry>, e: Entry, max: int) -> bool {
    kept.len() >= max || is_covered(blocks, kept, e)
}

/// Whether centroid `c` cannot change what a scan has kept: it does not pass the
/// threshold, or the scan would have passed over it in its turn.
pub open spec fn makes_no_difference(
    blocks: Blocks,
    d: Distances,
    c: int,
    threshold: Single,
    kept: Seq<Entry>,
    max: int,
) -> bool {
    ||| !d(c).is_at_most(threshold)
    ||| passed_over(blocks, kept_before(kept, entry(d, c)), entry(d, c), max)
}

/// Whether every centroid that a list leaves out makes no difference.
pub open spec fn list_suffices(
    blocks: Blocks,
    list: Seq<Entry>,
    d: Distances,
    n: int,
    p: int,
    threshold: Single,
    kept: Seq<Entry>,
    max: int,
) -> bool {
    forall|c: int|
        0 <= c < n && c != p && !names(list, c) ==> #[trigger] makes_no_difference(
            blocks,
            d,
            c,
            threshold,
            kept,
            max,
        )
}

pub proof fn lemma_filter_keeps_unique(s: Seq<Entry>, pred: spec_fn(Entry) -> bool)
    requires
        s.no_duplicates(),
    ensures
        s.filter(pred).no_duplicates(),
        forall|e: Entry| #[trigger] s.filter(pred).contains(e) <==> s.contains(e) && pred(e),
    decreases s.len(),
{
    reveal(Seq::filter);
    if s.len() > 0 {
        let t = s.drop_last();
        lemma_filter_keeps_unique(t, pred);
        assert(s =~= t.push(s.last()));
        assert forall|e: Entry| #[trigger] s.filter(pred).contains(e) <==> s.contains(e) && pred(e) by {
            assert(s.contains(e) <==> t.contains(e) || e == s.last()) by {
                if t.contains(e) {
                    let i = choose|i: int| 0 <= i < t.len() && t[i] == e;
                    assert(s[i] == e);
                }
                assert(s[s.len() - 1] == s.last());
                if s.contains(e) && e != s.last() {
                    let i = choose|i: int| 0 <= i < s.len() && s[i] == e;
                    assert(t[i] == e);
                }
            }
            let f = t.filter(pred);
            if pred(s.last()) {
                let g = f.push(s.last());
                assert(g.contains(e) <==> f.contains(e) || e == s.last()) by {
                    if f.contains(e) {
                        let i = choose|i: int| 0 <= i < f.len() && f[i] == e;
                        assert(g[i] == e);
                    }
                    assert(g[f.len() as int] == s.last());
                }
            }
        }
        assert(!t.contains(s.last()));
        assert(!t.filter(pred).contains(s.last()));
    }
}

proof fn lemma_sort_keeps_unique(s: Seq<Entry>)
    requires
        s.no_duplicates(),
    ensures
        nearest_first(s).no_duplicates(),
{
    lemma_nearest_first(s);
    s.lemma_multiset_has_no_duplicates();
    nearest_first(s).lemma_multiset_has_no_duplicates_conv();
}

pub proof fn lemma_filter_keeps_order(s: Seq<Entry>, pred: spec_fn(Entry) -> bool)
    requires
        ascending(s),
    ensures
        ascending(s.filter(pred)),
    decreases s.len(),
{
    reveal(Seq::filter);
    if s.len() > 0 {
        let t = s.drop_last();
        lemma_filter_keeps_order(t, pred);
        assert forall|i: int, j: int| 0 <= i < j < s.filter(pred).len() implies rank(
            #[trigger] s.filter(pred)[i],
        ) <= rank(#[trigger] s.filter(pred)[j]) by {
            if j == t.filter(pred).len() {
                let e = t.filter(pred)[i];
                lemma_filtered_from(t, pred, i);
                let h = choose|h: int| 0 <= h < t.len() && t[h] == e;
                assert(rank(s[h]) <= rank(s[s.len() - 1]));
            }
        }
    }
}

proof fn lemma_filtered_from(s: Seq<Entry>, pred: spec_fn(Entry) -> bool, i: int)
    requires
        0 <= i < s.filter(pred).len(),
    ensures
        s.contains(s.filter(pred)[i]),
    decreases s.len(),
{
    reveal(Seq::filter);
    if s.len() > 0 {
        let t = s.drop_last();
        if i < t.filter(pred).len() {
            lemma_filtered_from(t, pred, i);
            let h = choose|h: int| 0 <= h < t.len() && t[h] == t.filter(pred)[i];
            assert(s[h] == s.filter(pred)[i]);
        } else {
            assert(s[s.len() - 1] == s.filter(pred)[i]);
        }
    }
}

pub proof fn lemma_same_entries_same_list(a: Seq<Entry>, b: Seq<Entry>)
    requires
        ascending(a),
        ascending(b),
        a.no_duplicates(),
        b.no_duplicates(),
        forall|e: Entry| #[trigger] a.contains(e) <==> b.contains(e),
    ensures
        a == b,
{
    a.to_multiset_ensures();
    b.to_multiset_ensures();
    a.lemma_multiset_has_no_duplicates();
    b.lemma_multiset_has_no_duplicates();
    assert(a.to_multiset() =~= b.to_multiset()) by {
        assert forall|e: Entry| a.to_multiset().count(e) == b.to_multiset().count(e) by {
            assert(a.contains(e) <==> a.to_multiset().count(e) > 0);
            assert(b.contains(e) <==> b.to_multiset().count(e) > 0);
            assert(a.to_multiset().contains(e) ==> a.to_multiset().count(e) == 1);
            assert(b.to_multiset().contains(e) ==> b.to_multiset().count(e) == 1);
        }
    }
    lemma_ascending_is_sorted(a, b);
    lemma_ascending_is_sorted(b, b);
}

/// What a greedy pass keeps: at most `max` entries, all of them candidates, none
/// of them blocked by one kept before it.
pub proof fn lemma_kept(blocks: Blocks, cands: Seq<Entry>, max: int)
    requires
        0 <= max,
    ensures
        kept_of(blocks, cands, max).len() <= max,
        kept_of(blocks, cands, max).len() <= cands.len(),
        forall|j: int| 0 <= j < kept_of(blocks, cands, max).len() ==> #[trigger] cands.contains(
            kept_of(blocks, cands, max)[j],
        ),
        forall|j: int, k: int|
            0 <= j < k < kept_of(blocks, cands, max).len() ==> !blocks(
                #[trigger] kept_of(blocks, cands, max)[j],
                #[trigger] kept_of(blocks, cands, max)[k],
            ),
        ascending(cands) ==> ascending(kept_of(blocks, cands, max)),
        cands.no_duplicates() ==> kept_of(blocks, cands, max).no_duplicates(),
    decreases cands.len(),
{
    if cands.len() > 0 {
        let t = cands.drop_last();
        lemma_kept(blocks, t, max);
        let before = kept_of(blocks, t, max);
        let after = kept_of(blocks, cands, max);
        assert forall|j: int| 0 <= j < after.len() implies #[trigger] cands.contains(after[j]) by {
            if j < before.len() {
                assert(t.contains(before[j]));
                let i = choose|i: int| 0 <= i < t.len() && t[i] == before[j];
                assert(cands[i] == after[j]);
            } else {
                assert(cands[cands.len() - 1] == after[j]);
            }
        }
        if ascending(cands) {
            assert(ascending(t));
            assert forall|i: int, j: int| 0 <= i < j < after.len() implies rank(#[trigger] after[i])
                <= rank(#[trigger] after[j]) by {
                if j == before.len() {
                    assert(t.contains(before[i]));
                    let h = choose|h: int| 0 <= h < t.len() && t[h] == before[i];
                    assert(rank(cands[h]) <= rank(cands[cands.len() - 1]));
                }
            }
        }
        if cands.no_duplicates() {
            assert(t.no_duplicates());
            assert forall|i: int, j: int| 0 <= i < j < after.len() implies after[i] != after[j] by {
                if j == before.len() {
                    assert(t.contains(before[i]));
                    let h = choose|h: int| 0 <= h < t.len() && t[h] == before[i];
                    assert(cands[h] != cands[cands.len() - 1]);
                }
            }
        }
    }
}

/// The kept entries before one that comes last of all are all of them.
pub proof fn lemma_all_kept_before(kept: Seq<Entry>, e: Entry)
    requires
        forall|k: int| 0 <= k < kept.len() ==> rank(#[trigger] kept[k]) < rank(e),
    ensures
        kept_before(kept, e) == kept,
    decreases kept.len(),
{
    reveal(Seq::filter);
    if kept.len() > 0 {
        let t = kept.drop_last();
        assert forall|k: int| 0 <= k < t.len() implies rank(#[trigger] t[k]) < rank(e) by {
            assert(t[k] == kept[k]);
        }
        lemma_all_kept_before(t, e);
        assert(rank(kept[kept.len() - 1]) < rank(e));
        assert(t.push(kept.last()) =~= kept);
    }
}

/// What a pass keeps last does not come before what it has seen earlier.
proof fn lemma_kept_before_earlier(kept: Seq<Entry>, x: Entry, e: Entry)
    requires
        rank(e) <= rank(x),
    ensures
        kept_before(kept.push(x), e) == kept_before(kept, e),
{
    reveal(Seq::filter);
    assert(kept.push(x).drop_last() =~= kept);
}

/// Whether a pass over `cands` that only sees the entries in `seen` would have
/// passed over all the others in their turn.
pub open spec fn unseen_passed_over(
    blocks: Blocks,
    cands: Seq<Entry>,
    seen: spec_fn(Entry) -> bool,
    kept: Seq<Entry>,
    max: int,
) -> bool {
    forall|e: Entry| #[trigger]
        cands.contains(e) && !seen(e) ==> passed_over(blocks, kept_before(kept, e), e, max)
}

/// A pass that sees some entries only keeps what a pass over all of them keeps,
/// exactly if it would have passed over the others in their turn.
pub proof fn lemma_unseen(blocks: Blocks, cands: Seq<Entry>, seen: spec_fn(Entry) -> bool, max: int)
    requires
        0 <= max,
        ascending(cands),
        cands.no_duplicates(),
    ensures
        kept_of(blocks, cands.filter(seen), max) == kept_of(blocks, cands, max)
            <==> unseen_passed_over(
            blocks,
            cands,
            seen,
            kept_of(blocks, cands.filter(seen), max),
            max,
        ),
    decreases cands.len(),
{
    reveal(Seq::filter);
    if cands.len() > 0 {
        let t = cands.drop_last();
        let x = cands.last();
        let some_before = kept_of(blocks, t.filter(seen), max);
        let all_before = kept_of(blocks, t, max);
        let some = kept_of(blocks, cands.filter(seen), max);
        let all = kept_of(blocks, cands, max);
        assert(ascending(t));
        assert(t.no_duplicates());
        lemma_unseen(blocks, t, seen, max);
        lemma_kept(blocks, t, max);
        lemma_kept(blocks, t.filter(seen), max);
        lemma_filter_keeps_unique(t, seen);
        assert forall|e: Entry| #[trigger] t.contains(e) implies rank(e) < rank(x) by {
            let i = choose|i: int| 0 <= i < t.len() && t[i] == e;
            assert(rank(cands[i]) <= rank(cands[cands.len() - 1]));
            assert(cands[i] != cands[cands.len() - 1]);
            if rank(e) == rank(x) {
                lemma_rank_injective(e, x);
            }
        }
        assert forall|e: Entry| #[trigger] cands.contains(e) <==> t.contains(e) || e == x by {
            if t.contains(e) {
                let i = choose|i: int| 0 <= i < t.len() && t[i] == e;
                assert(cands[i] == e);
            }
            assert(cands[cands.len() - 1] == x);
            if cands.contains(e) && e != x {
                let i = choose|i: int| 0 <= i < cands.len() && cands[i] == e;
                assert(t[i] == e);
            }
        }
        assert forall|k: int| 0 <= k < some_before.len() implies rank(#[trigger] some_before[k])
            < rank(x) by {
            assert(t.filter(seen).contains(some_before[k]));
            assert(t.contains(some_before[k]));
        }
        lemma_all_kept_before(some_before, x);
        if seen(x) {
            assert(cands.filter(seen) =~= t.filter(seen).push(x));
            assert(t.filter(seen).push(x).drop_last() =~= t.filter(seen));
        } else {
            assert(cands.filter(seen) =~= t.filter(seen));
        }
        assert forall|e: Entry| #[trigger] t.contains(e) implies kept_before(some, e) == kept_before(
            some_before,
            e,
        ) by {
            lemma_kept_before_earlier(some_before, x, e);
        }
        // Neither pass can have kept the last entry before it saw it.
        assert(forall|k: int| 0 <= k < all_before.len() ==> #[trigger] all_before[k] != x) by {
            assert forall|k: int| 0 <= k < all_before.len() implies #[trigger] all_before[k] != x by {
                assert(t.contains(all_before[k]));
            }
        }
        assert(forall|k: int| 0 <= k < some_before.len() ==> #[trigger] some_before[k] != x);
        if some == all {
            if all.len() > all_before.len() {
                assert(all.last() == x);
                assert(all.drop_last() =~= all_before);
            }
            if some.len() > some_before.len() {
                assert(some.last() == x);
                assert(some.drop_last() =~= some_before);
            }
            assert(some_before == all_before);
            assert(unseen_passed_over(blocks, cands, seen, some, max));
        }
        if unseen_passed_over(blocks, cands, seen, some, max) {
            assert forall|e: Entry| #[trigger] t.contains(e) && !seen(e) implies passed_over(
                blocks,
                kept_before(some_before, e),
                e,
                max,
            ) by {
                assert(cands.contains(e));
                assert(kept_before(some, e) == kept_before(some_before, e));
            }
            assert(unseen_passed_over(blocks, t, seen, some_before, max));
            if !seen(x) {
                assert(cands.contains(x));
                assert(passed_over(blocks, some, x, max));
            }
        }
    }
}

/// Whether a pass that kept certain entries had reason to leave `e` out: one that
/// comes before it blocks it, or the cap is filled with entries that come before it.
pub open spec fn is_left_out(blocks: Blocks, kept: Seq<Entry>, e: Entry, max: int) -> bool {
    ||| exists|j: int|
        0 <= j < kept.len() && rank(#[trigger] kept[j]) < rank(e) && blocks(kept[j], e)
    ||| kept.len() == max && forall|j: int|
        0 <= j < kept.len() ==> rank(#[trigger] kept[j]) < rank(e)
}

/// A pass leaves nothing out without reason.
pub proof fn lemma_left_out(blocks: Blocks, cands: Seq<Entry>, max: int, e: Entry)
    requires
        0 <= max,
        ascending(cands),
        cands.no_duplicates(),
        cands.contains(e),
        !kept_of(blocks, cands, max).contains(e),
    ensures
        is_left_out(blocks, kept_of(blocks, cands, max), e, max),
    decreases cands.len(),
{
    let t = cands.drop_last();
    let x = cands.last();
    let before = kept_of(blocks, t, max);
    let after = kept_of(blocks, cands, max);
    let i = choose|i: int| 0 <= i < cands.len() && cands[i] == e;
    assert(ascending(t));
    assert(t.no_duplicates());
    lemma_kept(blocks, t, max);
    if i < t.len() {
        assert(t[i] == e);
        assert(t.contains(e));
        if before.contains(e) {
            let j = choose|j: int| 0 <= j < before.len() && before[j] == e;
            assert(after[j] == e);
        }
        lemma_left_out(blocks, t, max, e);
        if exists|j: int|
            0 <= j < before.len() && rank(#[trigger] before[j]) < rank(e) && blocks(before[j], e) {
            let j = choose|j: int|
                0 <= j < before.len() && rank(#[trigger] before[j]) < rank(e) && blocks(
                    before[j],
                    e,
                );
            assert(after[j] == before[j]);
        }
    } else {
        assert forall|j: int| 0 <= j < before.len() implies rank(#[trigger] before[j]) < rank(x) by {
            assert(t.contains(before[j]));
            let h = choose|h: int| 0 <= h < t.len() && t[h] == before[j];
            assert(rank(cands[h]) <= rank(cands[cands.len() - 1]));
            assert(cands[h] != cands[cands.len() - 1]);
            if rank(cands[h]) == rank(x) {
                lemma_rank_injective(cands[h], x);
            }
        }
        if after.len() > before.len() {
            assert(after[before.len() as int] == e);
        }
        if before.len() < max {
            let j = choose|j: int| 0 <= j < before.len() && blocks(#[trigger] before[j], e);
            assert(rank(before[j]) < rank(e));
        }
    }
}

/// The candidates that the full scan sorts.
pub proof fn lemma_candidates(d: Distances, n: int, p: int, threshold: Single)
    requires
        0 <= n <= MAX_CENTROIDS,
        0 <= p,
    ensures
        ascending(candidates(d, n, p, threshold)),
        candidates(d, n, p, threshold).no_duplicates(),
        forall|e: Entry| #[trigger]
            candidates(d, n, p, threshold).contains(e) <==> e.1 < n && e.1 != p && e == entry(
                d,
                e.1 as int,
            ) && e.0.is_at_most(threshold),
{
    lemma_others(d, n, p);
    lemma_filter_keeps_unique(others(d, n, p), |e: Entry| e.0.is_at_most(threshold));
    lemma_nearest_first(within(others(d, n, p), threshold));
    lemma_sort_keeps_unique(within(others(d, n, p), threshold));
}

/// The candidates that the pruned scan sorts.
pub proof fn lemma_listed_candidates(list: Seq<Entry>, d: Distances, n: int, p: int, threshold: Single)
    requires
        0 <= n <= MAX_CENTROIDS,
        names_others_once(list, n, p),
    ensures
        ascending(listed_candidates(list, d, threshold)),
        listed_candidates(list, d, threshold).no_duplicates(),
        forall|e: Entry| #[trigger]
            listed_candidates(list, d, threshold).contains(e) <==> names(list, e.1 as int) && e == entry(
                d,
                e.1 as int,
            ) && e.0.is_at_most(threshold),
{
    let r = rescored(list, d);
    assert(r.no_duplicates());
    lemma_filter_keeps_unique(r, |e: Entry| e.0.is_at_most(threshold));
    lemma_nearest_first(within(r, threshold));
    lemma_sort_keeps_unique(within(r, threshold));
    assert forall|e: Entry| #[trigger] r.contains(e) <==> names(list, e.1 as int) && e == entry(
        d,
        e.1 as int,
    ) by {
        if r.contains(e) {
            let k = choose|k: int| 0 <= k < r.len() && r[k] == e;
            assert(list[k].1 == e.1);
        }
        if names(list, e.1 as int) && e == entry(d, e.1 as int) {
            let k = choose|k: int| 0 <= k < list.len() && (#[trigger] list[k]).1 == e.1;
            assert(r[k] == e);
        }
    }
    assert forall|e: Entry| #[trigger]
        listed_candidates(list, d, threshold).contains(e) <==> names(list, e.1 as int) && e == entry(
            d,
            e.1 as int,
        ) && e.0.is_at_most(threshold) by {
        assert(within(r, threshold).contains(e) <==> r.contains(e) && e.0.is_at_most(threshold));
    }
}

/// A scan of a list keeps what a scan of all centroids keeps, exactly if every
/// centroid that the list leaves out makes no difference to what the list's scan
/// kept.
pub proof fn law_list_is_exact_if_it_suffices(
    blocks: Blocks,
    list: Seq<Entry>,
    d: Distances,
    n: int,
    p: int,
    threshold: Single,
    max: int,
)
    requires
        0 <= n <= MAX_CENTROIDS,
        0 <= p,
        0 <= max,
        names_others_once(list, n, p),
    ensures
        kept_of(blocks, listed_candidates(list, d, threshold), max) == kept_of(
            blocks,
            candidates(d, n, p, threshold),
            max,
        ) <==> list_suffices(
            blocks,
            list,
            d,
            n,
            p,
            threshold,
            kept_of(blocks, listed_candidates(list, d, threshold), max),
            max,
        ),
{
    let a = listed_candidates(list, d, threshold);
    let b = candidates(d, n, p, threshold);
    let seen = |e: Entry| names(list, e.1 as int);
    let kept = kept_of(blocks, a, max);
    lemma_listed_candidates(list, d, n, p, threshold);
    lemma_candidates(d, n, p, threshold);
    lemma_filter_keeps_unique(b, seen);
    lemma_filter_keeps_order(b, seen);
    assert forall|e: Entry| #[trigger] a.contains(e) <==> b.filter(seen).contains(e) by {
        if names(list, e.1 as int) {
            let k = choose|k: int| 0 <= k < list.len() && (#[trigger] list[k]).1 == e.1;
            assert(list[k].1 < n && list[k].1 != p);
        }
    }
    lemma_same_entries_same_list(a, b.filter(seen));
    lemma_unseen(blocks, b, seen, max);
    if unseen_passed_over(blocks, b, seen, kept, max) {
        assert forall|c: int| 0 <= c < n && c != p && !names(list, c) implies
            #[trigger] makes_no_difference(blocks, d, c, threshold, kept, max) by {
            if d(c).is_at_most(threshold) {
                assert(b.contains(entry(d, c)));
                assert(!seen(entry(d, c)));
            }
        }
    }
    if list_suffices(blocks, list, d, n, p, threshold, kept, max) {
        assert forall|e: Entry| #[trigger] b.contains(e) && !seen(e) implies passed_over(
            blocks,
            kept_before(kept, e),
            e,
            max,
        ) by {
            assert(makes_no_difference(blocks, d, e.1 as int, threshold, kept, max));
        }
    }
}

/// A table's list of a centroid: the nearest `cap` others, or all of them where
/// there are no more, with their distances, nearest first. What it leaves out
/// comes after everything that it names.
pub proof fn law_neighbor_list(d: Distances, n: int, p: int, cap: int)
    requires
        0 <= p < n <= MAX_CENTROIDS,
        0 <= cap,
    ensures
        ({
            let list = nearest_others(d, n, p, cap);
            &&& list.len() == min_of(cap, n - 1)
            &&& names_others_once(list, n, p)
            &&& forall|i: int, j: int|
                0 <= i < j < list.len() ==> rank(#[trigger] list[i]) < rank(#[trigger] list[j])
            &&& forall|k: int|
                0 <= k < list.len() ==> #[trigger] list[k] == entry(d, list[k].1 as int)
            &&& forall|c: int, k: int|
                0 <= c < n && c != p && !names(list, c) && 0 <= k < list.len() ==> rank(
                    #[trigger] list[k],
                ) < rank(#[trigger] entry(d, c))
            &&& n - 1 <= cap ==> forall|c: int|
                0 <= c < n && c != p ==> #[trigger] names(list, c)
        }),
{
    let all = others(d, n, p);
    let s = nearest_first(all);
    let list = nearest_others(d, n, p, cap);
    lemma_others(d, n, p);
    lemma_nearest_first(all);
    lemma_sort_keeps_unique(all);
    assert forall|k: int| 0 <= k < s.len() implies (#[trigger] s[k]).1 < n && s[k].1 != p && s[k]
        == entry(d, s[k].1 as int) by {
        assert(s.contains(s[k]));
        assert(all.contains(s[k]));
    }
    assert forall|i: int, j: int| 0 <= i < j < s.len() implies rank(#[trigger] s[i]) < rank(
        #[trigger] s[j],
    ) by {
        if rank(s[i]) == rank(s[j]) {
            lemma_rank_injective(s[i], s[j]);
        }
    }
    assert forall|j: int, k: int| 0 <= j < k < list.len() implies (#[trigger] list[j]).1 != (
    #[trigger] list[k]).1 by {
        if list[j].1 == list[k].1 {
            assert(s[j] == s[k]);
        }
    }
    assert forall|c: int| 0 <= c < n && c != p implies s.contains(#[trigger] entry(d, c)) by {
        assert(all.contains(entry(d, c)));
    }
    assert forall|c: int, k: int|
        0 <= c < n && c != p && !names(list, c) && 0 <= k < list.len() implies rank(
        #[trigger] list[k],
    ) < rank(#[trigger] entry(d, c)) by {
        assert(s.contains(entry(d, c)));
        let j = choose|j: int| 0 <= j < s.len() && s[j] == entry(d, c);
        if j < list.len() {
            assert(list[j].1 == c);
        }
        assert(rank(s[k]) < rank(s[j]));
    }
    if n - 1 <= cap {
        assert forall|c: int| 0 <= c < n && c != p implies #[trigger] names(list, c) by {
            assert(s.contains(entry(d, c)));
            let j = choose|j: int| 0 <= j < s.len() && s[j] == entry(d, c);
            assert(list[j].1 == c);
        }
    }
}

/// Whether the scan for a vector's replicas can go by a table with lists of at
/// most `cap`: the scan is not certified, so that all centroids are scanned, or the
/// primary's list suffices.
pub open spec fn pruning_is_safe(
    m: Results,
    cap: int,
    v: Seq<Single>,
    centroids: IvfMatrix,
    p: int,
    epsilon: Single,
    max: int,
) -> bool {
    let values = centroids.values@;
    let rows = centroids.rows as int;
    let dim = centroids.dims as int;
    let ref_dist = distance(m, v, row_of(values, dim, p));
    let eps_sq = m(Op::Mul, epsilon, epsilon);
    let list = neighbor_list(m, values, rows, dim, p, cap);
    let kept = listed_replicas(m, list, v, values, dim, ref_dist, eps_sq, max);
    is_certified(m, rows - 1 > cap, list, kept, ref_dist, epsilon, max) ==> list_suffices(
        relative_neighborhood(m, values, dim),
        list,
        distances_from(m, v, values, dim),
        rows,
        p,
        m(Op::Mul, eps_sq, ref_dist),
        kept,
        max,
    )
}

/// Whether pruning is safe whatever the cap on the lists of the table, of those
/// that tables are kept with.
pub open spec fn pruning_is_always_safe(
    m: Results,
    v: Seq<Single>,
    centroids: IvfMatrix,
    p: int,
    epsilon: Single,
    max: int,
) -> bool {
    forall|cap: int|
        is_usual_cap(cap) ==> #[trigger] pruning_is_safe(m, cap, v, centroids, p, epsilon, max)
}

/// Pruning changes nothing: the replicas found by going by a table of the
/// centroids are those found by scanning all of them, whatever the table's cap,
/// exactly if no certified list leaves out a centroid that makes a difference.
pub proof fn law_pruning_changes_nothing(
    m: Results,
    cap: int,
    v: Seq<Single>,
    centroids: IvfMatrix,
    p: int,
    epsilon: Single,
    max: int,
)
    requires
        centroids.rows <= MAX_CENTROIDS,
        0 <= cap,
        0 <= p < centroids.rows,
        0 <= max,
    ensures
        replicas_of(m, Some(cap), v, centroids, p, epsilon, max) == replicas_of(
            m,
            None,
            v,
            centroids,
            p,
            epsilon,
            max,
        ) <==> pruning_is_safe(m, cap, v, centroids, p, epsilon, max),
{
    let values = centroids.values@;
    let n = centroids.rows as int;
    let dim = centroids.dims as int;
    let ref_dist = distance(m, v, row_of(values, dim, p));
    let eps_sq = m(Op::Mul, epsilon, epsilon);
    let threshold = m(Op::Mul, eps_sq, ref_dist);
    let list = neighbor_list(m, values, n, dim, p, cap);
    let d = distances_from(m, v, values, dim);
    let blocks = relative_neighborhood(m, values, dim);
    let kept = listed_replicas(m, list, v, values, dim, ref_dist, eps_sq, max);
    let all = full_scan_replicas(m, v, values, n, dim, p, ref_dist, eps_sq, max);
    law_neighbor_list(distances_from_row(m, values, dim, p), n, p, cap);
    law_list_is_exact_if_it_suffices(blocks, list, d, n, p, threshold, max);
    lemma_listed_candidates(list, d, n, p, threshold);
    lemma_kept(blocks, listed_candidates(list, d, threshold), max);
    lemma_candidates(d, n, p, threshold);
    lemma_kept(blocks, candidates(d, n, p, threshold), max);
    if indices(kept) == indices(all) {
        assert(indices(kept).len() == kept.len() && indices(all).len() == all.len());
        assert forall|k: int| 0 <= k < kept.len() implies kept[k] == all[k] by {
            assert(listed_candidates(list, d, threshold).contains(kept[k]));
            assert(candidates(d, n, p, threshold).contains(all[k]));
            assert(indices(kept)[k] == indices(all)[k]);
        }
        assert(kept =~= all);
    }
}

/// With a table that leaves no centroid out, pruning never changes anything.
pub proof fn law_untruncated_table_is_exact(
    m: Results,
    cap: int,
    v: Seq<Single>,
    centroids: IvfMatrix,
    p: int,
    epsilon: Single,
    max: int,
)
    requires
        centroids.rows <= MAX_CENTROIDS,
        centroids.rows - 1 <= cap,
        0 <= p < centroids.rows,
        0 <= max,
    ensures
        pruning_is_safe(m, cap, v, centroids, p, epsilon, max),
        replicas_of(m, Some(cap), v, centroids, p, epsilon, max) == replicas_of(
            m,
            None,
            v,
            centroids,
            p,
            epsilon,
            max,
        ),
{
    let d = distances_from_row(m, centroids.values@, centroids.dims as int, p);
    law_neighbor_list(d, centroids.rows as int, p, cap);
    law_pruning_changes_nothing(m, cap, v, centroids, p, epsilon, max);
}

/// With so few centroids that no kept table leaves one out, pruning is always
/// safe.
pub proof fn law_few_centroids_prune_safely(
    m: Results,
    v: Seq<Single>,
    centroids: IvfMatrix,
    p: int,
    epsilon: Single,
    max: int,
)
    requires
        centroids.rows <= MIN_NEIGHBOR_CAP + 1,
        0 <= p < centroids.rows,
        0 <= max,
    ensures
        pruning_is_always_safe(m, v, centroids, p, epsilon, max),
{
    assert forall|cap: int| is_usual_cap(cap) implies #[trigger] pruning_is_safe(
        m,
        cap,
        v,
        centroids,
        p,
        epsilon,
        max,
    ) by {
        law_untruncated_table_is_exact(m, cap, v, centroids, p, epsilon, max);
    }
}

/// What the full scan finds: at most `max` replicas, nearest first, no centroid
/// twice and never the primary, each with its distance from the vector, each
/// within the threshold, and none nearer to one found before it than to the vector.
/// A centroid within the threshold that it does not find is nearer to a replica
/// found before it than to the vector, or comes after `max` replicas.
pub proof fn law_replicas(
    m: Results,
    v: Seq<Single>,
    centroids: Seq<Single>,
    n: int,
    dim: int,
    p: int,
    ref_dist: Single,
    eps_sq: Single,
    max: int,
)
    requires
        0 <= n <= MAX_CENTROIDS,
        0 <= p,
        0 <= max,
    ensures
        ({
            let found = full_scan_replicas(m, v, centroids, n, dim, p, ref_dist, eps_sq, max);
            let d = distances_from(m, v, centroids, dim);
            &&& found.len() <= max
            &&& names_others_once(found, n, p)
            &&& ascending(found)
            &&& forall|k: int|
                0 <= k < found.len() ==> #[trigger] found[k] == entry(d, found[k].1 as int)
                    && found[k].0.is_at_most(m(Op::Mul, eps_sq, ref_dist))
            &&& forall|j: int, k: int|
                0 <= j < k < found.len() ==> !distance(
                    m,
                    row_of(centroids, dim, (#[trigger] found[k]).1 as int),
                    row_of(centroids, dim, (#[trigger] found[j]).1 as int),
                ).is_below(distance(m, v, row_of(centroids, dim, found[k].1 as int)))
            &&& forall|c: int|
                0 <= c < n && c != p && distance(m, v, row_of(centroids, dim, c)).is_at_most(
                    m(Op::Mul, eps_sq, ref_dist),
                ) && !(#[trigger] names(found, c)) ==> {
                    ||| exists|j: int|
                        0 <= j < found.len() && rank(#[trigger] found[j]) < rank(entry(d, c))
                            && distance(
                            m,
                            row_of(centroids, dim, c),
                            row_of(centroids, dim, found[j].1 as int),
                        ).is_below(distance(m, v, row_of(centroids, dim, c)))
                    ||| found.len() == max && forall|j: int|
                        0 <= j < found.len() ==> rank(#[trigger] found[j]) < rank(entry(d, c))
                }
        }),
{
    let d = distances_from(m, v, centroids, dim);
    let threshold = m(Op::Mul, eps_sq, ref_dist);
    let cands = candidates(d, n, p, threshold);
    let blocks = relative_neighborhood(m, centroids, dim);
    let found = kept_of(blocks, cands, max);
    lemma_candidates(d, n, p, threshold);
    lemma_kept(blocks, cands, max);
    assert forall|k: int| 0 <= k < found.len() implies #[trigger] found[k] == entry(
        d,
        found[k].1 as int,
    ) && found[k].0.is_at_most(threshold) && found[k].1 < n && found[k].1 != p by {
        assert(cands.contains(found[k]));
    }
    assert forall|j: int, k: int| 0 <= j < k < found.len() implies (#[trigger] found[j]).1 != (
    #[trigger] found[k]).1 by {
        assert(found[j] != found[k]);
    }
    assert forall|j: int, k: int| 0 <= j < k < found.len() implies !distance(
        m,
        row_of(centroids, dim, (#[trigger] found[k]).1 as int),
        row_of(centroids, dim, (#[trigger] found[j]).1 as int),
    ).is_below(distance(m, v, row_of(centroids, dim, found[k].1 as int))) by {
        assert(!blocks(found[j], found[k]));
    }
    assert forall|c: int|
        0 <= c < n && c != p && distance(m, v, row_of(centroids, dim, c)).is_at_most(threshold)
            && !(#[trigger] names(found, c)) implies {
        ||| exists|j: int|
            0 <= j < found.len() && rank(#[trigger] found[j]) < rank(entry(d, c)) && distance(
                m,
                row_of(centroids, dim, c),
                row_of(centroids, dim, found[j].1 as int),
            ).is_below(distance(m, v, row_of(centroids, dim, c)))
        ||| found.len() == max && forall|j: int|
            0 <= j < found.len() ==> rank(#[trigger] found[j]) < rank(entry(d, c))
    } by {
        assert(cands.contains(entry(d, c)));
        if found.contains(entry(d, c)) {
            let k = choose|k: int| 0 <= k < found.len() && found[k] == entry(d, c);
            assert(found[k].1 == c);
        }
        lemma_left_out(blocks, cands, max, entry(d, c));
        if exists|j: int|
            0 <= j < found.len() && rank(#[trigger] found[j]) < rank(entry(d, c)) && blocks(
                found[j],
                entry(d, c),
            ) {
            let j = choose|j: int|
                0 <= j < found.len() && rank(#[trigger] found[j]) < rank(entry(d, c)) && blocks(
                    found[j],
                    entry(d, c),
                );
            assert(distance(
                m,
                row_of(centroids, dim, c),
                row_of(centroids, dim, found[j].1 as int),
            ).is_below(distance(m, v, row_of(centroids, dim, c))));
        }
    }
}

} // verus!
