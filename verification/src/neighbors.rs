//! The centroid-neighbor table: for each centroid, its nearest other centroids.
use vstd::prelude::*;
use core::marker::PhantomData;
use crate::arithmetic::{distance, is_arithmetic, results, row, row_of, squared_distance};
use crate::arithmetic::{Arithmetic, Results};
use crate::arithmetic::lemma_matrix_has_row;
use crate::heap::MaxHeap;
use crate::single::{ascending, nearer, nearest_first, rank, Entry, Single};
use crate::single::lemma_ascending_is_sorted;

verus! {

/// How many centroids there can be, for an index to fit in 32 bits.
pub const MAX_CENTROIDS: u64 = 0x1_0000_0000;

/// The distance from some vector to each centroid.
pub type Distances = spec_fn(int) -> Single;

/// The distances from `v` to the rows of a centroid matrix.
pub open spec fn distances_from(m: Results, v: Seq<Single>, centroids: Seq<Single>, dim: int) -> Distances {
    |c: int| distance(m, v, row_of(centroids, dim, c))
}

/// The entry of centroid `c`.
pub open spec fn entry(d: Distances, c: int) -> Entry {
    (d(c), c as u32)
}

/// The entries of the first `n` centroids, in the order of their indices.
pub open spec fn entries(d: Distances, n: int) -> Seq<Entry> {
    Seq::new(n as nat, |c: int| entry(d, c))
}

/// The entries of the first `n` centroids but for centroid `p`.
pub open spec fn others(d: Distances, n: int, p: int) -> Seq<Entry> {
    entries(d, n).filter(|e: Entry| e.1 != p)
}

/// The smaller of two numbers.
pub open spec fn min_of(a: int, b: int) -> int {
    if a <= b {
        a
    } else {
        b
    }
}

/// The nearest `cap` of the first `n` centroids other than `p`, nearest first;
/// all of them where there are no more than `cap`.
pub open spec fn nearest_others(d: Distances, n: int, p: int, cap: int) -> Seq<Entry> {
    nearest_first(others(d, n, p)).take(min_of(cap, others(d, n, p).len() as int))
}

/// The distances from centroid `p` to every centroid.
pub open spec fn distances_from_row(m: Results, centroids: Seq<Single>, dim: int, p: int) -> Distances {
    distances_from(m, row_of(centroids, dim, p), centroids, dim)
}

/// The list of centroid `p` in a table of `rows` centroids: its nearest `cap`
/// others.
pub open spec fn neighbor_list(
    m: Results,
    centroids: Seq<Single>,
    rows: int,
    dim: int,
    p: int,
    cap: int,
) -> Seq<Entry> {
    nearest_others(distances_from_row(m, centroids, dim, p), rows, p, cap)
}

/// Whether `lists` holds, for each of `rows` centroids, its nearest `cap` others.
pub open spec fn are_neighbor_lists(
    lists: Seq<Seq<Entry>>,
    m: Results,
    centroids: Seq<Single>,
    rows: int,
    dim: int,
    cap: int,
) -> bool {
    &&& lists.len() == rows
    &&& forall|p: int|
        0 <= p < rows ==> #[trigger] lists[p] == neighbor_list(m, centroids, rows, dim, p, cap)
}

pub proof fn lemma_others_step(d: Distances, n: int, p: int)
    requires
        0 <= n,
    ensures
        others(d, n + 1, p) == if n as u32 != p {
            others(d, n, p).push(entry(d, n))
        } else {
            others(d, n, p)
        },
{
    reveal(Seq::filter);
    assert(entries(d, n + 1).drop_last() =~= entries(d, n));
    assert(entries(d, n + 1).last() == entry(d, n));
}

/// What the entries of the other centroids are.
pub proof fn lemma_others(d: Distances, n: int, p: int)
    requires
        0 <= n <= MAX_CENTROIDS,
        0 <= p,
    ensures
        others(d, n, p).len() == if p < n {
            n - 1
        } else {
            n
        },
        forall|e: Entry| #[trigger]
            others(d, n, p).contains(e) <==> e.1 < n && e.1 != p && e == entry(d, e.1 as int),
        others(d, n, p).no_duplicates(),
    decreases n,
{
    broadcast use vstd::seq_lib::group_seq_properties;

    if n == 0 {
        reveal(Seq::filter);
        assert(entries(d, 0) =~= Seq::<Entry>::empty());
        assert(others(d, 0, p) =~= Seq::<Entry>::empty());
    } else {
        lemma_others(d, n - 1, p);
        lemma_others_step(d, n - 1, p);
        let before = others(d, n - 1, p);
        assert forall|e: Entry| #[trigger] others(d, n, p).contains(e) <==> e.1 < n && e.1 != p && e
            == entry(d, e.1 as int) by {
            assert(others(d, n, p).contains(e) <==> before.contains(e) || (n - 1 != p && e == entry(
                d,
                n - 1,
            )));
        }
        assert(!before.contains(entry(d, n - 1)));
    }
}

/// Splitting a multiset of entries into near ones and far ones splits its sorted
/// form.
proof fn lemma_near_part_is_prefix(near: Seq<Entry>, far: Seq<Entry>, all: Seq<Entry>)
    requires
        ascending(near),
        all.to_multiset() == near.to_multiset().add(far.to_multiset()),
        forall|i: int, j: int|
            0 <= i < near.len() && 0 <= j < far.len() ==> rank(#[trigger] near[i]) <= rank(
                #[trigger] far[j],
            ),
    ensures
        all.len() == near.len() + far.len(),
        near == nearest_first(all).take(near.len() as int),
{
    broadcast use vstd::seq_lib::group_to_multiset_ensures;
    broadcast use vstd::multiset::group_multiset_axioms;

    let rest = nearest_first(far);
    crate::single::lemma_nearest_first(far);
    vstd::seq_lib::lemma_multiset_commutative(near, rest);
    let whole = near + rest;
    assert forall|i: int, j: int| 0 <= i < j < whole.len() implies rank(#[trigger] whole[i]) <= rank(
        #[trigger] whole[j],
    ) by {
        if i < near.len() && j >= near.len() {
            let e = rest[j - near.len()];
            assert(rest.contains(e));
            assert(far.contains(e));
            let k = choose|k: int| 0 <= k < far.len() && far[k] == e;
            assert(rank(near[i]) <= rank(far[k]));
        }
    }
    lemma_ascending_is_sorted(whole, all);
    assert(near =~= whole.take(near.len() as int));
    assert(all.len() == all.to_multiset().len());
    assert(whole.len() == whole.to_multiset().len());
}

/// The nearest `cap` other centroids of centroid `p`, nearest first: one list of
/// the table.
pub fn nearest_neighbors<A: Arithmetic>(
    centroids: &[Single],
    rows: usize,
    dim: usize,
    p: usize,
    cap: usize,
) -> (list: Vec<Entry>)
    requires
        is_arithmetic::<A>(),
        p < rows <= MAX_CENTROIDS,
        rows * dim <= centroids.len(),
    ensures
        list@ == neighbor_list(
            results::<A>(),
            centroids@,
            rows as int,
            dim as int,
            p as int,
            cap as int,
        ),
{
    let ghost d = distances_from_row(results::<A>(), centroids@, dim as int, p as int);
    proof {
        lemma_matrix_has_row(centroids@, dim as int, rows as int, p as int);
    }
    let from = row(centroids, dim, p);
    // The heap keeps the nearest `cap` so far; its top, the farthest of them, is
    // the one to leave when a nearer centroid comes.
    let mut heap = MaxHeap::new();
    let ghost mut dropped = Seq::<Entry>::empty();
    let mut c: usize = 0;
    proof {
        broadcast use vstd::seq_lib::group_to_multiset_ensures;
        broadcast use vstd::multiset::group_multiset_axioms;

        reveal(Seq::filter);
        assert(entries(d, 0) =~= Seq::<Entry>::empty());
        assert(others(d, 0, p as int).to_multiset() =~= heap@.add(dropped.to_multiset()));
    }
    while c < rows
        invariant
            c <= rows <= MAX_CENTROIDS,
            p < rows,
            rows * dim <= centroids.len(),
            is_arithmetic::<A>(),
            from@ == row_of(centroids@, dim as int, p as int),
            d == distances_from_row(results::<A>(), centroids@, dim as int, p as int),
            others(d, c as int, p as int).to_multiset() == heap@.add(dropped.to_multiset()),
            heap@.len() <= cap,
            dropped.len() > 0 ==> heap@.len() == cap,
            forall|e: Entry, j: int| #[trigger]
                heap@.contains(e) && 0 <= j < dropped.len() ==> rank(e) <= rank(#[trigger] dropped[j]),
        decreases rows - c,
    {
        proof {
            lemma_others_step(d, c as int, p as int);
        }
        if c != p {
            proof {
                lemma_matrix_has_row(centroids@, dim as int, rows as int, c as int);
            }
            let e: Entry = (squared_distance::<A>(from, row(centroids, dim, c)), c as u32);
            assert(e == entry(d, c as int));
            let ghost before = heap@;
            let ghost gone = dropped;
            proof {
                broadcast use vstd::seq_lib::group_to_multiset_ensures;

                assert(others(d, c + 1, p as int).to_multiset() == others(d, c as int, p as int).to_multiset().insert(e));
            }
            if heap.len() < cap {
                heap.push(e);
                proof {
                    broadcast use vstd::multiset::group_multiset_axioms;

                    assert(others(d, c + 1, p as int).to_multiset() =~= heap@.add(dropped.to_multiset()));
                }
            } else {
                let closer: bool = match heap.peek() {
                    Some(top) => nearer(e, top),
                    None => false,
                };
                if closer {
                    let top = heap.pop();
                    heap.push(e);
                    proof {
                        broadcast use vstd::seq_lib::group_to_multiset_ensures;
                        broadcast use vstd::multiset::group_multiset_axioms;

                        dropped = gone.push(top->0);
                        assert(others(d, c + 1, p as int).to_multiset() =~= heap@.add(
                            dropped.to_multiset(),
                        ));
                        assert forall|x: Entry, j: int| #[trigger]
                            heap@.contains(x) && 0 <= j < dropped.len() implies rank(x) <= rank(
                            #[trigger] dropped[j],
                        ) by {
                            assert(x == e || before.contains(x));
                            assert(before.contains(top->0));
                            if j < gone.len() {
                                assert(rank(top->0) <= rank(gone[j]));
                            }
                        }
                    }
                } else {
                    proof {
                        broadcast use vstd::seq_lib::group_to_multiset_ensures;
                        broadcast use vstd::multiset::group_multiset_axioms;

                        dropped = gone.push(e);
                        assert(others(d, c + 1, p as int).to_multiset() =~= heap@.add(
                            dropped.to_multiset(),
                        ));
                        assert forall|x: Entry, j: int| #[trigger]
                            heap@.contains(x) && 0 <= j < dropped.len() implies rank(x) <= rank(
                            #[trigger] dropped[j],
                        ) by {
                            if j < gone.len() {
                                assert(rank(x) <= rank(gone[j]));
                            }
                        }
                    }
                }
            }
        }
        c = c + 1;
    }
    let ghost kept = heap@;
    let list = heap.into_sorted_vec();
    proof {
        broadcast use vstd::seq_lib::group_to_multiset_ensures;

        assert forall|i: int, j: int| 0 <= i < list@.len() && 0 <= j < dropped.len() implies rank(
            #[trigger] list@[i],
        ) <= rank(#[trigger] dropped[j]) by {
            assert(list@.contains(list@[i]));
            assert(kept.contains(list@[i]));
        }
        lemma_near_part_is_prefix(list@, dropped, others(d, rows as int, p as int));
    }
    list
}

/// For each centroid, its nearest other centroids (ascending distance, ties
/// broken by index). It is built once for a set of centroids and lets the scan
/// for a vector's replicas look at a neighborhood only. The table keeps the
/// centroids that it was built from, so that it is never taken for a table of
/// others.
#[derive(Debug)]
pub struct CentroidNeighbors<A: Arithmetic> {
    neighbors: Vec<Vec<Entry>>,
    rows: usize,
    truncated: bool,
    fingerprint: u64,
    centroids: Vec<Single>,
    dim: usize,
    arithmetic: PhantomData<A>,
}

impl<A: Arithmetic> CentroidNeighbors<A> {
    /// The list of each centroid.
    pub closed spec fn lists(&self) -> Seq<Seq<Entry>> {
        Seq::new(self.neighbors@.len(), |p: int| self.neighbors@[p]@)
    }

    /// The number of centroids.
    pub closed spec fn row_count(&self) -> int {
        self.rows as int
    }

    /// Whether the lists leave centroids out.
    pub closed spec fn is_truncated(&self) -> bool {
        self.truncated
    }

    /// The fingerprint that the table was built under.
    pub closed spec fn key(&self) -> u64 {
        self.fingerprint
    }

    /// The values of the centroids that the table was built from.
    pub closed spec fn values(&self) -> Seq<Single> {
        self.centroids@
    }

    /// The dimensionality of the centroids that the table was built from.
    pub closed spec fn dimension(&self) -> int {
        self.dim as int
    }

    /// Whether this is the table of the given centroids: with the nearest `cap`
    /// others of each, and marked as truncated if that leaves any out.
    pub open spec fn is_table_of(&self, centroids: Seq<Single>, rows: int, dim: int, cap: int) -> bool {
        &&& self.values() == centroids
        &&& self.row_count() == rows
        &&& self.dimension() == dim
        &&& 0 <= rows <= MAX_CENTROIDS
        &&& 0 <= dim
        &&& 0 <= cap
        &&& rows * dim <= centroids.len()
        &&& are_neighbor_lists(self.lists(), results::<A>(), centroids, rows, dim, cap)
        &&& self.is_truncated() == (rows - 1 > cap)
    }

    /// Every table is the table of its centroids, for some cap on its lists.
    #[verifier::type_invariant]
    pub open spec fn is_table(&self) -> bool {
        exists|cap: int| #[trigger]
            self.is_table_of(self.values(), self.row_count(), self.dimension(), cap)
    }

    /// The nearest other centroids of centroid `p`, nearest first.
    pub fn neighbors(&self, p: usize) -> (list: &Vec<Entry>)
        requires
            p < self.row_count(),
        ensures
            list@ == self.lists()[p as int],
    {
        proof {
            use_type_invariant(self);
        }
        &self.neighbors[p]
    }

    /// The number of centroids.
    pub fn rows(&self) -> (rows: usize)
        ensures
            rows == self.row_count(),
    {
        self.rows
    }

    /// Whether each list is a strict subset of the other centroids. Where it is
    /// not, each list holds all of them.
    pub fn truncated(&self) -> (truncated: bool)
        ensures
            truncated == self.is_truncated(),
    {
        self.truncated
    }

    /// The fingerprint that the table was built under.
    pub fn fingerprint(&self) -> (fingerprint: u64)
        ensures
            fingerprint == self.key(),
    {
        self.fingerprint
    }

    /// Whether the table was built from the given centroids.
    pub fn is_of(&self, centroids: &[Single], rows: usize, dim: usize) -> (r: bool)
        ensures
            r == (self.values() == centroids@ && self.row_count() == rows && self.dimension()
                == dim),
    {
        if self.rows != rows || self.dim != dim || self.centroids.len() != centroids.len() {
            return false;
        }
        let mut i: usize = 0;
        while i < centroids.len()
            invariant
                i <= centroids.len(),
                self.centroids.len() == centroids.len(),
                self.centroids@.take(i as int) == centroids@.take(i as int),
            decreases centroids.len() - i,
        {
            if self.centroids[i].bits != centroids[i].bits {
                assert(self.centroids@[i as int] != centroids@[i as int]);
                return false;
            }
            proof {
                assert(self.centroids@.take(i + 1) =~= self.centroids@.take(i as int).push(
                    self.centroids@[i as int],
                ));
                assert(centroids@.take(i + 1) =~= centroids@.take(i as int).push(
                    centroids@[i as int],
                ));
            }
            i = i + 1;
        }
        proof {
            assert(self.centroids@.take(i as int) =~= self.centroids@);
            assert(centroids@.take(i as int) =~= centroids@);
        }
        true
    }

    /// Puts a table together from its lists.
    pub fn from_lists(
        centroids: &[Single],
        rows: usize,
        dim: usize,
        cap: usize,
        fingerprint: u64,
        lists: Vec<Vec<Entry>>,
    ) -> (table: CentroidNeighbors<A>)
        requires
            rows <= MAX_CENTROIDS,
            rows * dim <= centroids.len(),
            are_neighbor_lists(
                Seq::new(lists@.len(), |p: int| lists@[p]@),
                results::<A>(),
                centroids@,
                rows as int,
                dim as int,
                cap as int,
            ),
        ensures
            table.is_table_of(centroids@, rows as int, dim as int, cap as int),
            table.key() == fingerprint,
    {
        let truncated: bool = rows > 0 && rows - 1 > cap;
        let mut own: Vec<Single> = Vec::new();
        let mut i: usize = 0;
        while i < centroids.len()
            invariant
                i <= centroids.len(),
                own@ == centroids@.take(i as int),
            decreases centroids.len() - i,
        {
            own.push(centroids[i]);
            proof {
                assert(own@ =~= centroids@.take(i + 1));
            }
            i = i + 1;
        }
        proof {
            assert(own@ =~= centroids@);
        }
        let ghost g = CentroidNeighbors::<A> {
            neighbors: lists,
            rows,
            truncated,
            fingerprint,
            centroids: own,
            dim,
            arithmetic: PhantomData,
        };
        assert(g.is_table_of(centroids@, rows as int, dim as int, cap as int));
        CentroidNeighbors {
            neighbors: lists,
            rows,
            truncated,
            fingerprint,
            centroids: own,
            dim,
            arithmetic: PhantomData,
        }
    }

    /// Builds the table of a centroid matrix, with lists of at most `cap`, under
    /// the given fingerprint.
    pub fn build(
        centroids: &[Single],
        rows: usize,
        dim: usize,
        cap: usize,
        fingerprint: u64,
    ) -> (table: CentroidNeighbors<A>)
        requires
            is_arithmetic::<A>(),
            rows <= MAX_CENTROIDS,
            rows * dim <= centroids.len(),
        ensures
            table.is_table_of(centroids@, rows as int, dim as int, cap as int),
            table.key() == fingerprint,
    {
        let mut lists: Vec<Vec<Entry>> = Vec::new();
        let mut p: usize = 0;
        while p < rows
            invariant
                p <= rows <= MAX_CENTROIDS,
                is_arithmetic::<A>(),
                rows * dim <= centroids.len(),
                lists.len() == p,
                forall|q: int|
                    0 <= q < p ==> (#[trigger] lists@[q])@ == neighbor_list(
                        results::<A>(),
                        centroids@,
                        rows as int,
                        dim as int,
                        q,
                        cap as int,
                    ),
            decreases rows - p,
        {
            lists.push(nearest_neighbors::<A>(centroids, rows, dim, p, cap));
            p = p + 1;
        }
        Self::from_lists(centroids, rows, dim, cap, fingerprint, lists)
    }
}

} // verus!
