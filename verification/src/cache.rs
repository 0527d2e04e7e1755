//! The slot in which a clusterer keeps its centroid-neighbor table.
use vstd::prelude::*;
use std::sync::Arc;
use parking_lot::{Mutex, MutexGuard};
use crate::arithmetic::Arithmetic;
use crate::fingerprint::{centroid_fingerprint, fingerprint_of};
use crate::neighbors::CentroidNeighbors;
use crate::single::Single;

verus! {

/// The mutex of the `parking_lot` crate, over whichever raw lock.
#[verifier::external_type_specification]
#[verifier::external_body]
#[verifier::reject_recursive_types(R)]
#[verifier::reject_recursive_types(T)]
pub struct ExMutex<R, T: ?Sized>(parking_lot::lock_api::Mutex<R, T>);

/// The raw lock of the `parking_lot` crate.
#[verifier::external_type_specification]
#[verifier::external_body]
pub struct ExRawMutex(parking_lot::RawMutex);

/// The fewest neighbors that are stored per centroid.
pub const MIN_NEIGHBOR_CAP: usize = 128;

/// The most neighbors that are stored per centroid.
pub const MAX_NEIGHBOR_CAP: usize = 1024;

/// Whether a cap is one that tables are kept with.
pub open spec fn is_usual_cap(cap: int) -> bool {
    MIN_NEIGHBOR_CAP <= cap <= MAX_NEIGHBOR_CAP
}

/// Whether a table is one that is kept: the table of its centroids, with a usual
/// cap.
pub open spec fn has_usual_cap<A: Arithmetic>(table: CentroidNeighbors<A>) -> bool {
    exists|cap: int| #[trigger]
        table.is_table_of(table.values(), table.row_count(), table.dimension(), cap)
            && is_usual_cap(cap)
}

/// What a slot keeps: a table with a usual cap.
#[derive(Debug)]
#[verifier::reject_recursive_types(A)]
pub struct KeptTable<A: Arithmetic> {
    table: Arc<CentroidNeighbors<A>>,
}

impl<A: Arithmetic> KeptTable<A> {
    /// The table.
    pub closed spec fn table(&self) -> Arc<CentroidNeighbors<A>> {
        self.table
    }

    /// Every kept table has a usual cap.
    #[verifier::type_invariant]
    pub closed spec fn is_kept_table(&self) -> bool {
        has_usual_cap(*self.table)
    }

    /// A table to keep.
    pub fn new(table: Arc<CentroidNeighbors<A>>) -> (kept: KeptTable<A>)
        requires
            has_usual_cap(*table),
        ensures
            kept.table() == table,
    {
        KeptTable { table }
    }

    /// Gives out the table.
    pub fn give_out(&self) -> (table: Arc<CentroidNeighbors<A>>)
        ensures
            table == self.table(),
            has_usual_cap(*table),
    {
        proof {
            use_type_invariant(self);
        }
        self.table.clone()
    }
}

/// A place for one table, shared between clones of a clusterer.
pub type TableSlot<A> = Arc<Mutex<Option<KeptTable<A>>>>;

/// The guard that holds the lock of a slot: a `parking_lot::MutexGuard`.
#[verifier::external_body]
#[verifier::reject_recursive_types(A)]
pub struct SlotGuard<'a, A: Arithmetic> {
    guard: MutexGuard<'a, Option<KeptTable<A>>>,
}

/// A slot while its lock is held. The guard is opaque; the other fields are what
/// the contracts of [`lock_slot`], [`read_slot`] and [`write_slot`] take it to be
/// of, to have found and to hold. Only these functions touch them.
#[verifier::reject_recursive_types(A)]
pub struct HeldSlot<'a, A: Arithmetic> {
    guard: SlotGuard<'a, A>,
    slot: Ghost<TableSlot<A>>,
    found: Ghost<Option<KeptTable<A>>>,
    kept: Ghost<Option<KeptTable<A>>>,
}

impl<'a, A: Arithmetic> HeldSlot<'a, A> {
    /// The slot that is held.
    pub closed spec fn slot(&self) -> TableSlot<A> {
        self.slot@
    }

    /// What was in the slot when its lock was taken.
    pub closed spec fn found(&self) -> Option<KeptTable<A>> {
        self.found@
    }

    /// What is in the slot.
    pub closed spec fn kept(&self) -> Option<KeptTable<A>> {
        self.kept@
    }

    /// The table in the slot.
    pub open spec fn table(&self) -> Option<Arc<CentroidNeighbors<A>>> {
        table_of(self.kept())
    }

    /// The table that was in the slot when its lock was taken.
    pub open spec fn found_table(&self) -> Option<Arc<CentroidNeighbors<A>>> {
        table_of(self.found())
    }
}

/// The table that a slot keeps.
pub open spec fn table_of<A: Arithmetic>(kept: Option<KeptTable<A>>) -> Option<
    Arc<CentroidNeighbors<A>>,
> {
    match kept {
        Some(k) => Some(k.table()),
        None => None,
    }
}

/// `Mutex::new` makes a mutex, here over an empty place. What it holds cannot be
/// said of the mutex: whoever shares it may change it.
#[verifier::external_body]
pub(crate) fn empty_slot<A: Arithmetic>() -> (slot: TableSlot<A>) {
    Arc::new(Mutex::new(None))
}

/// `Mutex::lock` waits for the lock of the given slot. Nothing is said of the table
/// in the slot, which is whatever the last holder of the lock left there: it is
/// what the lock has found.
///
/// A thread that holds the lock already would wait for ever. Only [`table_for`]
/// locks a slot; while it holds the lock, it runs nothing that was handed in and
/// nothing that locks.
#[verifier::external_body]
fn lock_slot<'a, A: Arithmetic>(slot: &'a TableSlot<A>) -> (held: HeldSlot<'a, A>)
    ensures
        held.slot() == *slot,
        held.found() == held.kept(),
{
    HeldSlot {
        guard: SlotGuard { guard: slot.lock() },
        slot: Ghost(*slot),
        found: Ghost(None),
        kept: Ghost(None),
    }
}

/// `MutexGuard::deref` reads what the slot holds.
#[verifier::external_body]
fn read_slot<'a, 'b, A: Arithmetic>(held: &'b HeldSlot<'a, A>) -> (kept: &'b Option<KeptTable<A>>)
    ensures
        *kept == held.kept(),
{
    &*held.guard.guard
}

/// `MutexGuard::deref_mut` lets the holder of the lock replace what the slot
/// holds.
#[verifier::external_body]
fn write_slot<'a, A: Arithmetic>(held: &mut HeldSlot<'a, A>, kept: KeptTable<A>)
    ensures
        final(held).kept() == Some(kept),
        final(held).slot() == old(held).slot(),
        final(held).found() == old(held).found(),
{
    *held.guard.guard = Some(kept);
}

/// The table in a held slot.
fn kept_table<'a, A: Arithmetic>(held: &HeldSlot<'a, A>) -> (table: Option<
    Arc<CentroidNeighbors<A>>,
>)
    ensures
        table == held.table(),
        table matches Some(t) ==> has_usual_cap(*t),
{
    match read_slot(held) {
        Some(kept) => Some(kept.give_out()),
        None => None,
    }
}

/// Whether a table can serve for the given centroids: it was built from them, and
/// under their fingerprint.
pub open spec fn serves<A: Arithmetic>(
    table: CentroidNeighbors<A>,
    centroids: Seq<Single>,
    rows: int,
    dim: int,
    fingerprint: u64,
) -> bool {
    &&& table.row_count() == rows
    &&& table.key() == fingerprint
    &&& table.dimension() == dim
    &&& table.values() == centroids
}

/// The neighbors stored per centroid, for a cap on replicas: thirty-two times as
/// many, but at least 128 and at most 1024. What a scan finds does not depend on
/// it, wherever pruning is safe: where the table does not reach far enough, every
/// centroid is scanned.
pub open spec fn neighbor_cap_of(max_replicas: int) -> int {
    if max_replicas * 32 < MIN_NEIGHBOR_CAP {
        MIN_NEIGHBOR_CAP as int
    } else if max_replicas * 32 > MAX_NEIGHBOR_CAP {
        MAX_NEIGHBOR_CAP as int
    } else {
        max_replicas * 32
    }
}

/// Computes [`neighbor_cap_of`].
pub fn neighbor_cap(max_replicas: usize) -> (cap: usize)
    ensures
        cap == neighbor_cap_of(max_replicas as int),
{
    if max_replicas < MIN_NEIGHBOR_CAP / 32 {
        MIN_NEIGHBOR_CAP
    } else if max_replicas > MAX_NEIGHBOR_CAP / 32 {
        MAX_NEIGHBOR_CAP
    } else {
        max_replicas * 32
    }
}

/// The kept table, if there is one that serves for the given centroids.
pub open spec fn reusable<A: Arithmetic>(
    kept: Option<Arc<CentroidNeighbors<A>>>,
    centroids: Seq<Single>,
    rows: int,
    dim: int,
    fingerprint: u64,
) -> Option<Arc<CentroidNeighbors<A>>> {
    match kept {
        Some(table) => if serves(*table, centroids, rows, dim, fingerprint) {
            Some(table)
        } else {
            None
        },
        None => None,
    }
}

/// Computes [`reusable`]. The fingerprint tells most other centroids apart before
/// the values are looked at.
pub fn reuse<A: Arithmetic>(
    kept: Option<Arc<CentroidNeighbors<A>>>,
    centroids: &[Single],
    rows: usize,
    dim: usize,
    fingerprint: u64,
) -> (found: Option<Arc<CentroidNeighbors<A>>>)
    ensures
        found == reusable(kept, centroids@, rows as int, dim as int, fingerprint),
{
    match kept {
        Some(table) => {
            if table.rows() == rows && table.fingerprint() == fingerprint && table.is_of(
                centroids,
                rows,
                dim,
            ) {
                Some(table)
            } else {
                None
            }
        },
        None => None,
    }
}

/// Keeps a table in a slot: the one that is there if it serves for the given
/// centroids, else the new one. Gives out the one that is kept.
pub fn settle<'a, A: Arithmetic>(
    held: &mut HeldSlot<'a, A>,
    built: Arc<CentroidNeighbors<A>>,
    centroids: &[Single],
    rows: usize,
    dim: usize,
    fingerprint: u64,
) -> (table: Arc<CentroidNeighbors<A>>)
    requires
        has_usual_cap(*built),
    ensures
        final(held).table() == Some(table),
        final(held).slot() == old(held).slot(),
        final(held).found() == old(held).found(),
        has_usual_cap(*table),
        table == match reusable(
            old(held).table(),
            centroids@,
            rows as int,
            dim as int,
            fingerprint,
        ) {
            Some(kept) => kept,
            None => built,
        },
{
    match reuse(kept_table(held), centroids, rows, dim, fingerprint) {
        Some(kept) => kept,
        None => {
            write_slot(held, KeptTable::new(built.clone()));
            built
        },
    }
}

/// Whether `build` builds, for a cap on replicas, the table of the given
/// centroids under their fingerprint.
pub open spec fn builds_table<
    A: Arithmetic,
    B: FnOnce(&[Single], usize, usize, usize, u64) -> CentroidNeighbors<A>,
>(build: B, values: Seq<Single>, rows: usize, dim: usize, max_replicas: usize) -> bool {
    let cap = neighbor_cap_of(max_replicas as int) as usize;
    let fingerprint = fingerprint_of(values, rows as int, dim as int) as u64;
    &&& forall|centroids: &[Single]|
        centroids@ == values ==> #[trigger] build.requires(
            (centroids, rows, dim, cap, fingerprint),
        )
    &&& forall|centroids: &[Single], table: CentroidNeighbors<A>|
        centroids@ == values && #[trigger] build.ensures(
            (centroids, rows, dim, cap, fingerprint),
            table,
        ) ==> table.is_table_of(values, rows as int, dim as int, cap as int) && table.key()
            == fingerprint
}

/// Whether a held slot is left as asked: it is the given slot, it holds the given
/// table, and this is the one that the lock has found, if it serves for the given
/// centroids, or else the table of these centroids with the cap for the given cap
/// on replicas.
pub open spec fn is_left_with<A: Arithmetic>(
    held: HeldSlot<'_, A>,
    slot: TableSlot<A>,
    table: Arc<CentroidNeighbors<A>>,
    centroids: Seq<Single>,
    rows: int,
    dim: int,
    max_replicas: int,
) -> bool {
    let fingerprint = fingerprint_of(centroids, rows, dim) as u64;
    &&& held.slot() == slot
    &&& held.table() == Some(table)
    &&& match reusable(held.found_table(), centroids, rows, dim, fingerprint) {
        Some(kept) => table == kept,
        None => table.key() == fingerprint && table.is_table_of(
            centroids,
            rows,
            dim,
            neighbor_cap_of(max_replicas),
        ),
    }
}

/// The table of the given centroids, together with the slot, still locked, that
/// holds it. A kept table that serves is given out. Otherwise a table is built,
/// with the lock released, and kept, unless another one that serves has been kept
/// meanwhile: then that one is given out.
pub(crate) fn table_for<
    'a,
    A: Arithmetic,
    B: FnOnce(&[Single], usize, usize, usize, u64) -> CentroidNeighbors<A>,
>(
    slot: &'a TableSlot<A>,
    centroids: &[Single],
    rows: usize,
    dim: usize,
    max_replicas: usize,
    build: B,
) -> (r: (Arc<CentroidNeighbors<A>>, HeldSlot<'a, A>))
    requires
        builds_table(build, centroids@, rows, dim, max_replicas),
    ensures
        is_left_with(
            r.1,
            *slot,
            r.0,
            centroids@,
            rows as int,
            dim as int,
            max_replicas as int,
        ),
        has_usual_cap(*r.0),
        serves(
            *r.0,
            centroids@,
            rows as int,
            dim as int,
            fingerprint_of(centroids@, rows as int, dim as int) as u64,
        ),
{
    let fingerprint = centroid_fingerprint(centroids, rows, dim);
    {
        let held = lock_slot(slot);
        if let Some(kept) = reuse(kept_table(&held), centroids, rows, dim, fingerprint) {
            return (kept, held);
        }
    }
    let cap: usize = neighbor_cap(max_replicas);
    let built = Arc::new(build(centroids, rows, dim, cap, fingerprint));
    assert(has_usual_cap(*built)) by {
        assert(built.is_table_of(centroids@, rows as int, dim as int, cap as int));
    }
    let mut held = lock_slot(slot);
    let table = settle(&mut held, built, centroids, rows, dim, fingerprint);
    (table, held)
}

/// A table never serves for other centroids than its own, even if they share a
/// fingerprint.
pub proof fn law_other_centroids_are_not_served<A: Arithmetic>(
    table: CentroidNeighbors<A>,
    others: Seq<Single>,
    rows: int,
    dim: int,
    fingerprint: u64,
)
    requires
        table.values() != others || table.row_count() != rows || table.dimension() != dim,
    ensures
        !serves(table, others, rows, dim, fingerprint),
{
}

/// A table that was kept is given out for as long as the centroids stay the same,
/// whatever the cap on replicas and however often a table is asked for: settling
/// the slot once more changes nothing.
pub proof fn law_kept_table_stays<A: Arithmetic>(
    table: Arc<CentroidNeighbors<A>>,
    centroids: Seq<Single>,
    rows: int,
    dim: int,
    fingerprint: u64,
)
    requires
        serves(*table, centroids, rows, dim, fingerprint),
    ensures
        reusable(Some(table), centroids, rows, dim, fingerprint) == Some(table),
{
}

/// The number of neighbors stored per centroid is thirty-two times the cap on
/// replicas, as far as that lies between 128 and 1024, never outside, and never
/// fewer for a higher cap.
pub proof fn law_neighbor_cap(max_replicas: int, higher: int)
    requires
        max_replicas <= higher,
    ensures
        128 <= neighbor_cap_of(max_replicas) <= 1024,
        128 <= 32 * max_replicas <= 1024 ==> neighbor_cap_of(max_replicas) == 32 * max_replicas,
        neighbor_cap_of(max_replicas) <= neighbor_cap_of(higher),
{
}

/// A table serves for its own centroids under its own fingerprint, and for nothing
/// else.
pub proof fn law_own_centroids_are_served<A: Arithmetic>(
    table: CentroidNeighbors<A>,
    centroids: Seq<Single>,
    rows: int,
    dim: int,
    fingerprint: u64,
)
    ensures
        serves(table, table.values(), table.row_count(), table.dimension(), table.key()),
        serves(table, centroids, rows, dim, fingerprint) ==> centroids == table.values() && rows
            == table.row_count() && dim == table.dimension() && fingerprint == table.key(),
{
}

/// What a clusterer's slot is left with: the table that is given out. If the lock
/// found a table of the same centroids, under their fingerprint, it is that very
/// table; if not, it is the table of these centroids, under their fingerprint, with
/// the cap that belongs to the cap on replicas.
pub proof fn law_slot_is_left_with<A: Arithmetic>(
    held: HeldSlot<'_, A>,
    slot: TableSlot<A>,
    table: Arc<CentroidNeighbors<A>>,
    centroids: Seq<Single>,
    rows: int,
    dim: int,
    max_replicas: int,
)
    requires
        is_left_with(held, slot, table, centroids, rows, dim, max_replicas),
    ensures
        held.slot() == slot,
        held.table() == Some(table),
        held.found_table() matches Some(kept) ==> kept.values() == centroids && kept.row_count()
            == rows && kept.dimension() == dim && kept.key() == fingerprint_of(
            centroids,
            rows,
            dim,
        ) as u64 ==> table == kept,
        table.values() == centroids && table.row_count() == rows && table.dimension() == dim,
        table.key() == fingerprint_of(centroids, rows, dim) as u64,
        held.found_table() != Some(table) ==> table.is_table_of(
            centroids,
            rows,
            dim,
            neighbor_cap_of(max_replicas),
        ),
{
}

} // verus!
