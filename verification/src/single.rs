//! Single-precision values held by their IEEE 754 bit pattern.
//!
//! The library never computes with a value itself: arithmetic is handed in by
//! the caller (see the `arithmetic` module). What the library does with values
//! is order them, and the order of two values can be read off their bits.
use vstd::prelude::*;

verus! {

/// The bit pattern with only the sign bit set.
pub const SIGN_BIT: u32 = 0x8000_0000;

/// The bit pattern of positive infinity: every larger magnitude is a NaN.
pub const INFINITY_BITS: u32 = 0x7f80_0000;

/// A single-precision value, as its bit pattern.
#[derive(Clone, Copy, Debug, PartialEq, Eq, Structural)]
pub struct Single {
    pub bits: u32,
}

/// The bit pattern of `0.0`.
pub const ZERO_BITS: u32 = 0;

/// The bit pattern of `-0.0`, the value of an empty sum.
pub const NEGATIVE_ZERO_BITS: u32 = 0x8000_0000;

/// The bit pattern of `1.0`.
pub const ONE_BITS: u32 = 0x3f80_0000;

impl Single {
    /// Whether the sign bit is set.
    pub open spec fn is_negative(self) -> bool {
        self.bits >= SIGN_BIT
    }

    /// The bit pattern without its sign bit; it grows with the absolute value.
    pub open spec fn magnitude(self) -> int {
        if self.is_negative() {
            self.bits - SIGN_BIT
        } else {
            self.bits as int
        }
    }

    /// Whether the pattern stands for no number.
    pub open spec fn is_nan(self) -> bool {
        self.magnitude() > INFINITY_BITS
    }

    /// The magnitude with its sign: on numbers it orders as the values do, and
    /// the two zeros fall together.
    pub open spec fn signed_magnitude(self) -> int {
        if self.is_negative() {
            -self.magnitude()
        } else {
            self.magnitude()
        }
    }

    /// `self < other` as values: false whenever one of them is a NaN.
    pub open spec fn is_below(self, other: Single) -> bool {
        !self.is_nan() && !other.is_nan() && self.signed_magnitude() < other.signed_magnitude()
    }

    /// `self <= other` as values: false whenever one of them is a NaN.
    pub open spec fn is_at_most(self, other: Single) -> bool {
        !self.is_nan() && !other.is_nan() && self.signed_magnitude() <= other.signed_magnitude()
    }

    /// The place of the pattern in the IEEE 754 total order: negative NaNs, then
    /// the numbers in their order with `-0.0` before `0.0`, then positive NaNs.
    pub open spec fn order_key(self) -> int {
        if self.is_negative() {
            -self.magnitude() - 1
        } else {
            self.magnitude()
        }
    }

    /// Computes [`Single::order_key`].
    pub fn total_key(self) -> (key: i64)
        ensures
            key == self.order_key(),
    {
        if self.bits >= SIGN_BIT {
            0x7fff_ffff - (self.bits as i64)
        } else {
            self.bits as i64
        }
    }

    fn nan(self) -> (r: bool)
        ensures
            r == self.is_nan(),
    {
        if self.bits >= SIGN_BIT {
            self.bits - SIGN_BIT > INFINITY_BITS
        } else {
            self.bits > INFINITY_BITS
        }
    }

    fn signed(self) -> (r: i64)
        ensures
            r == self.signed_magnitude(),
    {
        if self.bits >= SIGN_BIT {
            0x8000_0000 - (self.bits as i64)
        } else {
            self.bits as i64
        }
    }

    /// `self < other` as values.
    pub fn below(self, other: Single) -> (r: bool)
        ensures
            r == self.is_below(other),
    {
        !self.nan() && !other.nan() && self.signed() < other.signed()
    }

    /// `self <= other` as values.
    pub fn at_most(self, other: Single) -> (r: bool)
        ensures
            r == self.is_at_most(other),
    {
        !self.nan() && !other.nan() && self.signed() <= other.signed()
    }
}

/// A centroid together with a distance to it: what is ordered throughout.
pub type Entry = (Single, u32);

/// The place of an entry in the order by distance, ties broken by index.
pub open spec fn rank(e: Entry) -> int {
    e.0.order_key() * 0x1_0000_0000 + e.1
}

/// The order of entries as a relation.
pub open spec fn by_rank() -> spec_fn(Entry, Entry) -> bool {
    |a: Entry, b: Entry| rank(a) <= rank(b)
}

/// Entries sorted nearest first.
pub open spec fn nearest_first(s: Seq<Entry>) -> Seq<Entry> {
    s.sort_by(by_rank())
}

/// Whether entries stand in ascending order.
pub open spec fn ascending(s: Seq<Entry>) -> bool {
    forall|i: int, j: int| 0 <= i < j < s.len() ==> rank(#[trigger] s[i]) <= rank(#[trigger] s[j])
}

/// Whether `a` comes strictly before `b`.
pub fn nearer(a: Entry, b: Entry) -> (r: bool)
    ensures
        r == (rank(a) < rank(b)),
{
    let x: i64 = a.0.total_key();
    let y: i64 = b.0.total_key();
    x < y || (x == y && a.1 < b.1)
}

/// Two patterns share a place in the total order only if they are the same.
pub proof fn lemma_order_key_injective(a: Single, b: Single)
    requires
        a.order_key() == b.order_key(),
    ensures
        a == b,
{
}

/// Of two patterns, one comes before the other unless they are the same.
pub proof fn lemma_patterns_are_ordered(a: Single, b: Single)
    ensures
        a == b || a.order_key() < b.order_key() || b.order_key() < a.order_key(),
{
}

/// Two entries share a place only if they are the same entry.
pub proof fn lemma_rank_injective(a: Entry, b: Entry)
    requires
        rank(a) == rank(b),
    ensures
        a == b,
{
    lemma_order_key_injective(a.0, b.0);
}

/// Ranks order first by distance.
pub proof fn lemma_rank_by_distance(a: Entry, b: Entry)
    ensures
        a.0.order_key() < b.0.order_key() ==> rank(a) < rank(b),
        rank(a) <= rank(b) ==> a.0.order_key() <= b.0.order_key(),
{
}

pub proof fn lemma_by_rank_is_total_ordering()
    ensures
        vstd::relations::total_ordering(by_rank()),
{
    assert forall|a: Entry, b: Entry| #[trigger] by_rank()(a, b) && #[trigger] by_rank()(b, a) implies a
        == b by {
        lemma_rank_injective(a, b);
    }
}

/// What sorting does: the same entries, in ascending order.
pub proof fn lemma_nearest_first(s: Seq<Entry>)
    ensures
        nearest_first(s).to_multiset() == s.to_multiset(),
        nearest_first(s).len() == s.len(),
        ascending(nearest_first(s)),
        forall|e: Entry| #[trigger] nearest_first(s).contains(e) <==> s.contains(e),
{
    lemma_by_rank_is_total_ordering();
    s.lemma_sort_by_ensures(by_rank());
    let r = nearest_first(s);
    s.to_multiset_ensures();
    r.to_multiset_ensures();
    assert forall|i: int, j: int| 0 <= i < j < r.len() implies rank(#[trigger] r[i]) <= rank(
        #[trigger] r[j],
    ) by {
        assert(by_rank()(r[i], r[j]));
    }
    assert forall|e: Entry| #[trigger] r.contains(e) <==> s.contains(e) by {
        assert(r.contains(e) <==> r.to_multiset().count(e) > 0);
        assert(s.contains(e) <==> s.to_multiset().count(e) > 0);
    }
}

/// A list in ascending order is the sorted form of every list that holds the
/// same entries.
pub proof fn lemma_ascending_is_sorted(r: Seq<Entry>, s: Seq<Entry>)
    requires
        ascending(r),
        r.to_multiset() == s.to_multiset(),
    ensures
        r == nearest_first(s),
{
    lemma_by_rank_is_total_ordering();
    lemma_nearest_first(s);
    let t = nearest_first(s);
    assert(vstd::relations::sorted_by(r, by_rank()));
    assert(vstd::relations::sorted_by(t, by_rank()));
    vstd::seq_lib::lemma_sorted_unique(r, t, by_rank());
}

/// How patterns compare as values. The half with the sign bit set is the negative
/// one, in which a larger pattern is a smaller value. A pattern whose other bits
/// exceed those of infinity is no number and compares with nothing; the two zeros
/// are equal.
pub proof fn law_values_by_pattern(a: Single, b: Single)
    ensures
        a.is_nan() <==> a.bits % 0x8000_0000 > 0x7f80_0000,
        a.is_at_most(b) <==> !a.is_nan() && !b.is_nan() && !b.is_below(a),
        a.is_below(b) <==> {
            &&& a.bits % 0x8000_0000 <= 0x7f80_0000
            &&& b.bits % 0x8000_0000 <= 0x7f80_0000
            &&& a.bits % 0x8000_0000 != 0 || b.bits % 0x8000_0000 != 0
            &&& if a.bits < 0x8000_0000 {
                a.bits < b.bits < 0x8000_0000
            } else {
                b.bits < a.bits
            }
        },
{
}

/// How patterns stand in the total order: the negative half before the other,
/// and backwards. Values that compare stand as they compare.
pub proof fn law_total_order_by_pattern(a: Single, b: Single)
    ensures
        a.order_key() < b.order_key() <==> if a.bits < 0x8000_0000 {
            a.bits < b.bits < 0x8000_0000
        } else {
            b.bits < a.bits
        },
        a.order_key() == b.order_key() <==> a == b,
        a.is_below(b) ==> a.order_key() < b.order_key(),
{
}

/// Entries stand by distance, and by index where the distances are the same.
pub proof fn law_entries_by_distance_and_index(a: Entry, b: Entry)
    ensures
        rank(a) < rank(b) <==> a.0.order_key() < b.0.order_key() || (a.0 == b.0 && a.1 < b.1),
{
    if a.0.order_key() == b.0.order_key() {
        lemma_order_key_injective(a.0, b.0);
    }
}

} // verus!
