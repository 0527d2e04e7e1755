//! Fingerprints of centroid matrices.
use vstd::prelude::*;
use vstd::arithmetic::div_mod::{
    lemma_fundamental_div_mod, lemma_mod_bound, lemma_mod_multiples_basic,
    lemma_mul_mod_noop_left,
};
use std::hash::Hasher;
use rustc_hash::FxHasher;
use crate::single::Single;

verus! {

/// The hasher of the `rustc-hash` crate.
#[verifier::external_type_specification]
#[verifier::external_body]
pub struct ExFxHasher(FxHasher);

/// The word that an `FxHasher` has accumulated so far.
pub uninterp spec fn fx_state(hasher: FxHasher) -> usize;

/// One more than the largest machine word.
pub open spec fn word_limit() -> int {
    usize::MAX + 1
}

/// The constant by which `FxHasher` multiplies, which depends on the word size.
pub open spec fn fx_multiplier() -> int {
    if usize::BITS == 64 {
        0xf135_7aea_2e62_a9c5
    } else {
        0x93d7_65dd
    }
}

/// What the accumulated word becomes when another word is written.
pub open spec fn fx_step(state: int, word: int) -> int {
    ((state + word) * fx_multiplier()) % word_limit()
}

/// The low part of a word that the final rotation moves to the top.
pub open spec fn fx_low_part() -> int {
    if usize::BITS == 64 {
        0x40_0000_0000
    } else {
        0x2_0000
    }
}

/// The number of values of the high part of a word, which the final rotation
/// moves to the bottom.
pub open spec fn fx_high_part() -> int {
    if usize::BITS == 64 {
        0x400_0000
    } else {
        0x8000
    }
}

/// The accumulated word, rotated left: by 26 bits of 64, or by 15 bits of 32.
pub open spec fn fx_rotated(state: int) -> int {
    (state % fx_low_part()) * fx_high_part() + state / fx_low_part()
}

/// `FxHasher::default` starts from the word zero.
#[verifier::external_body]
fn fx_new() -> (hasher: FxHasher)
    ensures
        fx_state(hasher) == 0,
{
    FxHasher::default()
}

/// `FxHasher::write_usize` adds the word to the accumulated one and multiplies
/// the sum, both modulo the word size.
#[verifier::external_body]
fn fx_write_usize(hasher: &mut FxHasher, word: usize)
    ensures
        fx_state(*final(hasher)) == fx_step(fx_state(*old(hasher)) as int, word as int),
{
    hasher.write_usize(word);
}

/// `FxHasher::write_u32` widens its argument to a machine word and takes it in
/// as `write_usize` does.
#[verifier::external_body]
fn fx_write_u32(hasher: &mut FxHasher, value: u32)
    ensures
        fx_state(*final(hasher)) == fx_step(fx_state(*old(hasher)) as int, value as int),
{
    hasher.write_u32(value);
}

/// `FxHasher::finish` gives the accumulated word, rotated.
#[verifier::external_body]
fn fx_finish(hasher: &FxHasher) -> (hash: u64)
    ensures
        hash == fx_rotated(fx_state(*hasher) as int),
{
    hasher.finish()
}

/// The word accumulated from `state` by the bit patterns of `values`, in order.
pub open spec fn fx_fold(state: int, values: Seq<Single>) -> int
    decreases values.len(),
{
    if values.len() == 0 {
        state
    } else {
        fx_step(fx_fold(state, values.drop_last()), values.last().bits as int)
    }
}

/// The fingerprint of a centroid matrix: of its shape and of every value.
pub open spec fn fingerprint_of(values: Seq<Single>, rows: int, dim: int) -> int {
    fx_rotated(fx_fold(fx_step(fx_step(0, rows), dim), values))
}

/// Fingerprint of a centroid matrix: of its row count, its dimensionality and
/// the bit pattern of every value.
pub fn centroid_fingerprint(centroids: &[Single], rows: usize, dim: usize) -> (fingerprint: u64)
    ensures
        fingerprint == fingerprint_of(centroids@, rows as int, dim as int),
{
    let mut hasher = fx_new();
    fx_write_usize(&mut hasher, rows);
    fx_write_usize(&mut hasher, dim);
    let ghost start = fx_step(fx_step(0, rows as int), dim as int);
    let mut i: usize = 0;
    while i < centroids.len()
        invariant
            i <= centroids.len(),
            fx_state(hasher) == fx_fold(start, centroids@.take(i as int)),
        decreases centroids.len() - i,
    {
        proof {
            assert(centroids@.take(i + 1).drop_last() =~= centroids@.take(i as int));
        }
        fx_write_u32(&mut hasher, centroids[i].bits);
        i = i + 1;
    }
    proof {
        assert(centroids@.take(i as int) =~= centroids@);
    }
    fx_finish(&hasher)
}

/// The number that undoes a multiplication by [`fx_multiplier`].
spec fn fx_inverse() -> int {
    if usize::BITS == 64 {
        0x781494a55daaed0d
    } else {
        0x7aae1a75
    }
}

/// Different words never become the same word by a further write.
proof fn lemma_step_injective(s: int, t: int, a: int, b: int)
    requires
        fx_step(s, a) == fx_step(t, b),
    ensures
        (s + a) % word_limit() == (t + b) % word_limit(),
{
    lemma_step_invertible(s, a);
    lemma_step_invertible(t, b);
}

proof fn lemma_step_invertible(s: int, a: int)
    ensures
        (fx_step(s, a) * fx_inverse()) % word_limit() == (s + a) % word_limit(),
{
    let x = s + a;
    let k = fx_multiplier();
    let l = fx_inverse();
    let n = word_limit();
    lemma_mul_mod_noop_left(x * k, l, n);
    assert(x * k * l == x * (k * l)) by (nonlinear_arith);
    assert(k * l == (k * l / n) * n + 1) by {
        assert(usize::BITS == 64 ==> usize::MAX == 0xffff_ffff_ffff_ffff);
        assert(usize::BITS == 32 ==> usize::MAX == 0xffff_ffff);
    }
    let q = k * l / n;
    assert(x * (k * l) == n * (x * q) + x) by (nonlinear_arith)
        requires
            k * l == q * n + 1,
    ;
    vstd::arithmetic::div_mod::lemma_mod_multiples_vanish(x * q, x, n);
}

proof fn lemma_step_in_range(s: int, a: int)
    ensures
        0 <= fx_step(s, a) < word_limit(),
{
    lemma_mod_bound((s + a) * fx_multiplier(), word_limit());
}

proof fn lemma_fold_in_range(state: int, values: Seq<Single>)
    requires
        0 <= state < word_limit(),
    ensures
        0 <= fx_fold(state, values) < word_limit(),
{
    if values.len() > 0 {
        lemma_step_in_range(fx_fold(state, values.drop_last()), values.last().bits as int);
    }
}

/// Numbers that are less than `n` apart have different remainders.
proof fn lemma_remainders_differ(x: int, y: int, n: int)
    requires
        n > 0,
        -n < x - y < n,
        x % n == y % n,
    ensures
        x == y,
{
    lemma_fundamental_div_mod(x, n);
    lemma_fundamental_div_mod(y, n);
    assert(x / n == y / n) by (nonlinear_arith)
        requires
            n > 0,
            -n < x - y < n,
            x == n * (x / n) + x % n,
            y == n * (y / n) + y % n,
            x % n == y % n,
    ;
}

proof fn lemma_fold_tells_apart(state: int, a: Seq<Single>, b: Seq<Single>, i: int)
    requires
        0 <= state < word_limit(),
        a.len() == b.len(),
        0 <= i < a.len(),
        a[i] != b[i],
        forall|j: int| 0 <= j < a.len() && j != i ==> a[j] == b[j],
    ensures
        fx_fold(state, a) != fx_fold(state, b),
    decreases a.len(),
{
    let x = fx_fold(state, a.drop_last());
    let y = fx_fold(state, b.drop_last());
    let v = a.last().bits as int;
    let w = b.last().bits as int;
    lemma_fold_in_range(state, a.drop_last());
    lemma_fold_in_range(state, b.drop_last());
    if i == a.len() - 1 {
        assert(a.drop_last() =~= b.drop_last());
        assert(v != w);
    } else {
        lemma_fold_tells_apart(state, a.drop_last(), b.drop_last(), i);
        assert(v == w);
    }
    if fx_step(x, v) == fx_step(y, w) {
        lemma_step_injective(x, y, v, w);
        lemma_remainders_differ(x + v, y + w, word_limit());
    }
}

proof fn lemma_rotation_injective(s: int, t: int)
    requires
        0 <= s < word_limit(),
        0 <= t < word_limit(),
        fx_rotated(s) == fx_rotated(t),
    ensures
        s == t,
{
    assert(usize::BITS == 64 ==> usize::MAX == 0xffff_ffff_ffff_ffff);
    assert(usize::BITS == 32 ==> usize::MAX == 0xffff_ffff);
}

/// Changing one value of a matrix changes its fingerprint, whatever the other
/// values are: a table cached for the matrix before the change is not taken for
/// a table of the matrix after it.
pub proof fn law_changed_value_changes_fingerprint(
    a: Seq<Single>,
    b: Seq<Single>,
    rows: int,
    dim: int,
    i: int,
)
    requires
        a.len() == b.len(),
        0 <= i < a.len(),
        a[i] != b[i],
        forall|j: int| 0 <= j < a.len() && j != i ==> a[j] == b[j],
    ensures
        fingerprint_of(a, rows, dim) != fingerprint_of(b, rows, dim),
{
    let start = fx_step(fx_step(0, rows), dim);
    lemma_step_in_range(fx_step(0, rows), dim);
    lemma_fold_tells_apart(start, a, b, i);
    lemma_fold_in_range(start, a);
    lemma_fold_in_range(start, b);
    if fingerprint_of(a, rows, dim) == fingerprint_of(b, rows, dim) {
        lemma_rotation_injective(fx_fold(start, a), fx_fold(start, b));
    }
}

/// By how much two lists of values drive an accumulated word apart: the sum of
/// the differences of their patterns, each times one multiplier for its own write
/// and one for every write after it.
pub open spec fn weighted_difference(a: Seq<Single>, b: Seq<Single>) -> int
    decreases a.len(),
{
    if a.len() == 0 {
        0
    } else {
        (weighted_difference(a.drop_last(), b.drop_last()) + a.last().bits - b.last().bits)
            * fx_multiplier()
    }
}

proof fn lemma_fold_difference(state: int, a: Seq<Single>, b: Seq<Single>)
    requires
        a.len() == b.len(),
    ensures
        (fx_fold(state, a) - fx_fold(state, b) - weighted_difference(a, b)) % word_limit() == 0,
    decreases a.len(),
{
    let n = word_limit();
    if a.len() > 0 {
        let x = fx_fold(state, a.drop_last());
        let y = fx_fold(state, b.drop_last());
        let apart = weighted_difference(a.drop_last(), b.drop_last());
        let v = a.last().bits as int;
        let w = b.last().bits as int;
        let k = fx_multiplier();
        lemma_fold_difference(state, a.drop_last(), b.drop_last());
        lemma_fundamental_div_mod(x - y - apart, n);
        lemma_fundamental_div_mod((x + v) * k, n);
        lemma_fundamental_div_mod((y + w) * k, n);
        let q = (x - y - apart) / n;
        let q1 = ((x + v) * k) / n;
        let q2 = ((y + w) * k) / n;
        let rest = fx_step(x, v) - fx_step(y, w) - weighted_difference(a, b);
        assert(rest == (q * k - q1 + q2) * n) by (nonlinear_arith)
            requires
                rest == (((x + v) * k) - n * q1) - (((y + w) * k) - n * q2) - (apart + v - w) * k,
                x - y - apart == n * q,
        ;
        lemma_mod_multiples_basic(q * k - q1 + q2, n);
    }
}

/// Two matrices of one shape have the same fingerprint exactly if their weighted
/// difference is a multiple of the word size.
pub proof fn law_fingerprints_agree(a: Seq<Single>, b: Seq<Single>, rows: int, dim: int)
    requires
        a.len() == b.len(),
    ensures
        fingerprint_of(a, rows, dim) == fingerprint_of(b, rows, dim) <==> weighted_difference(a, b)
            % word_limit() == 0,
{
    let n = word_limit();
    let start = fx_step(fx_step(0, rows), dim);
    let x = fx_fold(start, a);
    let y = fx_fold(start, b);
    let apart = weighted_difference(a, b);
    lemma_step_in_range(fx_step(0, rows), dim);
    lemma_fold_in_range(start, a);
    lemma_fold_in_range(start, b);
    lemma_fold_difference(start, a, b);
    lemma_fundamental_div_mod(x - y - apart, n);
    let q = (x - y - apart) / n;
    if x == y {
        assert(apart == (-q) * n) by (nonlinear_arith)
            requires
                0 - apart == n * q,
        ;
        lemma_mod_multiples_basic(-q, n);
    } else if apart % n == 0 {
        lemma_fundamental_div_mod(apart, n);
        let r = apart / n;
        assert(x - y == (q + r) * n) by (nonlinear_arith)
            requires
                x - y - apart == n * q,
                apart == n * r,
        ;
        lemma_mod_multiples_basic(q + r, n);
        lemma_mod_multiples_basic(0, n);
        lemma_remainders_differ(x - y, 0, n);
    }
    if fingerprint_of(a, rows, dim) == fingerprint_of(b, rows, dim) {
        lemma_rotation_injective(x, y);
    }
}

/// Changing the shape in which the same values are read, in its number of rows or
/// in its dimensionality, changes the fingerprint.
pub proof fn law_changed_shape_changes_fingerprint(
    values: Seq<Single>,
    rows: int,
    dim: int,
    other_rows: int,
    other_dim: int,
)
    requires
        0 <= rows < word_limit(),
        0 <= dim < word_limit(),
        0 <= other_rows < word_limit(),
        0 <= other_dim < word_limit(),
        (rows == other_rows) != (dim == other_dim),
    ensures
        fingerprint_of(values, rows, dim) != fingerprint_of(values, other_rows, other_dim),
{
    let n = word_limit();
    let x = fx_step(0, rows);
    let y = fx_step(0, other_rows);
    let s = fx_step(x, dim);
    let t = fx_step(y, other_dim);
    lemma_step_in_range(0, rows);
    lemma_step_in_range(0, other_rows);
    lemma_step_in_range(x, dim);
    lemma_step_in_range(y, other_dim);
    if s == t {
        lemma_step_injective(x, y, dim, other_dim);
        lemma_remainders_differ(x + dim, y + other_dim, n);
        if rows == other_rows {
            assert(dim == other_dim);
        } else {
            assert(x == y);
            lemma_step_injective(0, 0, rows, other_rows);
            lemma_remainders_differ(rows, other_rows, n);
        }
    }
    lemma_fold_keeps_apart(s, t, values);
    lemma_fold_in_range(s, values);
    lemma_fold_in_range(t, values);
    if fingerprint_of(values, rows, dim) == fingerprint_of(values, other_rows, other_dim) {
        lemma_rotation_injective(fx_fold(s, values), fx_fold(t, values));
    }
}

proof fn lemma_fold_keeps_apart(s: int, t: int, values: Seq<Single>)
    requires
        0 <= s < word_limit(),
        0 <= t < word_limit(),
        s != t,
    ensures
        fx_fold(s, values) != fx_fold(t, values),
    decreases values.len(),
{
    if values.len() > 0 {
        let x = fx_fold(s, values.drop_last());
        let y = fx_fold(t, values.drop_last());
        let w = values.last().bits as int;
        lemma_fold_keeps_apart(s, t, values.drop_last());
        lemma_fold_in_range(s, values.drop_last());
        lemma_fold_in_range(t, values.drop_last());
        if fx_step(x, w) == fx_step(y, w) {
            lemma_step_injective(x, y, w, w);
            lemma_remainders_differ(x + w, y + w, word_limit());
        }
    }
}

proof fn lemma_fold_joined(state: int, a: Seq<Single>, b: Seq<Single>)
    ensures
        fx_fold(state, a + b) == fx_fold(fx_fold(state, a), b),
    decreases b.len(),
{
    if b.len() == 0 {
        assert(a + b =~= a);
    } else {
        lemma_fold_joined(state, a, b.drop_last());
        assert((a + b).drop_last() =~= a + b.drop_last());
        assert((a + b).last() == b.last());
    }
}

/// The shape counts as if it stood before the values: first the number of rows, then
/// the dimensionality.
pub proof fn law_shape_stands_before_the_values(rows: Single, dim: Single, values: Seq<Single>)
    ensures
        fingerprint_of(values, rows.bits as int, dim.bits as int) == fingerprint_of(
            seq![rows, dim] + values,
            0,
            0,
        ),
{
    let shape = seq![rows, dim];
    assert(fx_step(0, 0) == 0) by {
        vstd::arithmetic::div_mod::lemma_small_mod(0, word_limit() as nat);
    }
    lemma_fold_joined(0, shape, values);
    assert(shape.drop_last() =~= seq![rows]);
    assert(seq![rows].drop_last() =~= Seq::<Single>::empty());
    assert(fx_fold(0, Seq::<Single>::empty()) == 0);
    assert(fx_fold(0, seq![rows]) == fx_step(0, rows.bits as int));
    assert(fx_fold(0, shape) == fx_step(fx_step(0, rows.bits as int), dim.bits as int));
}

} // verus!
