//! Arithmetic on single-precision values, and squared distances.
//!
//! The four operations that the library needs are the caller's: a type stands for
//! an arithmetic, and performs the operations. Contracts speak of the results that
//! they give, so they hold of whatever arithmetic the caller brings.
use vstd::prelude::*;
use crate::single::{Single, NEGATIVE_ZERO_BITS, ZERO_BITS};

verus! {

/// An operation on single-precision values.
#[derive(Clone, Copy, Debug, PartialEq, Eq, Structural)]
pub enum Op {
    /// The sum of the operands.
    Add,
    /// The first operand less the second.
    Sub,
    /// The product of the operands.
    Mul,
    /// The square root of the first operand; the second does not matter.
    Sqrt,
}

/// What an arithmetic computes: from operation and operands to the result.
pub type Results = spec_fn(Op, Single, Single) -> Single;

/// An arithmetic. Nothing is taken for granted of an implementation: where it
/// matters that operations give what `result` says, [`is_arithmetic`] is required.
pub trait Arithmetic {
    /// What an operation gives: unless an implementation says otherwise, whatever
    /// performing it can give.
    open spec fn result(op: Op, a: Single, b: Single) -> Single {
        choose|r: Single| call_ensures(Self::perform, (op, a, b), r)
    }

    /// Performs an operation.
    fn perform(op: Op, a: Single, b: Single) -> Single;
}

/// Whether the operations of `A` can be performed on all operands, and give their
/// results.
pub open spec fn is_arithmetic<A: Arithmetic>() -> bool {
    &&& forall|op: Op, a: Single, b: Single| #[trigger] call_requires(A::perform, (op, a, b))
    &&& forall|op: Op, a: Single, b: Single, r: Single| #[trigger]
        call_ensures(A::perform, (op, a, b), r) ==> r == A::result(op, a, b)
}

/// The results of the arithmetic `A`.
pub open spec fn results<A: Arithmetic>() -> Results {
    |op: Op, a: Single, b: Single| A::result(op, a, b)
}

/// Performs one operation.
pub fn apply<A: Arithmetic>(op: Op, a: Single, b: Single) -> (r: Single)
    requires
        is_arithmetic::<A>(),
    ensures
        r == results::<A>()(op, a, b),
{
    A::perform(op, a, b)
}

/// The squared difference of two coordinates.
pub open spec fn squared_difference(m: Results, x: Single, y: Single) -> Single {
    m(Op::Mul, m(Op::Sub, x, y), m(Op::Sub, x, y))
}

/// The squared differences of the first `n` coordinates, summed in their order.
pub open spec fn sum_of_squares(m: Results, a: Seq<Single>, b: Seq<Single>, n: nat) -> Single
    decreases n,
{
    if n == 0 {
        Single { bits: NEGATIVE_ZERO_BITS }
    } else {
        m(
            Op::Add,
            sum_of_squares(m, a, b, (n - 1) as nat),
            squared_difference(m, a[n - 1], b[n - 1]),
        )
    }
}

/// The squared Euclidean distance of two vectors, over the coordinates that
/// both have.
pub open spec fn distance(m: Results, a: Seq<Single>, b: Seq<Single>) -> Single {
    sum_of_squares(
        m,
        a,
        b,
        if a.len() <= b.len() {
            a.len()
        } else {
            b.len()
        },
    )
}

/// Squared Euclidean distance between two vectors.
pub fn squared_distance<A: Arithmetic>(
    a: &[Single],
    b: &[Single],
) -> (r: Single)
    requires
        is_arithmetic::<A>(),
    ensures
        r == distance(results::<A>(), a@, b@),
{
    let n: usize = if a.len() <= b.len() {
        a.len()
    } else {
        b.len()
    };
    let mut sum = Single { bits: NEGATIVE_ZERO_BITS };
    let mut i: usize = 0;
    while i < n
        invariant
            i <= n <= a.len(),
            n <= b.len(),
            is_arithmetic::<A>(),
            sum == sum_of_squares(results::<A>(), a@, b@, i as nat),
        decreases n - i,
    {
        let d = apply::<A>(Op::Sub, a[i], b[i]);
        let square = apply::<A>(Op::Mul, d, d);
        sum = apply::<A>(Op::Add, sum, square);
        i = i + 1;
    }
    sum
}

/// Row `i` of a matrix that is stored row after row, `dim` values each.
pub open spec fn row_of(values: Seq<Single>, dim: int, i: int) -> Seq<Single> {
    values.subrange(i * dim, (i + 1) * dim)
}

/// Whether `values` is long enough to have row `i`.
pub open spec fn has_row(values: Seq<Single>, dim: int, i: int) -> bool {
    (i + 1) * dim <= values.len()
}

/// Row `i` of a matrix that is stored row after row.
pub fn row<'a>(values: &'a [Single], dim: usize, i: usize) -> (r: &'a [Single])
    requires
        has_row(values@, dim as int, i as int),
    ensures
        r@ == row_of(values@, dim as int, i as int),
        r.len() == dim,
{
    proof {
        lemma_row_bounds(dim as int, i as int);
        assert(values@.len() == values.len());
    }
    let start: usize = i * dim;
    &values[start..start + dim]
}

/// Where a row starts and ends.
pub proof fn lemma_row_bounds(dim: int, i: int)
    requires
        0 <= dim,
        0 <= i,
    ensures
        0 <= i * dim,
        i * dim + dim == (i + 1) * dim,
{
    assert(0 <= i * dim && i * dim + dim == (i + 1) * dim) by (nonlinear_arith)
        requires
            0 <= dim,
            0 <= i,
    ;
}

/// A matrix of `rows` rows has each of them.
pub proof fn lemma_matrix_has_row(values: Seq<Single>, dim: int, rows: int, i: int)
    requires
        0 <= i < rows,
        0 <= dim,
        rows * dim <= values.len(),
    ensures
        has_row(values, dim, i),
{
    assert((i + 1) * dim <= rows * dim) by (nonlinear_arith)
        requires
            0 <= dim,
            i + 1 <= rows,
    ;
}

/// Whether an arithmetic squares the differences of the coordinates of two vectors
/// alike in both directions.
pub open spec fn squares_alike(m: Results, a: Seq<Single>, b: Seq<Single>) -> bool {
    forall|i: int|
        0 <= i < a.len() && i < b.len() ==> squared_difference(m, #[trigger] a[i], b[i])
            == squared_difference(m, b[i], a[i])
}

proof fn lemma_sum_is_symmetric(m: Results, a: Seq<Single>, b: Seq<Single>, n: nat)
    requires
        n <= a.len(),
        n <= b.len(),
        squares_alike(m, a, b),
    ensures
        sum_of_squares(m, a, b, n) == sum_of_squares(m, b, a, n),
    decreases n,
{
    if n > 0 {
        lemma_sum_is_symmetric(m, a, b, (n - 1) as nat);
        assert(squared_difference(m, a[n - 1], b[n - 1]) == squared_difference(
            m,
            b[n - 1],
            a[n - 1],
        ));
    }
}

/// Distances do not depend on the direction, where squares of differences do not.
pub proof fn law_distance_is_symmetric(m: Results, a: Seq<Single>, b: Seq<Single>)
    requires
        squares_alike(m, a, b),
    ensures
        distance(m, a, b) == distance(m, b, a),
{
    let n = if a.len() <= b.len() {
        a.len()
    } else {
        b.len()
    };
    lemma_sum_is_symmetric(m, a, b, n);
}

/// Whether a value is a number that is not below zero.
pub open spec fn is_not_below_zero(x: Single) -> bool {
    Single { bits: ZERO_BITS }.is_at_most(x)
}

proof fn lemma_sum_is_not_below_zero(m: Results, a: Seq<Single>, b: Seq<Single>, n: nat)
    requires
        n <= a.len(),
        n <= b.len(),
        forall|i: int|
            0 <= i < n ==> is_not_below_zero(squared_difference(m, #[trigger] a[i], b[i])),
        forall|x: Single, y: Single|
            is_not_below_zero(x) && is_not_below_zero(y) ==> is_not_below_zero(
                #[trigger] m(Op::Add, x, y),
            ),
    ensures
        is_not_below_zero(sum_of_squares(m, a, b, n)),
    decreases n,
{
    if n > 0 {
        lemma_sum_is_not_below_zero(m, a, b, (n - 1) as nat);
        assert(is_not_below_zero(squared_difference(m, a[n - 1], b[n - 1])));
    }
}

/// A distance is not below zero, where the squares of the differences of the
/// coordinates are not, nor sums of such numbers.
pub proof fn law_distance_is_not_below_zero(m: Results, a: Seq<Single>, b: Seq<Single>)
    requires
        a.len() == b.len(),
        forall|i: int|
            0 <= i < a.len() ==> is_not_below_zero(squared_difference(m, #[trigger] a[i], b[i])),
        forall|x: Single, y: Single|
            is_not_below_zero(x) && is_not_below_zero(y) ==> is_not_below_zero(
                #[trigger] m(Op::Add, x, y),
            ),
    ensures
        is_not_below_zero(distance(m, a, b)),
{
    lemma_sum_is_not_below_zero(m, a, b, a.len());
}

/// Whether a value is one of the two zeros.
pub open spec fn is_zero(x: Single) -> bool {
    x.signed_magnitude() == 0
}

proof fn lemma_sum_of_nothing(m: Results, a: Seq<Single>, n: nat)
    requires
        n <= a.len(),
        forall|i: int| 0 <= i < a.len() ==> is_zero(squared_difference(m, #[trigger] a[i], a[i])),
        forall|x: Single, y: Single|
            is_zero(x) && is_zero(y) ==> is_zero(#[trigger] m(Op::Add, x, y)),
    ensures
        is_zero(sum_of_squares(m, a, a, n)),
    decreases n,
{
    if n > 0 {
        lemma_sum_of_nothing(m, a, (n - 1) as nat);
        assert(is_zero(squared_difference(m, a[n - 1], a[n - 1])));
    }
}

/// A vector is at distance zero from itself, where the differences of its
/// coordinates from themselves square to zero and zeros add up to zero.
pub proof fn law_distance_from_itself_is_zero(m: Results, a: Seq<Single>)
    requires
        forall|i: int| 0 <= i < a.len() ==> is_zero(squared_difference(m, #[trigger] a[i], a[i])),
        forall|x: Single, y: Single|
            is_zero(x) && is_zero(y) ==> is_zero(#[trigger] m(Op::Add, x, y)),
    ensures
        is_zero(distance(m, a, a)),
{
    lemma_sum_of_nothing(m, a, a.len());
}

/// A matrix is cut into rows of `dim` values each, one after the other, and has
/// those that end within it.
pub proof fn law_rows(values: Seq<Single>, dim: int, i: int)
    requires
        0 <= dim,
        0 <= i,
    ensures
        has_row(values, dim, i) <==> i * dim + dim <= values.len(),
        has_row(values, dim, i) ==> row_of(values, dim, i).len() == dim,
        has_row(values, dim, i) ==> forall|j: int|
            0 <= j < dim ==> #[trigger] row_of(values, dim, i)[j] == values[i * dim + j],
{
    lemma_row_bounds(dim, i);
}

proof fn lemma_sum_of_prefixes(
    m: Results,
    a: Seq<Single>,
    b: Seq<Single>,
    c: Seq<Single>,
    d: Seq<Single>,
    n: nat,
)
    requires
        forall|i: int| 0 <= i < n ==> #[trigger] a[i] == c[i] && b[i] == d[i],
    ensures
        sum_of_squares(m, a, b, n) == sum_of_squares(m, c, d, n),
    decreases n,
{
    if n > 0 {
        lemma_sum_of_prefixes(m, a, b, c, d, (n - 1) as nat);
        assert(a[n - 1] == c[n - 1]);
    }
}

/// Every coordinate counts: with one more coordinate, a distance is what it was
/// without, plus the square of the difference of the two new values. Without any,
/// it is the negative zero.
pub proof fn law_every_coordinate_counts(
    m: Results,
    a: Seq<Single>,
    b: Seq<Single>,
    x: Single,
    y: Single,
)
    requires
        a.len() == b.len(),
    ensures
        distance(m, a.push(x), b.push(y)) == m(
            Op::Add,
            distance(m, a, b),
            m(Op::Mul, m(Op::Sub, x, y), m(Op::Sub, x, y)),
        ),
        a.len() == 0 ==> distance(m, a, b).bits == 0x8000_0000,
{
    let n = a.len();
    assert forall|i: int| 0 <= i < n implies #[trigger] a.push(x)[i] == a[i] && b.push(y)[i]
        == b[i] by {
    }
    lemma_sum_of_prefixes(m, a.push(x), b.push(y), a, b, n);
    assert(a.push(x)[n as int] == x && b.push(y)[n as int] == y);
}

/// The coordinates that count are those that both vectors have.
pub proof fn law_common_coordinates_count(m: Results, a: Seq<Single>, b: Seq<Single>)
    ensures
        a.len() <= b.len() ==> distance(m, a, b) == distance(m, a, b.take(a.len() as int)),
        b.len() <= a.len() ==> distance(m, a, b) == distance(m, a.take(b.len() as int), b),
{
    if a.len() <= b.len() {
        lemma_sum_of_prefixes(m, a, b, a, b.take(a.len() as int), a.len());
    }
    if b.len() <= a.len() {
        lemma_sum_of_prefixes(m, a, b, a.take(b.len() as int), b, b.len());
    }
}

} // verus!
