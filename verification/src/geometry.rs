//! Euclidean geometry in exact arithmetic.
use vstd::prelude::*;

verus! {

/// The square of a number.
pub open spec fn square(x: real) -> real {
    x * x
}

/// The squared distance of two points over their first `n` coordinates.
pub open spec fn exact_distance(a: Seq<real>, b: Seq<real>, n: nat) -> real
    decreases n,
{
    if n == 0 {
        0 as real
    } else {
        exact_distance(a, b, (n - 1) as nat) + square(a[n - 1] - b[n - 1])
    }
}

/// The inner product of the steps from `a` to `b` and from `b` to `c`.
spec fn turn(a: Seq<real>, b: Seq<real>, c: Seq<real>, n: nat) -> real
    decreases n,
{
    if n == 0 {
        0 as real
    } else {
        turn(a, b, c, (n - 1) as nat) + (a[n - 1] - b[n - 1]) * (b[n - 1] - c[n - 1])
    }
}

proof fn lemma_distance_not_negative(a: Seq<real>, b: Seq<real>, n: nat)
    ensures
        exact_distance(a, b, n) >= 0 as real,
    decreases n,
{
    if n > 0 {
        lemma_distance_not_negative(a, b, (n - 1) as nat);
        let x = a[n - 1] - b[n - 1];
        assert(x * x >= 0 as real) by (nonlinear_arith);
    }
}

/// Distances do not depend on the direction.
pub proof fn lemma_distance_symmetric(a: Seq<real>, b: Seq<real>, n: nat)
    ensures
        exact_distance(a, b, n) == exact_distance(b, a, n),
    decreases n,
{
    if n > 0 {
        lemma_distance_symmetric(a, b, (n - 1) as nat);
        let x = a[n - 1];
        let y = b[n - 1];
        assert((x - y) * (x - y) == (y - x) * (y - x)) by (nonlinear_arith);
    }
}

proof fn lemma_via(a: Seq<real>, b: Seq<real>, c: Seq<real>, n: nat)
    ensures
        exact_distance(a, c, n) == exact_distance(a, b, n) + exact_distance(b, c, n) + turn(a, b, c, n)
            + turn(a, b, c, n),
    decreases n,
{
    if n > 0 {
        lemma_via(a, b, c, (n - 1) as nat);
        let x = a[n - 1] - b[n - 1];
        let y = b[n - 1] - c[n - 1];
        assert((x + y) * (x + y) == x * x + y * y + x * y + x * y) by (nonlinear_arith);
        assert(a[n - 1] - c[n - 1] == x + y);
    }
}

/// The step of the Cauchy-Schwarz inequality.
proof fn lemma_cauchy_step(s: real, u: real, w: real, x: real, y: real)
    requires
        u >= 0 as real,
        w >= 0 as real,
        s * s <= u * w,
    ensures
        (s + x * y) * (s + x * y) <= (u + x * x) * (w + y * y),
{
    let g = u * (y * y) + w * (x * x);
    let h = s * (x * y) + s * (x * y);
    let uw = u * w;
    let xx = x * x;
    let yy = y * y;
    let xy = x * y;
    assert(xx >= 0 as real) by (nonlinear_arith)
        requires
            xx == x * x,
    ;
    assert(yy >= 0 as real) by (nonlinear_arith)
        requires
            yy == y * y,
    ;
    assert(xy * xy == xx * yy) by (nonlinear_arith)
        requires
            xy == x * y,
            xx == x * x,
            yy == y * y,
    ;
    let a = u * yy;
    let b = w * xx;
    assert(a >= 0 as real) by (nonlinear_arith)
        requires
            a == u * yy,
            u >= 0 as real,
            yy >= 0 as real,
    ;
    assert(b >= 0 as real) by (nonlinear_arith)
        requires
            b == w * xx,
            w >= 0 as real,
            xx >= 0 as real,
    ;
    let four = 4 as real;
    let q = xx * yy;
    assert(q >= 0 as real) by (nonlinear_arith)
        requires
            q == xx * yy,
            xx >= 0 as real,
            yy >= 0 as real,
    ;
    assert(a * b == uw * q) by (nonlinear_arith)
        requires
            a == u * yy,
            b == w * xx,
            uw == u * w,
            q == xx * yy,
    ;
    assert(h * h == four * ((s * s) * q)) by (nonlinear_arith)
        requires
            h == s * xy + s * xy,
            xy * xy == q,
            four == 4 as real,
    ;
    let ss = s * s;
    assert(ss * q <= uw * q) by (nonlinear_arith)
        requires
            ss <= uw,
            q >= 0 as real,
    ;
    assert((a + b) * (a + b) >= four * (a * b)) by (nonlinear_arith)
        requires
            four == 4 as real,
    {
        assert((a - b) * (a - b) >= 0 as real);
    }
    assert(h * h <= g * g);
    assert(h <= g) by (nonlinear_arith)
        requires
            h * h <= g * g,
            g >= 0 as real,
    ;
    assert((s + xy) * (s + xy) == ss + h + q) by (nonlinear_arith)
        requires
            ss == s * s,
            h == s * xy + s * xy,
            xy * xy == q,
    ;
    assert((u + xx) * (w + yy) == uw + g + q) by (nonlinear_arith)
        requires
            uw == u * w,
            g == u * yy + w * xx,
            q == xx * yy,
    ;
}

proof fn lemma_cauchy(a: Seq<real>, b: Seq<real>, c: Seq<real>, n: nat)
    ensures
        square(turn(a, b, c, n)) <= exact_distance(a, b, n) * exact_distance(b, c, n),
    decreases n,
{
    if n > 0 {
        let k = (n - 1) as nat;
        lemma_cauchy(a, b, c, k);
        lemma_distance_not_negative(a, b, k);
        lemma_distance_not_negative(b, c, k);
        lemma_cauchy_step(
            turn(a, b, c, k),
            exact_distance(a, b, k),
            exact_distance(b, c, k),
            a[n - 1] - b[n - 1],
            b[n - 1] - c[n - 1],
        );
    } else {
        assert((0 as real) * (0 as real) <= (0 as real) * (0 as real)) by (nonlinear_arith);
    }
}

/// What the reverse triangle inequality gives: a point `c` at least `radius` away
/// from `p` is more than `far` away from `v`, if `v` is at most `to_p` away from
/// `p` and `radius` exceeds `far` by more than that.
pub proof fn law_reverse_triangle(
    p: Seq<real>,
    v: Seq<real>,
    c: Seq<real>,
    n: nat,
    radius: real,
    to_p: real,
    far: real,
)
    requires
        to_p >= 0 as real,
        far >= 0 as real,
        exact_distance(p, v, n) <= square(to_p),
        square(radius) <= exact_distance(p, c, n),
        radius - to_p > far,
    ensures
        exact_distance(v, c, n) > square(far),
{
    lemma_via(p, v, c, n);
    lemma_cauchy(p, v, c, n);
    lemma_distance_not_negative(p, v, n);
    lemma_distance_not_negative(v, c, n);
    let y = exact_distance(v, c, n);
    let s = turn(p, v, c, n);
    let x = exact_distance(p, v, n);
    if y <= square(far) {
        let g = to_p * far;
        let xx = square(to_p);
        let yy = square(far);
        assert(x * y <= xx * yy) by (nonlinear_arith)
            requires
                0 as real <= x <= xx,
                0 as real <= y <= yy,
        ;
        assert(xx * yy == g * g) by (nonlinear_arith)
            requires
                xx == to_p * to_p,
                yy == far * far,
                g == to_p * far,
        ;
        assert(g >= 0 as real) by (nonlinear_arith)
            requires
                g == to_p * far,
                to_p >= 0 as real,
                far >= 0 as real,
        ;
        assert(s * s <= g * g);
        assert(s <= g) by (nonlinear_arith)
            requires
                s * s <= g * g,
                g >= 0 as real,
        ;
        assert((to_p + far) * (to_p + far) == to_p * to_p + far * far + g + g) by (nonlinear_arith)
            requires
                g == to_p * far,
        ;
        assert(radius * radius > (to_p + far) * (to_p + far)) by (nonlinear_arith)
            requires
                radius > to_p + far,
                to_p + far >= 0 as real,
        ;
    }
}

/// The triangle inequality: a point at most `a` away from `v`, which is at most
/// `b` away from `c`, is at most `a + b` away from `c`.
pub proof fn law_triangle(
    p: Seq<real>,
    v: Seq<real>,
    c: Seq<real>,
    n: nat,
    a: real,
    b: real,
)
    requires
        0 as real <= a,
        0 as real <= b,
        exact_distance(p, v, n) <= square(a),
        exact_distance(v, c, n) <= square(b),
    ensures
        exact_distance(p, c, n) <= square(a + b),
{
    lemma_via(p, v, c, n);
    lemma_cauchy(p, v, c, n);
    lemma_distance_not_negative(p, v, n);
    lemma_distance_not_negative(v, c, n);
    let x = exact_distance(p, v, n);
    let y = exact_distance(v, c, n);
    let s = turn(p, v, c, n);
    let g = a * b;
    let xx = square(a);
    let yy = square(b);
    assert(x * y <= xx * yy) by (nonlinear_arith)
        requires
            0 as real <= x <= xx,
            0 as real <= y <= yy,
    ;
    assert(xx * yy == g * g) by (nonlinear_arith)
        requires
            xx == a * a,
            yy == b * b,
            g == a * b,
    ;
    assert(g >= 0 as real) by (nonlinear_arith)
        requires
            g == a * b,
            0 as real <= a,
            0 as real <= b,
    ;
    assert(s <= g) by (nonlinear_arith)
        requires
            s * s <= g * g,
            g >= 0 as real,
    ;
    assert((a + b) * (a + b) == a * a + b * b + g + g) by (nonlinear_arith)
        requires
            g == a * b,
    ;
}

/// A candidate, at most `epsilon` times as far from the vector as the primary is,
/// is at most `1 + epsilon` times as far from the primary.
pub proof fn law_candidates_lie_near_the_primary(
    p: Seq<real>,
    v: Seq<real>,
    c: Seq<real>,
    n: nat,
    to_p: real,
    epsilon: real,
)
    requires
        0 as real <= to_p,
        0 as real <= epsilon,
        exact_distance(p, v, n) == square(to_p),
        exact_distance(v, c, n) <= square(epsilon * to_p),
    ensures
        exact_distance(p, c, n) <= square((1 as real + epsilon) * to_p),
{
    let far = epsilon * to_p;
    assert(0 as real <= far && to_p + far == (1 as real + epsilon) * to_p) by (nonlinear_arith)
        requires
            0 as real <= to_p,
            0 as real <= epsilon,
            far == epsilon * to_p,
    ;
    law_triangle(p, v, c, n, to_p, far);
}

/// The inner product of two vectors over their first `n` coordinates.
pub open spec fn inner_product(a: Seq<real>, b: Seq<real>, n: nat) -> real
    decreases n,
{
    if n == 0 {
        0 as real
    } else {
        inner_product(a, b, (n - 1) as nat) + a[n - 1] * b[n - 1]
    }
}

proof fn lemma_distance_by_inner_product(a: Seq<real>, b: Seq<real>, n: nat)
    ensures
        exact_distance(a, b, n) == inner_product(a, a, n) + inner_product(b, b, n) - inner_product(
            a,
            b,
            n,
        ) - inner_product(a, b, n),
    decreases n,
{
    if n > 0 {
        lemma_distance_by_inner_product(a, b, (n - 1) as nat);
        let x = a[n - 1];
        let y = b[n - 1];
        assert((x - y) * (x - y) == x * x + y * y - x * y - x * y) by (nonlinear_arith);
    }
}

/// Of unit vectors, the one nearer to a given one is the one at the smaller angle
/// to it: that with the larger inner product.
pub proof fn law_unit_vectors_by_angle(v: Seq<real>, a: Seq<real>, b: Seq<real>, n: nat)
    requires
        inner_product(a, a, n) == 1 as real,
        inner_product(b, b, n) == 1 as real,
    ensures
        exact_distance(v, a, n) <= exact_distance(v, b, n) <==> inner_product(v, b, n)
            <= inner_product(v, a, n),
{
    lemma_distance_by_inner_product(v, a, n);
    lemma_distance_by_inner_product(v, b, n);
}

proof fn lemma_distance_of_prefixes(a: Seq<real>, b: Seq<real>, c: Seq<real>, n: nat)
    requires
        forall|i: int| 0 <= i < n ==> #[trigger] a[i] == b[i],
    ensures
        exact_distance(a, c, n) == exact_distance(b, c, n),
    decreases n,
{
    if n > 0 {
        lemma_distance_of_prefixes(a, b, c, (n - 1) as nat);
        assert(a[n - 1] == b[n - 1]);
    }
}

/// What a coordinate contributes to a squared distance: moving a point along it
/// changes the square of the difference in that coordinate, and nothing else.
pub proof fn law_exact_distance_by_coordinate(a: Seq<real>, b: Seq<real>, n: nat, k: int, x: real)
    requires
        0 <= k < n <= a.len(),
    ensures
        exact_distance(a.update(k, x), b, n) - exact_distance(a, b, n) == (x - b[k]) * (x - b[k])
            - (a[k] - b[k]) * (a[k] - b[k]),
    decreases n,
{
    if k == n - 1 {
        lemma_distance_of_prefixes(a.update(k, x), a, b, (n - 1) as nat);
    } else {
        law_exact_distance_by_coordinate(a, b, (n - 1) as nat, k, x);
        assert(a.update(k, x)[n - 1] == a[n - 1]);
    }
}

/// A point is at no distance from itself.
pub proof fn law_exact_distance_from_itself(a: Seq<real>, n: nat)
    ensures
        exact_distance(a, a, n) == 0 as real,
    decreases n,
{
    if n > 0 {
        law_exact_distance_from_itself(a, (n - 1) as nat);
        let x = a[n - 1] - a[n - 1];
        assert(x * x == 0 as real) by (nonlinear_arith)
            requires
                x == 0 as real,
        ;
    }
}

proof fn lemma_product_of_prefixes(a: Seq<real>, b: Seq<real>, c: Seq<real>, n: nat)
    requires
        forall|i: int| 0 <= i < n ==> #[trigger] a[i] == b[i],
    ensures
        inner_product(a, c, n) == inner_product(b, c, n),
    decreases n,
{
    if n > 0 {
        lemma_product_of_prefixes(a, b, c, (n - 1) as nat);
        assert(a[n - 1] == b[n - 1]);
    }
}

/// What a coordinate contributes to an inner product.
pub proof fn law_inner_product_by_coordinate(a: Seq<real>, b: Seq<real>, n: nat, k: int, x: real)
    requires
        0 <= k < n <= a.len(),
    ensures
        inner_product(a.update(k, x), b, n) - inner_product(a, b, n) == x * b[k] - a[k] * b[k],
    decreases n,
{
    if k == n - 1 {
        lemma_product_of_prefixes(a.update(k, x), a, b, (n - 1) as nat);
    } else {
        law_inner_product_by_coordinate(a, b, (n - 1) as nat, k, x);
        assert(a.update(k, x)[n - 1] == a[n - 1]);
    }
}

} // verus!
