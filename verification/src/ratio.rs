//! How many centroids a number of documents gets.
//!
//! The number is the product of the document count and a ratio, computed in
//! double precision and rounded up. Both roundings of that computation, of the
//! document count and of the product, are to the nearest number with 53
//! significant bits, and can be computed on integers.
use vstd::prelude::*;
use vstd::arithmetic::div_mod::{
    lemma_div_denominator, lemma_div_is_ordered, lemma_div_pos_is_pos, lemma_fundamental_div_mod,
    lemma_fundamental_div_mod_converse,
};
use vstd::arithmetic::mul::lemma_mul_inequality;
use vstd::arithmetic::power2::{
    lemma2_to64, lemma_pow2_adds, lemma_pow2_pos, lemma_pow2_strictly_increases, lemma_pow2_unfold,
    pow2,
};
use crate::single::{Single, ONE_BITS};

verus! {

/// The numbers below this have no more than 53 bits.
pub const SIGNIFICANT: u128 = 0x20_0000_0000_0000;

/// The number of values of the fraction field of a single-precision pattern.
pub const FRACTIONS: u32 = 0x80_0000;

/// How many bits of a number are beyond its 53 leading ones.
pub open spec fn excess_bits(n: nat) -> nat
    decreases n,
{
    if n < SIGNIFICANT {
        0
    } else {
        1 + excess_bits(n / 2)
    }
}

/// The nearest number with 53 significant bits; of two equally near, the one
/// whose last bit is zero.
pub open spec fn to_53_bits(n: nat) -> nat {
    let unit = pow2(excess_bits(n));
    let low = n / unit;
    let rest = n % unit;
    if 2 * rest > unit || (2 * rest == unit && low % 2 == 1) {
        (low + 1) * unit
    } else {
        low * unit
    }
}

/// The significand of a non-negative value, as an integer.
pub open spec fn significand(x: Single) -> nat {
    if x.bits < FRACTIONS {
        x.bits as nat
    } else {
        (FRACTIONS + x.bits % FRACTIONS) as nat
    }
}

/// By which power of two the significand of a non-negative value of at most one
/// is divided.
pub open spec fn divisor_bits(x: Single) -> nat {
    if x.bits < FRACTIONS {
        149
    } else {
        (150 - x.bits / FRACTIONS) as nat
    }
}

/// The product of a count and a ratio in double precision, rounded up.
pub open spec fn scaled_count(total: nat, ratio: Single) -> nat {
    let product = to_53_bits(to_53_bits(total) * significand(ratio));
    let divisor = pow2(divisor_bits(ratio));
    ((product + divisor - 1) / divisor as int) as nat
}

/// The scaled count, but at least one and at most the count itself.
pub open spec fn centroid_count(total: nat, ratio: Single) -> nat {
    let scaled = scaled_count(total, ratio);
    if scaled < 1 {
        1
    } else if scaled > total {
        total
    } else {
        scaled
    }
}

fn round_to_53_bits(n: u128) -> (r: u128)
    requires
        n <= 0x200_0000_0000_0000_0000_0000,
    ensures
        r == to_53_bits(n as nat),
        n > 0 ==> r > 0,
        r <= 2 * n,
{
    let mut low: u128 = n;
    let mut unit: u128 = 1;
    let ghost mut dropped: nat = 0;
    proof {
        lemma2_to64();
    }
    while low >= SIGNIFICANT
        invariant
            n <= 0x200_0000_0000_0000_0000_0000,
            unit == pow2(dropped),
            unit >= 1,
            low == n / unit,
            low * unit <= n,
            dropped + excess_bits(low as nat) == excess_bits(n as nat),
            n > 0 ==> low > 0,
        decreases low,
    {
        proof {
            lemma_div_denominator(n as int, unit as int, 2);
            lemma_pow2_unfold(dropped + 1);
            assert(unit <= n) by (nonlinear_arith)
                requires
                    low * unit <= n,
                    low >= 1,
                    unit >= 1,
            ;
            assert((low / 2) * (2 * unit) <= low * unit) by (nonlinear_arith)
                requires
                    unit >= 1,
                    2 * (low / 2) <= low,
            ;
            dropped = dropped + 1;
        }
        low = low / 2;
        unit = unit * 2;
    }
    proof {
        lemma_fundamental_div_mod(n as int, unit as int);
        assert(low * unit == unit * low) by (nonlinear_arith);
        assert(excess_bits(low as nat) == 0);
        assert(n % unit == n - low * unit);
        assert((low + 1) * unit == low * unit + unit) by (nonlinear_arith);
        assert(0 <= n % unit < unit);
        assert(low > 0 ==> low * unit >= unit) by (nonlinear_arith)
            requires
                unit >= 1,
                low >= 0,
        ;
    }
    let rest: u128 = n - low * unit;
    if 2 * rest > unit || (2 * rest == unit && low % 2 == 1) {
        (low + 1) * unit
    } else {
        low * unit
    }
}

/// The number of centroids for `total` documents.
pub fn num_centroids(total: usize, ratio: Single) -> (n: usize)
    requires
        total >= 1,
        0 < ratio.bits <= ONE_BITS,
    ensures
        n == centroid_count(total as nat, ratio),
        1 <= n <= total,
{
    let (digits, shift): (u32, u32) = if ratio.bits < FRACTIONS {
        (ratio.bits, 149)
    } else {
        (FRACTIONS + ratio.bits % FRACTIONS, 150 - ratio.bits / FRACTIONS)
    };
    assert(23 <= shift <= 149);
    assert(0 < digits <= 0xff_ffff);
    let count: u128 = round_to_53_bits(total as u128);
    proof {
        assert(count * digits <= 0x2_0000_0000_0000_0000 * 0xff_ffff) by (nonlinear_arith)
            requires
                count <= 0x2_0000_0000_0000_0000,
                digits <= 0xff_ffff,
        ;
        assert(count * digits > 0) by (nonlinear_arith)
            requires
                count > 0,
                digits > 0,
        ;
    }
    let product: u128 = round_to_53_bits(count * (digits as u128));
    let ghost divisor = pow2(shift as nat);
    proof {
        lemma_pow2_pos(shift as nat);
    }
    if shift > 100 {
        proof {
            lemma_pow2_bound(shift as nat);
            assert((product + divisor - 1) / divisor as int == 1) by (nonlinear_arith)
                requires
                    0 < product <= divisor,
            ;
        }
        1
    } else {
        let mut unit: u128 = 1;
        let mut i: u32 = 0;
        proof {
            lemma2_to64();
            lemma_pow2_hundred();
        }
        while i < shift
            invariant
                i <= shift <= 100,
                unit == pow2(i as nat),
                unit <= pow2(100),
            decreases shift - i,
        {
            proof {
                lemma_pow2_unfold((i + 1) as nat);
                lemma_pow2_hundred();
                if i + 1 < 100 {
                    lemma_pow2_strictly_increases((i + 1) as nat, 100);
                }
            }
            unit = unit * 2;
            i = i + 1;
        }
        proof {
            lemma_pow2_hundred();
        }
        let scaled: u128 = (product + unit - 1) / unit;
        if scaled < 1 {
            1
        } else if scaled > total as u128 {
            total
        } else {
            scaled as usize
        }
    }
}

proof fn lemma_pow2_hundred()
    ensures
        pow2(100) == 0x10_0000_0000_0000_0000_0000_0000,
{
    lemma2_to64();
    lemma_pow2_adds(32, 4);
    lemma_pow2_adds(64, 36);
    assert(pow2(36) == 0x10_0000_0000);
    assert(pow2(64) * pow2(36) == 0x10_0000_0000_0000_0000_0000_0000) by (nonlinear_arith)
        requires
            pow2(36) == 0x10_0000_0000,
            pow2(64) == 0x1_0000_0000_0000_0000,
    ;
}

proof fn lemma_pow2_bound(k: nat)
    requires
        k > 100,
    ensures
        pow2(k) > 0x10_0000_0000_0000_0000_0000_0000,
{
    lemma_pow2_hundred();
    lemma_pow2_strictly_increases(100, k);
}

/// What is left of a number without its excess bits has 53 bits at most, and
/// exactly 53 if there were any.
proof fn lemma_leading_bits(n: nat)
    ensures
        n / pow2(excess_bits(n)) < SIGNIFICANT,
        excess_bits(n) > 0 ==> SIGNIFICANT <= 2 * (n / pow2(excess_bits(n))),
    decreases n,
{
    lemma2_to64();
    if n >= SIGNIFICANT {
        let e = excess_bits(n / 2);
        lemma_leading_bits(n / 2);
        lemma_pow2_pos(e);
        lemma_pow2_unfold(e + 1);
        lemma_div_denominator(n as int, 2, pow2(e) as int);
        if e == 0 {
            assert(n / 2 / pow2(0) == n / 2);
        }
    } else {
        assert(n / pow2(0) == n);
    }
}

proof fn lemma_excess_grows(a: nat, b: nat)
    requires
        a <= b,
    ensures
        excess_bits(a) <= excess_bits(b),
    decreases b,
{
    if a >= SIGNIFICANT {
        lemma_excess_grows(a / 2, b / 2);
    }
}

/// Rounding gives at most 53 leading bits, or one more than fits in them, times a
/// power of two.
proof fn lemma_rounded_form(n: nat) -> (l: nat)
    ensures
        l <= SIGNIFICANT,
        to_53_bits(n) == l * pow2(excess_bits(n)),
        l == n / pow2(excess_bits(n)) || l == n / pow2(excess_bits(n)) + 1,
{
    lemma_leading_bits(n);
    let unit = pow2(excess_bits(n));
    let low = n / unit;
    if to_53_bits(n) == low * unit {
        low
    } else {
        low + 1
    }
}

/// Rounding keeps the order of numbers.
proof fn lemma_rounding_grows(a: nat, b: nat)
    requires
        a <= b,
    ensures
        to_53_bits(a) <= to_53_bits(b),
{
    let ea = excess_bits(a);
    let eb = excess_bits(b);
    let ua = pow2(ea);
    let ub = pow2(eb);
    lemma_excess_grows(a, b);
    lemma_leading_bits(a);
    lemma_leading_bits(b);
    lemma_pow2_pos(ea);
    lemma_pow2_pos(eb);
    let la = lemma_rounded_form(a);
    let lb = lemma_rounded_form(b);
    if ea == eb {
        lemma_fundamental_div_mod(a as int, ua as int);
        lemma_fundamental_div_mod(b as int, ua as int);
        lemma_div_is_ordered(a as int, b as int, ua as int);
        assert(la * ua <= lb * ua) by {
            assert(la <= lb) by {
                if a / ua == b / ua {
                    let q = a / ua;
                    assert(a % ua <= b % ua);
                    assert((q + 1) * ua != q * ua) by (nonlinear_arith)
                        requires
                            ua > 0,
                    ;
                }
            }
            lemma_mul_inequality(la as int, lb as int, ua as int);
        }
    } else {
        let half: nat = (SIGNIFICANT / 2) as nat;
        lemma_mul_inequality(la as int, 2 * half as int, ua as int);
        lemma_mul_inequality(half as int, lb as int, ub as int);
        lemma_pow2_unfold(ea + 1);
        if ea + 1 < eb {
            lemma_pow2_strictly_increases(ea + 1, eb);
        }
        assert(2 * half * ua <= half * ub) by (nonlinear_arith)
            requires
                2 * ua <= ub,
        ;
    }
}

/// Rounding twice a number, if it is long enough, is twice rounding it.
proof fn lemma_rounding_doubles(h: nat)
    requires
        2 * h >= SIGNIFICANT,
    ensures
        to_53_bits(2 * h) == 2 * to_53_bits(h),
{
    let e = excess_bits(h);
    let u = pow2(e);
    let q = h / u;
    let r = h % u;
    assert(excess_bits(2 * h) == 1 + excess_bits((2 * h) / 2));
    assert((2 * h) / 2 == h);
    lemma_pow2_pos(e);
    lemma_pow2_unfold(e + 1);
    lemma_fundamental_div_mod(h as int, u as int);
    assert(2 * h == q * (2 * u) + 2 * r) by (nonlinear_arith)
        requires
            h == u * q + r,
    ;
    lemma_fundamental_div_mod_converse((2 * h) as int, (2 * u) as int, q as int, (2 * r) as int);
    assert(q * (2 * u) == 2 * (q * u) && (q + 1) * (2 * u) == 2 * ((q + 1) * u)) by (nonlinear_arith);
}

/// A number of at most 53 bits, or one more than fits in them, times a power of
/// two, needs no rounding.
proof fn lemma_rounding_is_exact(l: nat, j: nat)
    requires
        l <= SIGNIFICANT,
    ensures
        to_53_bits(l * pow2(j)) == l * pow2(j),
    decreases j,
{
    lemma2_to64();
    let n = l * pow2(j);
    if n < SIGNIFICANT {
        assert(excess_bits(n) == 0);
        assert(n / 1 == n && n % 1 == 0);
    } else if j == 0 {
        assert(n == l) by (nonlinear_arith)
            requires
                n == l * pow2(j),
                pow2(j) == 1,
        ;
        let half: nat = (SIGNIFICANT / 2) as nat;
        assert(n == 2 * half);
        assert(excess_bits(half) == 0);
        assert(half / 1 == half && half % 1 == 0);
        lemma_rounding_doubles(half);
    } else {
        let h = l * pow2((j - 1) as nat);
        lemma_pow2_unfold(j);
        assert(n == 2 * h) by (nonlinear_arith)
            requires
                n == l * pow2(j),
                pow2(j) == 2 * pow2((j - 1) as nat),
                h == l * pow2((j - 1) as nat),
        ;
        lemma_rounding_is_exact(l, (j - 1) as nat);
        lemma_rounding_doubles(h);
    }
}

/// More documents never get fewer centroids.
pub proof fn law_centroids_grow_with_documents(few: nat, many: nat, ratio: Single)
    requires
        1 <= few <= many,
    ensures
        centroid_count(few, ratio) <= centroid_count(many, ratio),
{
    let s = significand(ratio);
    let divisor = pow2(divisor_bits(ratio));
    lemma_pow2_pos(divisor_bits(ratio));
    lemma_rounding_grows(few, many);
    lemma_mul_inequality(to_53_bits(few) as int, to_53_bits(many) as int, s as int);
    lemma_rounding_grows(to_53_bits(few) * s, to_53_bits(many) * s);
    lemma_div_is_ordered(
        to_53_bits(to_53_bits(few) * s) + divisor - 1,
        to_53_bits(to_53_bits(many) * s) + divisor - 1,
        divisor as int,
    );
}

/// A rounded quotient by a power of two does not grow where the divisor doubles
/// at least as often as the dividend.
proof fn lemma_rounded_up(x: nat, y: nat, base: nat, j: nat, k: nat)
    requires
        k < j,
        x <= 2 * base,
        base <= y,
    ensures
        (x + pow2(j) - 1) / pow2(j) as int <= (y + pow2(k) - 1) / pow2(k) as int,
{
    let a = pow2(j) as int;
    let b = pow2(k) as int;
    lemma_pow2_pos(j);
    lemma_pow2_pos(k);
    lemma_pow2_unfold(k + 1);
    if k + 1 < j {
        lemma_pow2_strictly_increases(k + 1, j);
    }
    let q = (y + b - 1) / b;
    lemma_fundamental_div_mod(y + b - 1, b);
    assert(y <= q * b) by (nonlinear_arith)
        requires
            y + b - 1 == b * q + (y + b - 1) % b,
            (y + b - 1) % b < b,
    ;
    assert(0 <= q) by {
        lemma_div_pos_is_pos(y + b - 1, b);
    }
    assert(2 * (q * b) <= q * a) by (nonlinear_arith)
        requires
            2 * b <= a,
            0 <= q,
    ;
    assert(x + a - 1 < (q + 1) * a) by (nonlinear_arith)
        requires
            x <= q * a,
    ;
    let p = (x + a - 1) / a;
    lemma_fundamental_div_mod(x + a - 1, a);
    assert(p <= q) by (nonlinear_arith)
        requires
            x + a - 1 == a * p + (x + a - 1) % a,
            0 <= (x + a - 1) % a,
            x + a - 1 < (q + 1) * a,
            a > 0,
    ;
}

/// A larger ratio never gives fewer centroids.
pub proof fn law_centroids_grow_with_ratio(total: nat, small: Single, large: Single)
    requires
        1 <= total,
        0 < small.bits <= large.bits <= ONE_BITS,
    ensures
        centroid_count(total, small) <= centroid_count(total, large),
{
    let count = to_53_bits(total);
    let s = significand(small);
    let t = significand(large);
    let j = divisor_bits(small);
    let k = divisor_bits(large);
    lemma_pow2_pos(j);
    if j == k {
        assert(s <= t);
        lemma_mul_inequality(s as int, t as int, count as int);
        assert(count * s <= count * t) by (nonlinear_arith)
            requires
                s * count <= t * count,
        ;
        lemma_rounding_grows(count * s, count * t);
        lemma_div_is_ordered(
            to_53_bits(count * s) + pow2(j) - 1,
            to_53_bits(count * t) + pow2(j) - 1,
            pow2(j) as int,
        );
    } else {
        assert(k < j);
        let half: nat = FRACTIONS as nat;
        assert(s <= 2 * half);
        assert(half <= t);
        let l = lemma_rounded_form(total);
        let e = excess_bits(total);
        lemma2_to64();
        lemma_pow2_adds(e, 23);
        lemma_pow2_adds(e, 24);
        assert(pow2(23) == half && pow2(24) == 2 * half);
        let base = count * half;
        assert(base == l * pow2(e + 23) && 2 * base == l * pow2(e + 24)) by (nonlinear_arith)
            requires
                base == count * half,
                count == l * pow2(e),
                pow2(e + 23) == pow2(e) * half,
                pow2(e + 24) == pow2(e) * (2 * half),
        ;
        lemma_rounding_is_exact(l, e + 23);
        lemma_rounding_is_exact(l, e + 24);
        assert(count * s <= 2 * base && base <= count * t) by (nonlinear_arith)
            requires
                base == count * half,
                s <= 2 * half,
                half <= t,
        ;
        lemma_rounding_grows(count * s, 2 * base);
        lemma_rounding_grows(base, count * t);
        lemma_rounded_up(to_53_bits(count * s), to_53_bits(count * t), base, j, k);
    }
}

/// Rounding to 53 bits changes a number by no more than one part in two to the 53rd.
proof fn lemma_rounding_error(n: nat)
    ensures
        (SIGNIFICANT - 1) * n <= SIGNIFICANT * to_53_bits(n) <= (SIGNIFICANT + 1) * n,
        n < SIGNIFICANT ==> to_53_bits(n) == n,
{
    let e = excess_bits(n);
    let unit = pow2(e);
    let low = n / unit;
    let rest = n % unit;
    lemma2_to64();
    lemma_pow2_pos(e);
    lemma_leading_bits(n);
    lemma_fundamental_div_mod(n as int, unit as int);
    if n < SIGNIFICANT {
        assert(n / 1 == n && n % 1 == 0);
        assert(to_53_bits(n) == n);
    } else {
        let half: nat = (SIGNIFICANT / 2) as nat;
        assert(half * unit <= n) by (nonlinear_arith)
            requires
                half <= low,
                n == unit * low + rest,
                0 <= rest,
        ;
        let r = to_53_bits(n);
        assert(low * unit == n - rest) by (nonlinear_arith)
            requires
                n == unit * low + rest,
        ;
        assert((low + 1) * unit == n - rest + unit) by (nonlinear_arith)
            requires
                low * unit == n - rest,
        ;
        assert(2 * r <= 2 * n + unit && 2 * n <= 2 * r + unit);
        assert((2 * half - 1) * n <= 2 * half * r <= (2 * half + 1) * n) by (nonlinear_arith)
            requires
                2 * r <= 2 * n + unit,
                2 * n <= 2 * r + unit,
                half * unit <= n,
        ;
    }
}

/// How the number of centroids relates to the number of documents and the ratio. A
/// ratio of at most one is a whole number over a power of two: its low 23 bits, with
/// a leading one unless the other bits are zero, over two to the power that these
/// tell. The number of centroids is that part of the documents, rounded up, but at
/// least one and at most all: exactly where the product has no more than 53 bits,
/// and else up to one part in two to the 53rd for each of its two roundings.
pub proof fn law_centroid_count_is_the_part(total: nat, ratio: Single, s: nat, k: nat)
    requires
        1 <= total,
        0 < ratio.bits <= 0x3f80_0000,
        ratio.bits < 0x80_0000 ==> s == ratio.bits && k == 149,
        ratio.bits >= 0x80_0000 ==> s == 0x80_0000 + ratio.bits % 0x80_0000 && k + ratio.bits
            / 0x80_0000 == 150,
    ensures
        ({
            let n = centroid_count(total, ratio);
            let q = 0x20_0000_0000_0000int;
            &&& 1 <= n <= total
            &&& n < total ==> (q - 1) * (q - 1) * (total * s) <= q * q * (n * pow2(k))
            &&& n > 1 ==> q * q * ((n - 1) * pow2(k)) < (q + 1) * (q + 1) * (total * s)
            &&& total * s < q && n < total ==> total * s <= n * pow2(k)
            &&& total * s < q && n > 1 ==> (n - 1) * pow2(k) < total * s
        }),
{
    let q = SIGNIFICANT as int;
    let n = centroid_count(total, ratio) as int;
    let d = pow2(k) as int;
    assert(s == significand(ratio) && k == divisor_bits(ratio));
    let count = to_53_bits(total);
    let x = to_53_bits(count * s);
    let scaled = scaled_count(total, ratio) as int;
    lemma_pow2_pos(k);
    lemma_rounding_error(total);
    lemma_rounding_error(count * s);
    lemma_fundamental_div_mod(x + d - 1, d);
    let z = (x + d - 1) / d;
    assert(z >= 0) by {
        lemma_div_pos_is_pos(x + d - 1, d);
    }
    assert(scaled == z);
    assert(x <= scaled * d && (scaled - 1) * d < x) by (nonlinear_arith)
        requires
            scaled == z,
            x + d - 1 == d * z + (x + d - 1) % d,
            0 <= (x + d - 1) % d < d,
    ;
    if n < total {
        assert(x <= n * d) by (nonlinear_arith)
            requires
                scaled <= n,
                x <= scaled * d,
                0 < d,
        ;
    }
    if n > 1 {
        assert((n - 1) * d < x) by (nonlinear_arith)
            requires
                n <= scaled,
                (scaled - 1) * d < x,
                0 < d,
        ;
    }
    let t = total as int;
    let c = count as int;
    let w = s as int;
    assert((q - 1) * (q - 1) * (t * w) <= q * q * x && q * q * x <= (q + 1) * (q + 1) * (t * w)) by {
        lemma_two_roundings(q, t, c, w, x as int);
    }
    if n < total {
        assert(q * q * x <= q * q * (n * d)) by (nonlinear_arith)
            requires
                x <= n * d,
        ;
    }
    if n > 1 {
        assert(q * q * ((n - 1) * d) < q * q * x) by (nonlinear_arith)
            requires
                (n - 1) * d < x,
                q > 0,
        ;
    }
    if total * s < q {
        assert(total <= total * s) by (nonlinear_arith)
            requires
                1 <= s,
        ;
    }
}

proof fn lemma_two_roundings(q: int, t: int, c: int, w: int, x: int)
    requires
        q > 1,
        t >= 0,
        c >= 0,
        w >= 0,
        (q - 1) * t <= q * c <= (q + 1) * t,
        (q - 1) * (c * w) <= q * x <= (q + 1) * (c * w),
    ensures
        (q - 1) * (q - 1) * (t * w) <= q * q * x <= (q + 1) * (q + 1) * (t * w),
{
    let a = q - 1;
    let b = q + 1;
    assert(a * t * w <= q * c * w && q * c * w <= b * t * w) by (nonlinear_arith)
        requires
            a * t <= q * c,
            q * c <= b * t,
            w >= 0,
    ;
    assert(a * (a * t * w) <= a * (q * c * w) && b * (q * c * w) <= b * (b * t * w)) by (nonlinear_arith)
        requires
            a * t * w <= q * c * w,
            q * c * w <= b * t * w,
            a >= 0,
            b >= 0,
    ;
    assert(q * (a * (c * w)) <= q * (q * x) && q * (q * x) <= q * (b * (c * w))) by (nonlinear_arith)
        requires
            a * (c * w) <= q * x,
            q * x <= b * (c * w),
            q > 1,
    ;
    assert(a * (q * c * w) == q * (a * (c * w)) && b * (q * c * w) == q * (b * (c * w))) by (nonlinear_arith);
    assert(a * (a * t * w) == a * a * (t * w) && b * (b * t * w) == b * b * (t * w)) by (nonlinear_arith);
    assert(q * (q * x) == q * q * x) by (nonlinear_arith);
}

/// Whether `r` is the double-precision number nearest to `n`: `n` itself below two
/// to the 53rd, and else a multiple of the unit of the last of 53 bits, at most half
/// a unit away, and an even multiple if it is half a unit away.
pub open spec fn is_nearest_double(n: nat, r: nat) -> bool {
    if n < 0x20_0000_0000_0000 {
        r == n
    } else {
        exists|e: nat, multiple: nat| #[trigger] is_rounded_to(n, r, pow2(e), multiple)
    }
}

/// Whether `r` is the given multiple of the unit of the last of 53 bits of `n`, at
/// most half a unit away, and an even multiple if it is half a unit away.
pub open spec fn is_rounded_to(n: nat, r: nat, unit: nat, multiple: nat) -> bool {
    &&& 0x10_0000_0000_0000 * unit <= n < 0x20_0000_0000_0000 * unit
    &&& r == multiple * unit
    &&& -unit <= 2 * (r - n) <= unit
    &&& 2 * (r - n) == unit || 2 * (n - r) == unit ==> multiple % 2 == 0
}

proof fn lemma_nearest_double(n: nat)
    ensures
        is_nearest_double(n, to_53_bits(n)),
{
    let e = excess_bits(n);
    let unit = pow2(e);
    let low = n / unit;
    let rest = n % unit;
    lemma_rounding_error(n);
    lemma_pow2_pos(e);
    lemma_leading_bits(n);
    lemma_fundamental_div_mod(n as int, unit as int);
    if n >= SIGNIFICANT {
        let multiple = if 2 * rest > unit || (2 * rest == unit && low % 2 == 1) {
            low + 1
        } else {
            low
        };
        assert(low * unit == n - rest && (low + 1) * unit == n - rest + unit) by (nonlinear_arith)
            requires
                n == unit * low + rest,
        ;
        assert(0x10_0000_0000_0000 * unit <= n < 0x20_0000_0000_0000 * unit) by (nonlinear_arith)
            requires
                n == unit * low + rest,
                0 <= rest < unit,
                0x20_0000_0000_0000 <= 2 * low,
                low < 0x20_0000_0000_0000,
        ;
        assert(is_rounded_to(n, to_53_bits(n), pow2(e), multiple));
    }
}

/// The number of centroids is computed in double precision: the number of documents
/// is rounded to the nearest double, and so is its product with the ratio's
/// significand. What comes out, over the power of two that the ratio tells, is
/// rounded up, but at least one and at most all documents.
pub proof fn law_centroid_count_in_double_precision(total: nat, ratio: Single, s: nat, k: nat)
    requires
        1 <= total,
        0 < ratio.bits <= 0x3f80_0000,
        ratio.bits < 0x80_0000 ==> s == ratio.bits && k == 149,
        ratio.bits >= 0x80_0000 ==> s == 0x80_0000 + ratio.bits % 0x80_0000 && k + ratio.bits
            / 0x80_0000 == 150,
    ensures
        exists|documents: nat, product: nat|
            {
                let n = centroid_count(total, ratio);
                &&& #[trigger] is_nearest_double(total, documents)
                &&& #[trigger] is_nearest_double(documents * s, product)
                &&& 1 <= n <= total
                &&& n < total ==> product <= n * pow2(k)
                &&& n > 1 ==> (n - 1) * pow2(k) < product
            },
{
    let n = centroid_count(total, ratio) as int;
    let d = pow2(k) as int;
    assert(s == significand(ratio) && k == divisor_bits(ratio));
    let documents = to_53_bits(total);
    let product = to_53_bits(documents * s);
    let scaled = scaled_count(total, ratio) as int;
    lemma_nearest_double(total);
    lemma_nearest_double(documents * s);
    lemma_pow2_pos(k);
    lemma_fundamental_div_mod(product + d - 1, d);
    let z = (product + d - 1) / d;
    lemma_div_pos_is_pos(product + d - 1, d);
    assert(product <= scaled * d && (scaled - 1) * d < product) by (nonlinear_arith)
        requires
            scaled == z,
            product + d - 1 == d * z + (product + d - 1) % d,
            0 <= (product + d - 1) % d < d,
    ;
    if n < total {
        assert(product <= n * d) by (nonlinear_arith)
            requires
                scaled <= n,
                product <= scaled * d,
                0 < d,
        ;
    }
    if n > 1 {
        assert((n - 1) * d < product) by (nonlinear_arith)
            requires
                n <= scaled,
                (scaled - 1) * d < product,
                0 < d,
        ;
    }
    assert(is_nearest_double(total, documents) && is_nearest_double(documents * s, product));
}

} // verus!
