//! The angle between two sides, by the real numbers that its cosine stands for.

use crate::number::{Arithmetic, Single};
use crate::polygon::{distance, Point};
use crate::quad::deviation;
use crate::range::is_finite;
use crate::shape::{
    are_placed, deviation_is_from_a_right_angle, distance_is_euclidean, is_placed,
    lemma_distance_size, lemma_rounded_size,
};
use crate::value::{
    is_near, is_rounded, lemma_large, lemma_product_error, lemma_product_size, lemma_scale_monotone,
    lemma_scale_numbers, lemma_scale_sum, lemma_value_ratio, lemma_value_units, rounds_closely,
    scale, value, values_are_ordered,
};
use crate::whole::size;
use vstd::prelude::*;

verus! {

/// Some limits on small powers of two.
proof fn lemma_small_scales()
    ensures
        0real < scale(-149) <= 1real / 1000000000000000real,
        0real < scale(-50) <= 1real / 1000000000000000real,
{
    lemma_scale_numbers();
    lemma_scale_sum(-25, -25);
    let g = scale(-25);
    assert(g * g <= 1real / 1000000000000000real) by (nonlinear_arith)
        requires
            g == 1real / 33554432real,
    ;
    lemma_scale_monotone(-149, -50);
}

/// A larger number has the larger square.
proof fn lemma_square_order(v: real, a: real)
    requires
        0real <= v < a,
    ensures
        v * v < a * a,
{
    assert(v * v < a * a) by (nonlinear_arith)
        requires
            0real <= v < a,
    ;
}

/// A part of a vector is not longer than the vector.
proof fn lemma_component(x: real, y: real, l: real, e: real)
    requires
        0real <= l,
        x * x + y * y - ((x * x + y * y) / 500000real + e) <= l * l,
        e <= l * l / 100000real,
    ensures
        size(x) <= 1001real / 1000real * l,
        size(y) <= 1001real / 1000real * l,
{
    let v = 1001real / 1000real * l;
    assert(v * v == 1002001real / 1000000real * (l * l)) by (nonlinear_arith)
        requires
            v == 1001real / 1000real * l,
    ;
    assert(0real <= x * x) by (nonlinear_arith);
    assert(0real <= y * y) by (nonlinear_arith);
    assert(0real <= l * l) by (nonlinear_arith);
    let (a, b) = (size(x), size(y));
    assert(a * a == x * x) by (nonlinear_arith)
        requires
            a == x || a == -x,
    ;
    assert(b * b == y * y) by (nonlinear_arith)
        requires
            b == y || b == -y,
    ;
    if v < a {
        lemma_square_order(v, a);
    }
    if v < b {
        lemma_square_order(v, b);
    }
}

/// A length that counts for an angle is not below 1e-3 by much.
proof fn lemma_least_side(l: Single)
    requires
        is_finite(l),
        !l.less(Single::of(0x3a83_126f)),
    ensures
        value(l) >= 99real / 100000real,
{
    lemma_scale_numbers();
    lemma_value_ratio(0x3a83_126f, 117, 201327, 8589934592real);
    assert((0x0080_0000 + 201327) as real == 8589935real);
    values_are_ordered(l, Single::of(0x3a83_126f));
}

/// A coordinate of a side, with its error in proportion to the length.
proof fn lemma_rounded_part<A: Arithmetic>(a: Single, b: Single, l: real)
    requires
        rounds_closely::<A>(),
        is_finite(a),
        is_finite(b),
        size(value(a) - value(b)) <= 1001real / 1000real * l,
        99real / 100000real <= l <= 33554432real,
    ensures
        is_near(A::diff_of(a, b), value(a) - value(b), l / 16000000real),
{
    lemma_large();
    lemma_scale_numbers();
    lemma_small_scales();
    let x = value(a) - value(b);
    assert(is_rounded(A::diff_of(a, b), x)) by {
        reveal(rounds_closely);
    }
    lemma_rounded_size(x, scale(-24));
}

/// The parts of the side from `b` to `a`, and its length.
proof fn lemma_arm<A: Arithmetic>(a: Point, b: Point)
    requires
        rounds_closely::<A>(),
        is_placed(a, 8388608real),
        is_placed(b, 8388608real),
        !distance::<A>(a, b).less(Single::of(0x3a83_126f)),
    ensures
        ({
            let (x, y) = (value(a.0) - value(b.0), value(a.1) - value(b.1));
            let l = value(distance::<A>(a, b));
            &&& is_finite(distance::<A>(a, b))
            &&& is_near(A::diff_of(a.0, b.0), x, l / 16000000real)
            &&& is_near(A::diff_of(a.1, b.1), y, l / 16000000real)
            &&& size(x) <= 1001real / 1000real * l
            &&& size(y) <= 1001real / 1000real * l
            &&& 99real / 100000real <= l <= 33554432real
        }),
{
    let (x, y) = (value(a.0) - value(b.0), value(a.1) - value(b.1));
    let l = value(distance::<A>(a, b));
    lemma_distance_size::<A>(a, b);
    distance_is_euclidean::<A>(a, b);
    lemma_least_side(distance::<A>(a, b));
    lemma_small_scales();
    assert(l * l >= 9real / 10000000real) by (nonlinear_arith)
        requires
            99real / 100000real <= l,
    ;
    lemma_component(x, y, l, scale(-50));
    lemma_rounded_part::<A>(a.0, b.0, l);
    lemma_rounded_part::<A>(a.1, b.1, l);
}

/// Parts of two lengths multiplied.
proof fn lemma_parts(c: real, d: real, l: real, k: real)
    ensures
        (c * l) * (d * k) == (c * d) * (l * k),
{
    assert((c * l) * (d * k) == (c * d) * (l * k)) by (nonlinear_arith);
}

/// A product of parts of two sides.
proof fn lemma_part_product<A: Arithmetic>(
    a: Single,
    b: Single,
    x: real,
    y: real,
    l: real,
    k: real,
    q: real,
)
    requires
        rounds_closely::<A>(),
        is_near(a, x, 1real / 16000000real * l),
        is_near(b, y, 1real / 16000000real * k),
        size(x) <= 1001real / 1000real * l,
        size(y) <= 1001real / 1000real * k,
        0real <= l <= 33554432real,
        0real <= k <= 33554432real,
        9real / 10000000real <= q <= 33554432real * 33554432real,
        q == l * k,
    ensures
        is_near(A::prod_of(a, b), x * y, q / 4000000real),
        size(x * y) <= 1003real / 1000real * q,
{
    lemma_large();
    lemma_scale_numbers();
    lemma_small_scales();
    let (p, r) = (value(a), value(b));
    let (c, d, e) = (1001real / 1000real, 1002real / 1000real, 1real / 16000000real);
    lemma_product_error(p, r, x, y, e * l, e * k, d * k, c * l);
    lemma_product_size(p, r, d * l, d * k);
    lemma_product_size(x, y, c * l, c * k);
    lemma_parts(d, d, l, k);
    lemma_parts(c, c, l, k);
    lemma_parts(e, d, l, k);
    lemma_parts(c, e, l, k);
    assert(d * d == 1004004real / 1000000real);
    assert(c * c == 1002001real / 1000000real);
    assert(e * d == 1002real / 16000000000real);
    assert(c * e == 1001real / 16000000000real);
    assert((d * d) * q == 1004004real / 1000000real * q);
    assert((c * c) * q == 1002001real / 1000000real * q);
    assert((e * d) * q == 1002real / 16000000000real * q);
    assert((c * e) * q == 1001real / 16000000000real * q);
    let z = p * r;
    assert(is_rounded(A::prod_of(a, b), z)) by {
        reveal(rounds_closely);
    }
    lemma_rounded_size(z, scale(-24));
}

/// A sum of two products of parts of two sides.
proof fn lemma_dot<A: Arithmetic>(a: Single, b: Single, x: real, y: real, q: real)
    requires
        rounds_closely::<A>(),
        is_near(a, x, q / 4000000real),
        is_near(b, y, q / 4000000real),
        size(x) <= 1003real / 1000real * q,
        size(y) <= 1003real / 1000real * q,
        9real / 10000000real <= q <= 33554432real * 33554432real,
    ensures
        is_near(A::sum_of(a, b), x + y, q / 1500000real),
        size(x + y) <= 2006real / 1000real * q,
{
    lemma_large();
    lemma_scale_numbers();
    lemma_small_scales();
    let z = value(a) + value(b);
    assert(is_rounded(A::sum_of(a, b), z)) by {
        reveal(rounds_closely);
    }
    lemma_rounded_size(z, scale(-24));
}

/// A rounded quotient, times the divisor.
proof fn lemma_rounded_quotient(v: real, z: real, x: real, y: real, u: real, t: real)
    requires
        z * y == x,
        0real < y,
        u * 16777216real == 1real,
        0real <= t,
        -(size(z) * u + t) <= v - z <= size(z) * u + t,
    ensures
        -(size(x) / 16777216real + t * y) <= v * y - x <= size(x) / 16777216real + t * y,
{
    let g = size(z);
    lemma_rounded_size(z, u);
    assert((-z) * y == -(z * y)) by (nonlinear_arith);
    assert(g * y == size(x)) by {
        if z < 0real {
            assert(z * y < 0real) by (nonlinear_arith)
                requires
                    z < 0real,
                    0real < y,
            ;
        } else {
            assert(0real <= z * y) by (nonlinear_arith)
                requires
                    0real <= z,
                    0real < y,
            ;
        }
    }
    let d = v - z;
    assert(d * y == v * y - z * y) by (nonlinear_arith)
        requires
            d == v - z,
    ;
    let h = g / 16777216real + t;
    lemma_product_size(d, y, h, y);
    assert(h * y == (g * y) / 16777216real + t * y) by (nonlinear_arith)
        requires
            h == g / 16777216real + t,
    ;
}

/// The scalar product over the product of the lengths.
proof fn lemma_quotient<A: Arithmetic>(s: Single, n: Single, d: real, q: real)
    requires
        rounds_closely::<A>(),
        is_near(s, d, q / 1500000real),
        size(d) <= 2006real / 1000real * q,
        is_near(n, q, q / 16000000real),
        9real / 10000000real <= q <= 33554432real * 33554432real,
    ensures
        ({
            let r = value(A::quot_of(s, n));
            &&& is_finite(A::quot_of(s, n))
            &&& size(r * value(n) - value(s)) <= q / 4000000real
        }),
{
    lemma_large();
    lemma_scale_numbers();
    lemma_small_scales();
    let (x, y) = (value(s), value(n));
    assert(0real < y);
    let z = x / y;
    assert(z * y == x) by (nonlinear_arith)
        requires
            z == x / y,
            0real < y,
    ;
    assert(-3real <= z <= 3real) by (nonlinear_arith)
        requires
            z * y == x,
            -(3real * y) <= x <= 3real * y,
            0real < y,
    ;
    let r: Single = A::quot_of(s, n);
    assert(is_rounded(r, z)) by {
        reveal(rounds_closely);
    }
    let t = scale(-149);
    lemma_rounded_quotient(value(r), z, x, y, scale(-24), t);
    assert(t * y <= y / 1000000000000000real) by (nonlinear_arith)
        requires
            t <= 1real / 1000000000000000real,
            0real < y,
    ;
}

/// From the rounded product of the lengths to the product.
proof fn lemma_clamped(r: real, n: real, q: real, s: real, d: real)
    requires
        -(q / 4000000real) <= r * n - s <= q / 4000000real,
        -(q / 1500000real) <= s - d <= q / 1500000real,
        -(q / 16000000real) <= n - q <= q / 16000000real,
        0real < q,
    ensures
        -1real <= r <= 1real ==> -(q / 100000real) <= r * q - d <= q / 100000real,
        r > 1real ==> d >= q - q / 100000real,
        r < -1real ==> d <= -(q - q / 100000real),
{
    let e = q - n;
    assert(r * q == r * n + r * e) by (nonlinear_arith)
        requires
            e == q - n,
    ;
    if -1real <= r <= 1real {
        lemma_product_size(r, e, 1real, q / 16000000real);
    } else if r > 1real {
        assert(r * n >= n) by (nonlinear_arith)
            requires
                r > 1real,
                0real < n,
        ;
    } else {
        assert(r * n <= -n) by (nonlinear_arith)
            requires
                r < -1real,
                0real < n,
        ;
    }
}

/// The rounded product of two lengths.
proof fn lemma_lengths<A: Arithmetic>(a: Single, b: Single, q: real)
    requires
        rounds_closely::<A>(),
        is_finite(a),
        is_finite(b),
        q == value(a) * value(b),
        9real / 10000000real <= q <= 33554432real * 33554432real,
    ensures
        is_near(A::prod_of(a, b), q, q / 16000000real),
{
    lemma_large();
    lemma_scale_numbers();
    lemma_small_scales();
    assert(is_rounded(A::prod_of(a, b), q)) by {
        reveal(rounds_closely);
    }
    lemma_rounded_size(q, scale(-24));
}

/// `c` is the ratio of `d` to `q`. Where rounding takes it beyond 1 or -1, it is
/// that.
#[verifier::opaque]
pub open spec fn is_ratio(c: real, d: real, q: real) -> bool {
    &&& -1real <= c <= 1real
    &&& {
        ||| -(q / 100000real) <= c * q - d <= q / 100000real
        ||| c == 1real && d >= q - q / 100000real
        ||| c == -1real && d <= -(q - q / 100000real)
    }
}

/// `cosine` is that of the angle between the sides from `c` to `a` and from `c` to
/// `b`: the ratio of their scalar product to the product of their lengths.
pub open spec fn is_cosine<A: Arithmetic>(cosine: real, a: Point, c: Point, b: Point) -> bool {
    let (x, y) = (value(a.0) - value(c.0), value(a.1) - value(c.1));
    let (z, w) = (value(b.0) - value(c.0), value(b.1) - value(c.1));
    is_ratio(cosine, x * z + y * w, value(distance::<A>(a, c)) * value(distance::<A>(b, c)))
}

/// The deviation at a corner is how far the angle of the cosine of its two sides is
/// from 90 degrees. A corner has none where one of its sides is below 1e-3.
pub proof fn deviation_goes_by_the_cosine<A: Arithmetic>(c: Seq<Point>, i: int) -> (cosine: Single)
    requires
        rounds_closely::<A>(),
        c.len() == 4,
        are_placed(c, 8388608real),
        0 <= i < 4,
    ensures
        ({
            let a = c[if i == 0 {
                3
            } else {
                i - 1
            }];
            let b = c[if i == 3 {
                0
            } else {
                i + 1
            }];
            let short = Single::of(0x3a83_126f);
            &&& distance::<A>(a, c[i]).less(short) || distance::<A>(b, c[i]).less(short)
                ==> deviation::<A>(c, i) is None
            &&& !distance::<A>(a, c[i]).less(short) && !distance::<A>(b, c[i]).less(short)
                ==> is_finite(cosine) && is_cosine::<A>(value(cosine), a, c[i], b) && deviation::<A>(
                c,
                i,
            ) == Some(
                A::diff_of(A::degrees_of(A::acos_of(cosine)), Single::of(0x42b4_0000)).abs(),
            )
        }),
{
    let a: Point = c[if i == 0 {
        3
    } else {
        i - 1
    }];
    let b: Point = c[if i == 3 {
        0
    } else {
        i + 1
    }];
    let m: Point = c[i];
    assert(is_placed(a, 8388608real) && is_placed(b, 8388608real) && is_placed(m, 8388608real));
    deviation_is_from_a_right_angle::<A>(c, i);
    let (x, y) = (A::diff_of(a.0, m.0), A::diff_of(a.1, m.1));
    let (z, w) = (A::diff_of(b.0, m.0), A::diff_of(b.1, m.1));
    let (k, l) = (distance::<A>(a, m), distance::<A>(b, m));
    let raw: Single = A::quot_of(
        A::sum_of(A::prod_of(x, z), A::prod_of(y, w)),
        A::prod_of(k, l),
    );
    let cosine: Single = raw.clamp(Single::of(0xbf80_0000), Single::of(0x3f80_0000));
    let short: Single = Single::of(0x3a83_126f);
    if !k.less(short) && !l.less(short) {
        lemma_corner_cosine::<A>(a, m, b);
    }
    cosine
}

proof fn lemma_corner_cosine<A: Arithmetic>(a: Point, m: Point, b: Point)
    requires
        rounds_closely::<A>(),
        is_placed(a, 8388608real),
        is_placed(b, 8388608real),
        is_placed(m, 8388608real),
        !distance::<A>(a, m).less(Single::of(0x3a83_126f)),
        !distance::<A>(b, m).less(Single::of(0x3a83_126f)),
    ensures
        ({
            let (x, y) = (A::diff_of(a.0, m.0), A::diff_of(a.1, m.1));
            let (z, w) = (A::diff_of(b.0, m.0), A::diff_of(b.1, m.1));
            let cosine = A::quot_of(
                A::sum_of(A::prod_of(x, z), A::prod_of(y, w)),
                A::prod_of(distance::<A>(a, m), distance::<A>(b, m)),
            ).clamp(Single::of(0xbf80_0000), Single::of(0x3f80_0000));
            is_finite(cosine) && is_cosine::<A>(value(cosine), a, m, b)
        }),
{
    let (x, y) = (A::diff_of(a.0, m.0), A::diff_of(a.1, m.1));
    let (z, w) = (A::diff_of(b.0, m.0), A::diff_of(b.1, m.1));
    let (rx, ry) = (value(a.0) - value(m.0), value(a.1) - value(m.1));
    let (rz, rw) = (value(b.0) - value(m.0), value(b.1) - value(m.1));
    let (k, l) = (distance::<A>(a, m), distance::<A>(b, m));
    lemma_arm::<A>(a, m);
    lemma_arm::<A>(b, m);
    let (u, v) = (value(k), value(l));
    let q = u * v;
    assert(q >= 9real / 10000000real) by (nonlinear_arith)
        requires
            q == u * v,
            99real / 100000real <= u,
            99real / 100000real <= v,
    ;
    assert(q <= 33554432real * 33554432real) by (nonlinear_arith)
        requires
            q == u * v,
            0real <= u <= 33554432real,
            0real <= v <= 33554432real,
    ;
    lemma_part_product::<A>(x, z, rx, rz, u, v, q);
    lemma_part_product::<A>(y, w, ry, rw, u, v, q);
    lemma_lengths::<A>(k, l, q);
    lemma_ratio::<A>(A::prod_of(x, z), A::prod_of(y, w), A::prod_of(k, l), rx * rz, ry * rw, q);
}

proof fn lemma_ratio<A: Arithmetic>(a: Single, b: Single, n: Single, p: real, r: real, q: real)
    requires
        rounds_closely::<A>(),
        is_near(a, p, q / 4000000real),
        is_near(b, r, q / 4000000real),
        size(p) <= 1003real / 1000real * q,
        size(r) <= 1003real / 1000real * q,
        is_near(n, q, q / 16000000real),
        9real / 10000000real <= q <= 33554432real * 33554432real,
    ensures
        ({
            let cosine = A::quot_of(A::sum_of(a, b), n).clamp(
                Single::of(0xbf80_0000),
                Single::of(0x3f80_0000),
            );
            is_finite(cosine) && is_ratio(value(cosine), p + r, q)
        }),
{
    lemma_dot::<A>(a, b, p, r, q);
    let s: Single = A::sum_of(a, b);
    lemma_quotient::<A>(s, n, p + r, q);
    let raw: Single = A::quot_of(s, n);
    lemma_two_sided_clamp(raw);
    let c: Single = raw.clamp(Single::of(0xbf80_0000), Single::of(0x3f80_0000));
    lemma_clamped_ratio(value(raw), value(c), value(n), q, value(s), p + r);
}

proof fn lemma_clamped_ratio(v: real, c: real, n: real, q: real, s: real, d: real)
    requires
        -(q / 4000000real) <= v * n - s <= q / 4000000real,
        -(q / 1500000real) <= s - d <= q / 1500000real,
        -(q / 16000000real) <= n - q <= q / 16000000real,
        0real < q,
        v < -1real ==> c == -1real,
        v > 1real ==> c == 1real,
        -1real <= v <= 1real ==> c == v,
    ensures
        is_ratio(c, d, q),
{
    lemma_clamped(v, n, q, s, d);
    reveal(is_ratio);
}

/// The values of patterns clamped to -1 and 1.
proof fn lemma_two_sided_clamp(x: Single)
    requires
        is_finite(x),
    ensures
        ({
            let c = x.clamp(Single::of(0xbf80_0000), Single::of(0x3f80_0000));
            &&& is_finite(c)
            &&& value(x) < -1real ==> value(c) == -1real
            &&& value(x) > 1real ==> value(c) == 1real
            &&& -1real <= value(x) <= 1real ==> value(c) == value(x)
        }),
{
    lemma_value_units();
    let (low, high) = (Single::of(0xbf80_0000), Single::of(0x3f80_0000));
    assert(low.magnitude() == high.magnitude());
    assert(value(low) == -value(high));
    values_are_ordered(x, low);
    values_are_ordered(high, x);
}

} // verus!
