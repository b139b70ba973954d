//! Lengths, areas and turns as the real numbers that they stand for.
//!
//! Each law holds wherever results are rounded closely, for all coordinates up to
//! a limit that the law takes as a parameter, and allows for rounding in proportion
//! to it.

use crate::detect::coverage;
use crate::judgement::{is_ordinary, lemma_unit_clamp, unit_clamp};
use crate::number::{Arithmetic, Single, ONE, ZERO};
use crate::polygon::{
    coincide, convex, corner_turn, corner_turns, distance, length, line_distance, polyline_length, Point,
};
use crate::quad::{
    all_finite, area, deviation, deviation_sum, differences, extremes, extremes_bound_all_points, mean2,
    metrics, shoelace, shoelace_sum, sums, symmetry, HALF,
};
use crate::range::is_finite;
use crate::shading::lemma_hypotenuse;
use crate::value::{
    converts_closely, is_near, is_rounded, lemma_large, lemma_near_diff, lemma_near_prod, lemma_near_sum,
    lemma_product_size, lemma_scale_monotone, lemma_scale_numbers, lemma_scale_sum, lemma_value_abs,
    lemma_value_ratio, lemma_value_units, rounds_closely, scale, value, values_are_ordered,
};
use crate::whole::size;
use vstd::prelude::*;

verus! {

/// Both coordinates are finite numbers of a size up to `m`.
pub open spec fn is_placed(p: Point, m: real) -> bool {
    is_finite(p.0) && is_finite(p.1) && size(value(p.0)) <= m && size(value(p.1)) <= m
}

/// All points are placed within `m`.
pub open spec fn are_placed(p: Seq<Point>, m: real) -> bool {
    forall|i: int| 0 <= i < p.len() ==> is_placed(#[trigger] p[i], m)
}

/// A sum of near numbers.
proof fn lemma_sum<A: Arithmetic>(
    a: Single,
    b: Single,
    x: real,
    y: real,
    d: real,
    e: real,
    m: real,
)
    requires
        rounds_closely::<A>(),
        is_near(a, x, d),
        is_near(b, y, e),
        1real <= m <= 1048576real * 1048576real * 1048576real,
        size(x + y) + d + e <= m,
    ensures
        is_near(A::sum_of(a, b), x + y, d + e + m / 8388608real),
{
    lemma_large();
    lemma_scale_numbers();
    lemma_near_sum::<A>(a, b, x, y, d, e, m);
    let s = scale(-23);
    assert(m * s == m / 8388608real) by (nonlinear_arith)
        requires
            s * 8388608real == 1real,
    ;
}

/// A difference of near numbers.
pub proof fn lemma_diff<A: Arithmetic>(
    a: Single,
    b: Single,
    x: real,
    y: real,
    d: real,
    e: real,
    m: real,
)
    requires
        rounds_closely::<A>(),
        is_near(a, x, d),
        is_near(b, y, e),
        1real <= m <= 1048576real * 1048576real * 1048576real,
        size(x - y) + d + e <= m,
    ensures
        is_near(A::diff_of(a, b), x - y, d + e + m / 8388608real),
{
    lemma_large();
    lemma_scale_numbers();
    lemma_near_diff::<A>(a, b, x, y, d, e, m);
    let s = scale(-23);
    assert(m * s == m / 8388608real) by (nonlinear_arith)
        requires
            s * 8388608real == 1real,
    ;
}

/// A product of two numbers of a size up to `n`, each off by `e` at most.
proof fn lemma_prod<A: Arithmetic>(a: Single, b: Single, x: real, y: real, e: real, n: real, q: real)
    requires
        rounds_closely::<A>(),
        is_near(a, x, e),
        is_near(b, y, e),
        0real <= e <= n / 8388608real,
        size(x) <= n,
        size(y) <= n,
        1real <= n <= 1048576real * 1048576real,
        q == n * n,
    ensures
        is_near(A::prod_of(a, b), x * y, 3real * (n * e) + q / 4194304real),
        size(x * y) <= q,
{
    lemma_large();
    lemma_scale_numbers();
    let k = n + e;
    let m = k * k;
    assert(m <= 2real * q && 1real <= m && q <= 1048576real * 1048576real * 1048576real
        * 1048576real && k * e <= 2real * (n * e)) by (nonlinear_arith)
        requires
            k == n + e,
            m == k * k,
            q == n * n,
            0real <= e <= n / 8388608real,
            1real <= n <= 1048576real * 1048576real,
    ;
    lemma_product_size(value(a), value(b), k, k);
    lemma_product_size(x, y, n, n);
    lemma_scale_bounds();
    lemma_near_prod::<A>(a, b, x, y, e, e, k, n, m);
    let s = scale(-23);
    assert(m * s <= q / 4194304real) by (nonlinear_arith)
        requires
            s * 8388608real == 1real,
            m <= 2real * q,
    ;
    assert(e * k == k * e) by (nonlinear_arith);
}

proof fn lemma_scale_bounds()
    ensures
        scale(100) >= 4real * (1048576real * 1048576real * 1048576real * 1048576real),
{
    reveal_with_fuel(scale, 21);
    lemma_scale_sum(20, 20);
    lemma_scale_sum(40, 20);
    lemma_scale_sum(60, 20);
    lemma_scale_monotone(82, 100);
    lemma_scale_sum(80, 2);
    reveal_with_fuel(scale, 3);
}

/// The difference of two products.
proof fn lemma_cross<A: Arithmetic>(
    a: Single,
    b: Single,
    c: Single,
    d: Single,
    x: (real, real, real, real),
    e: real,
    n: real,
    q: real,
)
    requires
        rounds_closely::<A>(),
        is_near(a, x.0, e),
        is_near(b, x.1, e),
        is_near(c, x.2, e),
        is_near(d, x.3, e),
        0real <= e <= n / 8388608real,
        size(x.0) <= n,
        size(x.1) <= n,
        size(x.2) <= n,
        size(x.3) <= n,
        1real <= n <= 134217728real,
        q == n * n,
    ensures
        is_near(
            A::diff_of(A::prod_of(a, b), A::prod_of(c, d)),
            x.0 * x.1 - x.2 * x.3,
            14real * q / 8388608real,
        ),
        size(x.0 * x.1 - x.2 * x.3) <= 2real * q,
        1real <= q <= 134217728real * 134217728real,
{
    lemma_prod::<A>(a, b, x.0, x.1, e, n, q);
    lemma_prod::<A>(c, d, x.2, x.3, e, n, q);
    assert(n * e <= q / 8388608real && 1real <= q <= 134217728real * 134217728real)
        by (nonlinear_arith)
        requires
            q == n * n,
            0real <= e <= n / 8388608real,
            1real <= n <= 134217728real,
    ;
    let (y, z) = (x.0 * x.1, x.2 * x.3);
    let f = 5real * q / 8388608real;
    assert(is_near(A::prod_of(a, b), y, f));
    assert(is_near(A::prod_of(c, d), z, f));
    lemma_diff::<A>(A::prod_of(a, b), A::prod_of(c, d), y, z, f, f, 4real * q);
}

/// The area of a quadrilateral is half the size of the sum of `x1 y2 - x2 y1` over
/// its sides.
pub proof fn area_is_half_the_shoelace_sum<A: Arithmetic>(c: Seq<Point>, m: real)
    requires
        rounds_closely::<A>(),
        c.len() == 4,
        are_placed(c, m),
        1real <= m <= 16777216real,
    ensures
        ({
            let (x0, y0, x1, y1) = (value(c[0].0), value(c[0].1), value(c[1].0), value(c[1].1));
            let (x2, y2, x3, y3) = (value(c[2].0), value(c[2].1), value(c[3].0), value(c[3].1));
            is_near(
                area::<A>(c),
                size(
                    (x0 * y1 - x1 * y0) + (x1 * y2 - x2 * y1) + (x2 * y3 - x3 * y2) + (x3 * y0 - x0
                        * y3),
                ) / 2real,
                m * m / 65536real,
            )
        }),
{
    let q = m * m;
    let (x0, y0, x1, y1) = (value(c[0].0), value(c[0].1), value(c[1].0), value(c[1].1));
    let (x2, y2, x3, y3) = (value(c[2].0), value(c[2].1), value(c[3].0), value(c[3].1));
    assert(is_placed(c[0], m) && is_placed(c[1], m) && is_placed(c[2], m) && is_placed(c[3], m));
    lemma_cross::<A>(c[0].0, c[1].1, c[1].0, c[0].1, (x0, y1, x1, y0), 0real, m, q);
    lemma_cross::<A>(c[1].0, c[2].1, c[2].0, c[1].1, (x1, y2, x2, y1), 0real, m, q);
    lemma_cross::<A>(c[2].0, c[3].1, c[3].0, c[2].1, (x2, y3, x3, y2), 0real, m, q);
    lemma_cross::<A>(c[3].0, c[0].1, c[0].0, c[3].1, (x3, y0, x0, y3), 0real, m, q);
    let (s0, s1, s2, s3) = (
        x0 * y1 - x1 * y0,
        x1 * y2 - x2 * y1,
        x2 * y3 - x3 * y2,
        x3 * y0 - x0 * y3,
    );
    lemma_area_sum::<A>(c, s0, s1, s2, s3, q);
}

proof fn lemma_area_sum<A: Arithmetic>(
    c: Seq<Point>,
    s0: real,
    s1: real,
    s2: real,
    s3: real,
    q: real,
)
    requires
        rounds_closely::<A>(),
        1real <= q <= 134217728real * 134217728real,
        is_near(shoelace::<A>(c, 0), s0, 14real * q / 8388608real),
        is_near(shoelace::<A>(c, 1), s1, 14real * q / 8388608real),
        is_near(shoelace::<A>(c, 2), s2, 14real * q / 8388608real),
        is_near(shoelace::<A>(c, 3), s3, 14real * q / 8388608real),
        size(s0) <= 2real * q,
        size(s1) <= 2real * q,
        size(s2) <= 2real * q,
        size(s3) <= 2real * q,
    ensures
        is_near(area::<A>(c), size(s0 + s1 + s2 + s3) / 2real, q / 65536real),
{
    lemma_value_units();
    let zero: Single = Single::of(ZERO);
    let f = 14real * q / 8388608real;
    assert(shoelace_sum::<A>(c, 0) == zero);
    let t1: Single = shoelace_sum::<A>(c, 1);
    let t2: Single = shoelace_sum::<A>(c, 2);
    let t3: Single = shoelace_sum::<A>(c, 3);
    let t4: Single = shoelace_sum::<A>(c, 4);
    assert(t1 == A::sum_of(zero, shoelace::<A>(c, 0)));
    assert(t2 == A::sum_of(t1, shoelace::<A>(c, 1)));
    assert(t3 == A::sum_of(t2, shoelace::<A>(c, 2)));
    assert(t4 == A::sum_of(t3, shoelace::<A>(c, 3)));
    lemma_sum::<A>(zero, shoelace::<A>(c, 0), 0real, s0, 0real, f, 3real * q);
    lemma_sum::<A>(t1, shoelace::<A>(c, 1), s0, s1, 17real * q / 8388608real, f, 5real * q);
    lemma_sum::<A>(t2, shoelace::<A>(c, 2), s0 + s1, s2, 36real * q / 8388608real, f, 7real * q);
    lemma_sum::<A>(
        t3,
        shoelace::<A>(c, 3),
        s0 + s1 + s2,
        s3,
        57real * q / 8388608real,
        f,
        9real * q,
    );
    let s = s0 + s1 + s2 + s3;
    assert(is_near(t4, s, 80real * q / 8388608real));
    lemma_half::<A>(t4, s, 80real * q / 8388608real, 9real * q);
    let r: Single = A::prod_of(t4, Single::of(HALF));
    lemma_value_abs(r);
}

/// Half a near number.
proof fn lemma_half<A: Arithmetic>(a: Single, x: real, e: real, m: real)
    requires
        rounds_closely::<A>(),
        is_near(a, x, e),
        0real <= e,
        1real <= m <= 1048576real * 1048576real * 1048576real,
        size(x) + e <= m,
    ensures
        is_near(A::prod_of(a, Single::of(HALF)), x / 2real, e + m / 8388608real),
{
    lemma_large();
    lemma_scale_numbers();
    lemma_value_ratio(HALF, 126, 0, 16777216real);
    assert((0x0080_0000 + 0) as real == 8388608real);
    let half: Single = Single::of(HALF);
    assert(value(half) == 1real / 2real);
    lemma_product_size(value(a), value(half), m, 1real);
    lemma_near_prod::<A>(a, half, x, 1real / 2real, e, 0real, 1real, m, m);
    let s = scale(-23);
    assert(m * s == m / 8388608real && e * 1real == e && m * 0real == 0real && x * (1real / 2real)
        == x / 2real) by (nonlinear_arith)
        requires
            s * 8388608real == 1real,
    ;
}

/// The turn at a corner, from the side between its neighbours and it to the next:
/// `(b - a) x (c - b)`.
pub open spec fn turn_of(a: Point, b: Point, c: Point) -> real {
    (value(b.0) - value(a.0)) * (value(c.1) - value(b.1)) - (value(b.1) - value(a.1)) * (value(c.0)
        - value(b.0))
}

/// The turn of a polygon from corner `i` over the next to the one after that.
pub open spec fn turn_after(p: Seq<Point>, i: int) -> real {
    let n = p.len() as int;
    turn_of(
        p[i],
        p[if i + 1 < n {
            i + 1
        } else {
            i + 1 - n
        }],
        p[if i + 2 < n {
            i + 2
        } else {
            i + 2 - n
        }],
    )
}

/// The difference of two coordinates.
proof fn lemma_part_of<A: Arithmetic>(a: Single, b: Single, m: real)
    requires
        rounds_closely::<A>(),
        is_finite(a),
        is_finite(b),
        size(value(a)) <= m,
        size(value(b)) <= m,
        1real <= m <= 16777216real,
    ensures
        is_near(A::diff_of(a, b), value(a) - value(b), 2real * m / 8388608real),
        size(value(a) - value(b)) <= 2real * m,
{
    lemma_diff::<A>(a, b, value(a), value(b), 0real, 0real, 2real * m);
}

proof fn lemma_turn<A: Arithmetic>(a: Point, b: Point, c: Point, m: real)
    requires
        rounds_closely::<A>(),
        is_placed(a, m),
        is_placed(b, m),
        is_placed(c, m),
        1real <= m <= 16777216real,
    ensures
        is_near(
            A::diff_of(
                A::prod_of(A::diff_of(b.0, a.0), A::diff_of(c.1, b.1)),
                A::prod_of(A::diff_of(b.1, a.1), A::diff_of(c.0, b.0)),
            ),
            turn_of(a, b, c),
            m * m / 131072real,
        ),
{
    lemma_part_of::<A>(b.0, a.0, m);
    lemma_part_of::<A>(c.1, b.1, m);
    lemma_part_of::<A>(b.1, a.1, m);
    lemma_part_of::<A>(c.0, b.0, m);
    let n = 2real * m;
    let q = n * n;
    lemma_cross::<A>(
        A::diff_of(b.0, a.0),
        A::diff_of(c.1, b.1),
        A::diff_of(b.1, a.1),
        A::diff_of(c.0, b.0),
        (
            value(b.0) - value(a.0),
            value(c.1) - value(b.1),
            value(b.1) - value(a.1),
            value(c.0) - value(b.0),
        ),
        n / 8388608real,
        n,
        q,
    );
    assert(14real * q / 8388608real <= m * m / 131072real) by (nonlinear_arith)
        requires
            n == 2real * m,
            q == n * n,
            1real <= m,
    ;
}

proof fn lemma_corner_turn<A: Arithmetic>(p: Seq<Point>, i: int, m: real)
    requires
        rounds_closely::<A>(),
        p.len() >= 4,
        are_placed(p, m),
        1real <= m <= 16777216real,
        0 <= i < p.len(),
    ensures
        is_near(corner_turns::<A>(p)[i], turn_after(p, i), m * m / 131072real),
{
    let n: int = p.len() as int;
    let j: int = (i + 1) % n;
    let k: int = (i + 2) % n;
    assert(j == if i + 1 < n {
        i + 1
    } else {
        i + 1 - n
    }) by (nonlinear_arith)
        requires
            0 <= i < n,
            n >= 4,
            j == (i + 1) % n,
    ;
    assert(k == if i + 2 < n {
        i + 2
    } else {
        i + 2 - n
    }) by (nonlinear_arith)
        requires
            0 <= i < n,
            n >= 4,
            k == (i + 2) % n,
    ;
    assert(is_placed(p[i], m) && is_placed(p[j], m) && is_placed(p[k], m));
    lemma_turn::<A>(p[i], p[j], p[k], m);
    assert(corner_turns::<A>(p)[i] == corner_turn::<A>(p, i));
}

/// A convex polygon does not turn one way at one corner and the other way at
/// another, and has four corners at least.
pub proof fn convex_polygons_turn_one_way<A: Arithmetic>(p: Seq<Point>, m: real, i: int, j: int)
    requires
        rounds_closely::<A>(),
        are_placed(p, m),
        1real <= m <= 16777216real,
        0 <= i < p.len(),
        0 <= j < p.len(),
        convex::<A>(p),
    ensures
        p.len() >= 4,
        turn_after(p, i) <= m * m / 131072real || turn_after(p, j) >= -(m * m / 131072real),
{
    lemma_corner_turn::<A>(p, i, m);
    lemma_corner_turn::<A>(p, j, m);
    lemma_value_units();
    let turns: Seq<Single> = corner_turns::<A>(p);
    values_are_ordered(Single::of(ZERO), turns[i]);
    values_are_ordered(turns[j], Single::of(ZERO));
    assert(!(Single::of(ZERO).less(turns[i]) && turns[j].less(Single::of(ZERO))));
}

/// A polygon of four corners or more is convex if it turns the same way at all of
/// them, by more than rounding could make up.
pub proof fn polygons_that_turn_one_way_are_convex<A: Arithmetic>(p: Seq<Point>, m: real)
    requires
        rounds_closely::<A>(),
        are_placed(p, m),
        1real <= m <= 16777216real,
        p.len() >= 4,
        (forall|i: int| 0 <= i < p.len() ==> #[trigger] turn_after(p, i) > m * m / 131072real) || (
        forall|i: int| 0 <= i < p.len() ==> #[trigger] turn_after(p, i) < -(m * m / 131072real)),
    ensures
        convex::<A>(p),
{
    lemma_value_units();
    let turns: Seq<Single> = corner_turns::<A>(p);
    assert forall|i: int, j: int|
        #![trigger turns[i], turns[j]]
        0 <= i < turns.len() && 0 <= j < turns.len() implies !(Single::of(ZERO).less(turns[i])
        && turns[j].less(Single::of(ZERO))) by {
        lemma_corner_turn::<A>(p, i, m);
        lemma_corner_turn::<A>(p, j, m);
        values_are_ordered(Single::of(ZERO), turns[i]);
        values_are_ordered(turns[j], Single::of(ZERO));
        assert(turn_after(p, i) == turn_after(p, i) && turn_after(p, j) == turn_after(p, j));
    }
}

/// The square of a rounded number.
proof fn lemma_square(v: real, x: real, u: real, t: real, e: real)
    requires
        u * 16777216real == 1real,
        0real <= t <= 1real,
        size(v - x) <= size(x) * u + t,
        size(x) <= 33554432real,
        e == 134217729real * t,
    ensures
        x * x - (x * x / 4000000real + e) <= v * v <= x * x + (x * x / 4000000real + e),
{
    let a = size(x);
    let g = a * u + t;
    let d = v - x;
    assert(a * a == x * x) by (nonlinear_arith)
        requires
            a == x || a == -x,
    ;
    assert(v * v - x * x == d * (d + 2real * x)) by (nonlinear_arith)
        requires
            d == v - x,
    ;
    let f = d + 2real * x;
    assert(0real <= g) by (nonlinear_arith)
        requires
            g == a * u + t,
            0real <= a,
            0real <= t,
            u * 16777216real == 1real,
    ;
    assert(size(f) <= 2real * a + g);
    lemma_product_size(d, f, g, 2real * a + g);
    let b = a * u;
    assert(b == a / 16777216real) by (nonlinear_arith)
        requires
            b == a * u,
            u * 16777216real == 1real,
    ;
    assert(g * (2real * a + g) <= a * a / 4000000real + 134217729real * t) by (nonlinear_arith)
        requires
            g == a / 16777216real + t,
            0real <= a <= 33554432real,
            0real <= t <= 1real,
    ;
}

/// The distance of two points is the root of the sum of the squares of its parts.
pub proof fn distance_is_euclidean<A: Arithmetic>(a: Point, b: Point)
    requires
        rounds_closely::<A>(),
        is_placed(a, 8388608real),
        is_placed(b, 8388608real),
    ensures
        ({
            let (x, y) = (value(a.0) - value(b.0), value(a.1) - value(b.1));
            let s = x * x + y * y;
            let r = distance::<A>(a, b);
            let e = s / 500000real + scale(-50);
            &&& is_finite(r)
            &&& 0real <= value(r)
            &&& s - e <= value(r) * value(r) <= s + e
        }),
{
    let (dx, dy) = (A::diff_of(a.0, b.0), A::diff_of(a.1, b.1));
    let (x, y) = (value(a.0) - value(b.0), value(a.1) - value(b.1));
    lemma_large();
    lemma_scale_numbers();
    lemma_tiny();
    assert(is_rounded(dx, x) && is_rounded(dy, y)) by {
        reveal(rounds_closely);
    }
    let (u, t) = (scale(-24), scale(-149));
    let e = 134217729real * t;
    lemma_square(value(dx), x, u, t, e);
    lemma_square(value(dy), y, u, t, e);
    lemma_rounded_size(x, u);
    lemma_rounded_size(y, u);
    lemma_hypotenuse::<A>(dx, dy);
    assert(0real <= x * x && 0real <= y * y) by (nonlinear_arith);
}

/// A rounded number is not much larger.
pub proof fn lemma_rounded_size(x: real, u: real)
    requires
        u * 16777216real == 1real,
    ensures
        size(x) * u == size(x) / 16777216real,
{
    let a = size(x);
    assert(a * u == a / 16777216real) by (nonlinear_arith)
        requires
            u * 16777216real == 1real,
    ;
}

pub proof fn lemma_tiny()
    ensures
        scale(-149) * 134217729real <= scale(-60),
        scale(-60) * 16real <= scale(-50),
        scale(-50) * 1073741824real <= 1real,
        0real < scale(-149) <= 1real,
        0real < scale(-60),
{
    reveal_with_fuel(scale, 31);
    lemma_scale_sum(-149, 30);
    lemma_scale_monotone(-119, -60);
    lemma_scale_sum(-60, 4);
    lemma_scale_monotone(-56, -50);
    lemma_scale_sum(-50, 30);
    lemma_scale_monotone(-20, 0);
    lemma_scale_monotone(-149, 0);
}

/// The length of a polyline grows with each point by its distance from the one
/// before; a single point has length 0.
pub proof fn polyline_length_adds_up<A: Arithmetic>(p: Seq<Point>, q: Point, m: real)
    requires
        rounds_closely::<A>(),
        p.len() > 0,
        is_finite(polyline_length::<A>(p)),
        is_finite(distance::<A>(p[p.len() - 1], q)),
        size(value(polyline_length::<A>(p))) <= m,
        size(value(distance::<A>(p[p.len() - 1], q))) <= m,
        1real <= m <= 1048576real * 1048576real,
    ensures
        is_near(
            polyline_length::<A>(p.push(q)),
            value(polyline_length::<A>(p)) + value(distance::<A>(p[p.len() - 1], q)),
            m / 4194304real,
        ),
        value(polyline_length::<A>(p.take(1))) == 0real,
{
    lemma_value_units();
    assert(p.push(q).drop_last() =~= p);
    let (a, b) = (polyline_length::<A>(p), distance::<A>(p[p.len() - 1], q));
    lemma_sum::<A>(a, b, value(a), value(b), 0real, 0real, 2real * m);
}

/// A quotient times its divisor.
pub proof fn lemma_quot<A: Arithmetic>(a: Single, b: Single)
    requires
        rounds_closely::<A>(),
        is_finite(a),
        is_finite(b),
        0real <= value(a),
        0real < value(b),
        value(a) <= (1048576real * 1048576real * 1048576real * 1048576real) * value(b),
    ensures
        is_finite(A::quot_of(a, b)),
        0real <= value(A::quot_of(a, b)),
        size(value(A::quot_of(a, b)) * value(b) - value(a)) <= value(a) / 16777216real + value(b)
            * scale(-149),
{
    lemma_scale_bounds();
    lemma_scale_numbers();
    let (x, y, u, t) = (value(a), value(b), scale(-24), scale(-149));
    let z = x / y;
    let k = 1048576real * 1048576real * 1048576real * 1048576real;
    assert(z * y == x && 0real <= z && z <= k) by (nonlinear_arith)
        requires
            z == x / y,
            0real < y,
            0real <= x,
            x <= k * y,
    ;
    let r: Single = A::quot_of(a, b);
    assert(is_rounded(r, z)) by {
        reveal(rounds_closely);
    }
    let v = value(r);
    assert(size(v - z) <= z * u + t);
    assert(v * y - x == (v - z) * y) by (nonlinear_arith)
        requires
            z * y == x,
    ;
    lemma_product_size(v - z, y, z * u + t, y);
    assert((z * u + t) * y == x / 16777216real + y * t) by (nonlinear_arith)
        requires
            z * y == x,
            u * 16777216real == 1real,
    ;
}

/// The distance from a line, times the length between the two points that give the
/// line, is twice the area of the triangle; if these are closer than 1e-6, it is the
/// distance from the first.
pub proof fn line_distance_is_height<A: Arithmetic>(p: Point, a: Point, b: Point, m: real)
    requires
        rounds_closely::<A>(),
        is_placed(p, m),
        is_placed(a, m),
        is_placed(b, m),
        1real <= m <= 8388608real,
    ensures
        ({
            let r = line_distance::<A>(p, a, b);
            let l = distance::<A>(b, a);
            let c = (value(b.0) - value(a.0)) * (value(a.1) - value(p.1)) - (value(a.0) - value(p.0))
                * (value(b.1) - value(a.1));
            &&& l.less(Single::of(0x3586_37bd)) ==> r == distance::<A>(p, a)
            &&& !l.less(Single::of(0x3586_37bd)) ==> is_finite(r) && 0real <= value(r) && size(
                value(r) * value(l) - size(c),
            ) <= m * m / 100000real
        }),
{
    let (dx, dy) = (A::diff_of(b.0, a.0), A::diff_of(b.1, a.1));
    let (ex, ey) = (A::diff_of(a.0, p.0), A::diff_of(a.1, p.1));
    let l: Single = distance::<A>(b, a);
    assert(l == length::<A>(dx, dy));
    let tiny: Single = Single::of(0x3586_37bd);
    if !l.less(tiny) {
        lemma_part_of::<A>(b.0, a.0, m);
        lemma_part_of::<A>(b.1, a.1, m);
        lemma_part_of::<A>(a.0, p.0, m);
        lemma_part_of::<A>(a.1, p.1, m);
        let n = 2real * m;
        let q = n * n;
        let x = (
            value(b.0) - value(a.0),
            value(a.1) - value(p.1),
            value(a.0) - value(p.0),
            value(b.1) - value(a.1),
        );
        lemma_cross::<A>(dx, ey, ex, dy, x, n / 8388608real, n, q);
        let c = x.0 * x.1 - x.2 * x.3;
        let t: Single = A::diff_of(A::prod_of(dx, ey), A::prod_of(ex, dy));
        lemma_value_abs(t);
        distance_is_euclidean::<A>(b, a);
        lemma_distance_size::<A>(b, a);
        lemma_least_length(l);
        let (z, y) = (value(t.abs()), value(l));
        assert(z <= (1048576real * 1048576real * 1048576real * 1048576real) * y)
            by (nonlinear_arith)
            requires
                z <= 3real * (134217728real * 134217728real),
                y >= 9real / 10000000real,
        ;
        lemma_quot::<A>(t.abs(), l);
        assert(q == 4real * (m * m)) by (nonlinear_arith)
            requires
                n == 2real * m,
                q == n * n,
        ;
        let w = value(l) * scale(-149);
        assert(w <= 1real / 1000000real) by {
            lemma_tiny();
            lemma_scale_numbers();
            let e = scale(-149);
            assert(y * e <= 33554432real * e) by (nonlinear_arith)
                requires
                    y <= 33554432real,
                    0real < e,
            ;
        }
        assert(1real <= m * m) by (nonlinear_arith)
            requires
                1real <= m,
        ;
    }
}

/// A length that counts is not below 1e-6 by much.
proof fn lemma_least_length(l: Single)
    requires
        is_finite(l),
        !l.less(Single::of(0x3586_37bd)),
    ensures
        value(l) >= 9real / 10000000real,
{
    lemma_scale_numbers();
    lemma_scale_sum(-43, 43);
    lemma_scale_sum(20, 23);
    reveal_with_fuel(scale, 24);
    assert(scale(43) == 8796093022208real);
    lemma_value_ratio(0x3586_37bd, 107, 407485, 8796093022208real);
    assert((0x0080_0000 + 407485) as real == 8796093real);
    values_are_ordered(l, Single::of(0x3586_37bd));
}

/// A distance is not beyond all bounds.
pub proof fn lemma_distance_size<A: Arithmetic>(a: Point, b: Point)
    requires
        rounds_closely::<A>(),
        is_placed(a, 8388608real),
        is_placed(b, 8388608real),
    ensures
        is_finite(distance::<A>(a, b)),
        0real <= value(distance::<A>(a, b)) <= 33554432real,
{
    distance_is_euclidean::<A>(a, b);
    lemma_tiny();
    let (x, y) = (value(a.0) - value(b.0), value(a.1) - value(b.1));
    let r = value(distance::<A>(a, b));
    assert(x * x <= 16777216real * 16777216real && y * y <= 16777216real * 16777216real)
        by (nonlinear_arith)
        requires
            -16777216real <= x <= 16777216real,
            -16777216real <= y <= 16777216real,
    ;
    assert(r * r <= 33554432real * 33554432real);
    assert(r <= 33554432real) by (nonlinear_arith)
        requires
            r * r <= 33554432real * 33554432real,
    ;
}

/// The part of a frame that a quadrilateral covers, times the number of its pixels,
/// is its area.
pub proof fn coverage_is_a_part_of_the_frame<A: Arithmetic>(c: Seq<Point>, w: int, h: int)
    requires
        rounds_closely::<A>(),
        converts_closely::<A>(),
        0 < w * h <= usize::MAX,
        is_finite(area::<A>(c)),
        0real <= value(area::<A>(c)) <= 1048576real * 1048576real * 1048576real,
    ensures
        is_finite(coverage::<A>(c, w, h)),
        0real <= value(coverage::<A>(c, w, h)),
        size(value(coverage::<A>(c, w, h)) * ((w * h) as real) - value(area::<A>(c))) <= value(
            area::<A>(c),
        ) / 1000000real + ((w * h) as real) / 1000000000real,
{
    let n: Single = A::from_usize_of((w * h) as usize);
    let x = (w * h) as real;
    lemma_tiny();
    lemma_scale_numbers();
    let u = scale(-24);
    assert(is_rounded(n, x)) by {
        reveal(converts_closely);
    }
    lemma_rounded_size(x, u);
    let (z, y) = (value(area::<A>(c)), value(n));
    assert(z <= (1048576real * 1048576real * 1048576real * 1048576real) * y) by (nonlinear_arith)
        requires
            z <= 1048576real * 1048576real * 1048576real,
            y >= 9real / 10real,
    ;
    lemma_quot::<A>(area::<A>(c), n);
    let r = value(coverage::<A>(c, w, h));
    let e = scale(-149);
    assert(y * e <= y / 2000000000real) by (nonlinear_arith)
        requires
            e * 2000000000real <= 1real,
            0real < y,
    ;
    lemma_other_divisor(r, x, y, z);
}

/// A quotient times a number near the divisor.
proof fn lemma_other_divisor(r: real, x: real, y: real, z: real)
    requires
        0real <= r,
        0real <= z,
        1real <= x,
        size(y - x) <= x / 8000000real,
        size(r * y - z) <= z / 16777216real + y / 2000000000real,
    ensures
        size(r * x - z) <= z / 1000000real + x / 1000000000real,
{
    let d = x - y;
    let v = r * y;
    assert(r * x == v + r * d) by (nonlinear_arith)
        requires
            d == x - y,
            v == r * y,
    ;
    assert(-(v / 7000000real) <= r * d <= v / 7000000real) by (nonlinear_arith)
        requires
            0real <= r,
            v == r * y,
            -(y / 7000000real) <= d <= y / 7000000real,
    ;
}

/// The mean of two lengths.
proof fn lemma_mean<A: Arithmetic>(a: Single, b: Single)
    requires
        rounds_closely::<A>(),
        is_finite(a),
        is_finite(b),
        0real <= value(a) <= 33554432real,
        0real <= value(b) <= 33554432real,
    ensures
        ({
            let x = (value(a) + value(b)) / 2real;
            is_near(mean2::<A>(a, b), x, x / 4000000real + scale(-60))
        }),
{
    lemma_large();
    lemma_scale_numbers();
    lemma_tiny();
    let s: Single = A::sum_of(a, b);
    let x = value(a) + value(b);
    let (u, t) = (scale(-24), scale(-149));
    assert(is_rounded(s, x)) by {
        reveal(rounds_closely);
    }
    lemma_rounded_size(x, u);
    lemma_value_ratio(HALF, 126, 0, 16777216real);
    assert((0x0080_0000 + 0) as real == 8388608real);
    let half: Single = Single::of(HALF);
    assert(value(half) == 1real / 2real);
    let (v, k) = (value(s), value(half));
    assert(v * k == v / 2real) by (nonlinear_arith)
        requires
            k == 1real / 2real,
    ;
    assert(is_rounded(A::prod_of(s, half), v * k)) by {
        reveal(rounds_closely);
    }
    lemma_rounded_size(v * k, u);
}

/// A ratio of two numbers that are each off by a small part.
proof fn lemma_ratio(a: real, p: real, q: real, x: real, y: real, e: real)
    requires
        0real <= a,
        1real <= y <= x,
        size(p - x) <= x / 3000000real,
        size(q - y) <= y / 3000000real,
        size(a * q - p) <= p / 16777216real + e,
        e <= 1real / 100000000real,
    ensures
        size(a * y - x) <= x / 100000real,
{
    let d = y - q;
    let z = a * q;
    assert(a * y == z + a * d) by (nonlinear_arith)
        requires
            d == y - q,
            z == a * q,
    ;
    assert(size(a * d) <= z / 2000000real) by {
        assert(-(q / 2000000real) <= d <= q / 2000000real);
        assert(-(z / 2000000real) <= a * d <= z / 2000000real) by (nonlinear_arith)
            requires
                0real <= a,
                z == a * q,
                -(q / 2000000real) <= d <= q / 2000000real,
        ;
    }
}

/// The aspect ratio, times the shorter of the mean width and the mean height, is
/// the longer. A quadrilateral whose mean width or height is below 1 has the ratio 1
/// and no scores.
pub proof fn aspect_is_long_over_short<A: Arithmetic>(c: Seq<Point>)
    requires
        rounds_closely::<A>(),
        c.len() == 4,
        are_placed(c, 8388608real),
    ensures
        ({
            let w = (value(distance::<A>(c[0], c[1])) + value(distance::<A>(c[2], c[3]))) / 2real;
            let h = (value(distance::<A>(c[3], c[0])) + value(distance::<A>(c[1], c[2]))) / 2real;
            let (long, short) = if w < h {
                (h, w)
            } else {
                (w, h)
            };
            let (aspect, angle_score, side_score) = metrics::<A>(c);
            &&& short > 10001real / 10000real ==> is_finite(aspect) && size(
                value(aspect) * short - long,
            ) <= long / 100000real
            &&& short < 9999real / 10000real ==> value(aspect) == 1real && value(angle_score)
                == 0real && value(side_score) == 0real
        }),
{
    assert(is_placed(c[0], 8388608real) && is_placed(c[1], 8388608real));
    assert(is_placed(c[2], 8388608real) && is_placed(c[3], 8388608real));
    lemma_distance_size::<A>(c[0], c[1]);
    lemma_distance_size::<A>(c[1], c[2]);
    lemma_distance_size::<A>(c[2], c[3]);
    lemma_distance_size::<A>(c[3], c[0]);
    let (top, right) = (distance::<A>(c[0], c[1]), distance::<A>(c[1], c[2]));
    let (bottom, left) = (distance::<A>(c[2], c[3]), distance::<A>(c[3], c[0]));
    lemma_mean::<A>(top, bottom);
    lemma_mean::<A>(left, right);
    lemma_tiny();
    lemma_value_units();
    let (width, height) = (mean2::<A>(top, bottom), mean2::<A>(left, right));
    let w = (value(top) + value(bottom)) / 2real;
    let h = (value(left) + value(right)) / 2real;
    values_are_ordered(Single::of(ONE), width);
    values_are_ordered(Single::of(ONE), height);
    values_are_ordered(width, height);
    values_are_ordered(height, width);
    let (long, short) = if w < h {
        (h, w)
    } else {
        (w, h)
    };
    if short > 10001real / 10000real {
        let (big, small) = (width.larger(height), width.smaller(height));
        let (p, q) = (value(big), value(small));
        assert(p <= (1048576real * 1048576real * 1048576real * 1048576real) * q)
            by (nonlinear_arith)
            requires
                p <= 67108864real,
                1real <= q,
        ;
        lemma_quot::<A>(big, small);
        let e = q * scale(-149);
        assert(e <= 1real / 100000000real) by {
            lemma_scale_numbers();
            let t = scale(-149);
            assert(q * t <= 67108864real * t) by (nonlinear_arith)
                requires
                    q <= 67108864real,
                    0real < t,
            ;
        }
        lemma_ratio(value(A::quot_of(big, small)), p, q, long, short, e);
    }
}

/// How even two lengths are: 1 if they are equal, and twice the smaller over their
/// sum in general.
pub open spec fn evenness(a: real, b: real) -> real {
    2real * (if a < b {
        a
    } else {
        b
    }) / (a + b)
}

/// The quotient of two near numbers.
proof fn lemma_quotient_error(r: real, d: real, s: real, x: real, y: real, z: real, e: real)
    requires
        0real <= r,
        0real <= x <= y,
        1real <= y,
        z * y == x,
        size(d - x) <= y / 8000000real,
        size(s - y) <= y / 8000000real,
        size(r * s - d) <= d / 16777216real + e,
        e <= 1real / 100000000real,
    ensures
        size(r - z) <= 1real / 1000000real,
{
    let f = s - y;
    let v = r * s;
    assert(v == r * y + r * f) by (nonlinear_arith)
        requires
            f == s - y,
            v == r * s,
    ;
    assert(-(v / 7000000real) <= r * f <= v / 7000000real) by (nonlinear_arith)
        requires
            0real <= r,
            v == r * s,
            -(s / 7000000real) <= f <= s / 7000000real,
    ;
    let g = r - z;
    assert(g * y == r * y - x) by (nonlinear_arith)
        requires
            g == r - z,
            z * y == x,
    ;
    assert(size(g * y) <= y / 1000000real);
    assert(-(1real / 1000000real) <= g <= 1real / 1000000real) by (nonlinear_arith)
        requires
            -(y / 1000000real) <= g * y <= y / 1000000real,
            1real <= y,
    ;
}

proof fn lemma_symmetry<A: Arithmetic>(a: Single, b: Single)
    requires
        rounds_closely::<A>(),
        is_finite(a),
        is_finite(b),
        0real <= value(a) <= 33554432real,
        0real <= value(b) <= 33554432real,
        value(a) + value(b) >= 1real,
    ensures
        is_near(symmetry::<A>(a, b), evenness(value(a), value(b)), 15real / 10000000real),
        0real <= evenness(value(a), value(b)) <= 1real,
{
    lemma_large();
    lemma_scale_numbers();
    lemma_tiny();
    lemma_value_units();
    let (d, s) = (A::diff_of(a, b), A::sum_of(a, b));
    let (x, y) = (size(value(a) - value(b)), value(a) + value(b));
    let (u, t) = (scale(-24), scale(-149));
    assert(is_rounded(d, value(a) - value(b)) && is_rounded(s, y)) by {
        reveal(rounds_closely);
    }
    lemma_rounded_size(value(a) - value(b), u);
    lemma_rounded_size(y, u);
    lemma_value_abs(d);
    let (p, q) = (value(d.abs()), value(s));
    assert(p <= (1048576real * 1048576real * 1048576real * 1048576real) * q) by (nonlinear_arith)
        requires
            p <= 67108900real,
            9real / 10real <= q,
    ;
    lemma_quot::<A>(d.abs(), s);
    let e = q * t;
    assert(e <= 1real / 100000000real) by {
        assert(q * t <= 67108900real * t) by (nonlinear_arith)
            requires
                q <= 67108900real,
                0real < t,
        ;
    }
    let z = x / y;
    assert(z * y == x && 0real <= z <= 1real) by (nonlinear_arith)
        requires
            z == x / y,
            0real <= x <= y,
            1real <= y,
    ;
    let r: Single = A::quot_of(d.abs(), s);
    lemma_quotient_error(value(r), p, q, x, y, z, e);
    lemma_diff::<A>(Single::of(ONE), r, 1real, z, 0real, 1real / 1000000real, 2real);
    let k = 2real * (if value(a) < value(b) {
        value(a)
    } else {
        value(b)
    });
    assert(k / y == 1real - z) by (nonlinear_arith)
        requires
            z == x / y,
            k == y - x,
            1real <= y,
    ;
}

/// The side score is the evenness of top and bottom times that of left and right.
pub proof fn side_score_is_evenness<A: Arithmetic>(c: Seq<Point>)
    requires
        rounds_closely::<A>(),
        c.len() == 4,
        are_placed(c, 8388608real),
        value(distance::<A>(c[0], c[1])) + value(distance::<A>(c[2], c[3])) > 20002real / 10000real,
        value(distance::<A>(c[3], c[0])) + value(distance::<A>(c[1], c[2])) > 20002real / 10000real,
    ensures
        is_near(
            metrics::<A>(c).2,
            evenness(value(distance::<A>(c[0], c[1])), value(distance::<A>(c[2], c[3]))) * evenness(
                value(distance::<A>(c[3], c[0])),
                value(distance::<A>(c[1], c[2])),
            ),
            1real / 100000real,
        ),
{
    assert(is_placed(c[0], 8388608real) && is_placed(c[1], 8388608real));
    assert(is_placed(c[2], 8388608real) && is_placed(c[3], 8388608real));
    lemma_distance_size::<A>(c[0], c[1]);
    lemma_distance_size::<A>(c[1], c[2]);
    lemma_distance_size::<A>(c[2], c[3]);
    lemma_distance_size::<A>(c[3], c[0]);
    let (top, right) = (distance::<A>(c[0], c[1]), distance::<A>(c[1], c[2]));
    let (bottom, left) = (distance::<A>(c[2], c[3]), distance::<A>(c[3], c[0]));
    lemma_mean::<A>(top, bottom);
    lemma_mean::<A>(left, right);
    lemma_tiny();
    lemma_value_units();
    values_are_ordered(Single::of(ONE), mean2::<A>(top, bottom));
    values_are_ordered(Single::of(ONE), mean2::<A>(left, right));
    lemma_symmetry::<A>(top, bottom);
    lemma_symmetry::<A>(left, right);
    let (a, b) = (symmetry::<A>(top, bottom), symmetry::<A>(left, right));
    let x = evenness(value(top), value(bottom));
    let y = evenness(value(left), value(right));
    lemma_large();
    lemma_scale_numbers();
    let e = 15real / 10000000real;
    lemma_product_size(value(a), value(b), 11real / 10real, 11real / 10real);
    lemma_near_prod::<A>(a, b, x, y, e, e, 11real / 10real, 1real, 2real);
    let r: Single = A::prod_of(a, b);
    lemma_unit_clamp(r);
    assert(0real <= x * y <= 1real) by (nonlinear_arith)
        requires
            0real <= x <= 1real,
            0real <= y <= 1real,
    ;
    assert(metrics::<A>(c).2 == r.clamp(Single::of(ZERO), Single::of(ONE)));
    assert(value(metrics::<A>(c).2) == unit_clamp(value(r)));
}

/// The deviation at a corner is that of the angle between the sides that meet
/// there from a right one, in degrees: the angle is the one whose cosine is the
/// scalar product of the sides over the product of their lengths. A corner with a
/// side below 1e-3 has none.
pub proof fn deviation_is_from_a_right_angle<A: Arithmetic>(c: Seq<Point>, i: int)
    requires
        c.len() == 4,
        0 <= i < 4,
    ensures
        ({
            let b = c[if i == 0 {
                3
            } else {
                i - 1
            }];
            let n = c[if i == 3 {
                0
            } else {
                i + 1
            }];
            let (x, y) = (A::diff_of(b.0, c[i].0), A::diff_of(b.1, c[i].1));
            let (z, w) = (A::diff_of(n.0, c[i].0), A::diff_of(n.1, c[i].1));
            let (k, l) = (distance::<A>(b, c[i]), distance::<A>(n, c[i]));
            let short = Single::of(0x3a83_126f);
            let cosine = A::quot_of(
                A::sum_of(A::prod_of(x, z), A::prod_of(y, w)),
                A::prod_of(k, l),
            ).clamp(Single::of(0xbf80_0000), Single::of(0x3f80_0000));
            &&& k.less(short) || l.less(short) ==> deviation::<A>(c, i) is None
            &&& !k.less(short) && !l.less(short) ==> deviation::<A>(c, i) == Some(
                A::diff_of(A::degrees_of(A::acos_of(cosine)), Single::of(0x42b4_0000)).abs(),
            )
        }),
{
    assert(i == 0 || i == 1 || i == 2 || i == 3);
}

/// The angle score is 1 less the sum of the deviations over 180, but not below 0.
/// It is 0 if a corner has no deviation.
pub proof fn angle_score_is_the_mean_deviation<A: Arithmetic>(
    c: Seq<Point>,
    d: (Single, Single, Single, Single),
)
    requires
        rounds_closely::<A>(),
        c.len() == 4,
        Single::of(0x3f80_0000).less(mean2::<A>(distance::<A>(c[0], c[1]), distance::<A>(c[2], c[3]))),
        Single::of(0x3f80_0000).less(mean2::<A>(distance::<A>(c[3], c[0]), distance::<A>(c[1], c[2]))),
        is_near(d.0, value(d.0), 0real) && 0real <= value(d.0) <= 360real,
        is_near(d.1, value(d.1), 0real) && 0real <= value(d.1) <= 360real,
        is_near(d.2, value(d.2), 0real) && 0real <= value(d.2) <= 360real,
        is_near(d.3, value(d.3), 0real) && 0real <= value(d.3) <= 360real,
    ensures
        deviation::<A>(c, 0) == Some(d.0) && deviation::<A>(c, 1) == Some(d.1) && deviation::<A>(
            c,
            2,
        ) == Some(d.2) && deviation::<A>(c, 3) == Some(d.3) ==> is_near(
            metrics::<A>(c).1,
            unit_clamp(
                1real - (value(d.0) + value(d.1) + value(d.2) + value(d.3)) / 180real,
            ),
            1real / 10000real,
        ),
        deviation::<A>(c, 0) is None || deviation::<A>(c, 1) is None || deviation::<A>(c, 2) is None
            || deviation::<A>(c, 3) is None ==> value(metrics::<A>(c).1) == 0real,
{
    lemma_value_units();
    reveal_with_fuel(deviation_sum, 5);
    let zero: Single = Single::of(ZERO);
    let one: Single = Single::of(ONE);
    if deviation::<A>(c, 0) == Some(d.0) && deviation::<A>(c, 1) == Some(d.1) && deviation::<A>(
        c,
        2,
    ) == Some(d.2) && deviation::<A>(c, 3) == Some(d.3) {
        let (v0, v1, v2, v3) = (value(d.0), value(d.1), value(d.2), value(d.3));
        let t1: Single = A::sum_of(zero, d.0);
        let t2: Single = A::sum_of(t1, d.1);
        let t3: Single = A::sum_of(t2, d.2);
        let t4: Single = A::sum_of(t3, d.3);
        let f = 1real / 4000real;
        lemma_sum::<A>(zero, d.0, 0real, v0, 0real, 0real, 2000real);
        lemma_sum::<A>(t1, d.1, v0, v1, f, 0real, 2000real);
        lemma_sum::<A>(t2, d.2, v0 + v1, v2, 2real * f, 0real, 2000real);
        lemma_sum::<A>(t3, d.3, v0 + v1 + v2, v3, 3real * f, 0real, 2000real);
        let s = v0 + v1 + v2 + v3;
        assert(is_near(t4, s, 4real * f));
        assert(deviation_sum::<A>(c, 4) == Some(t4));
        lemma_angle_end::<A>(t4, s);
    } else {
        assert(deviation::<A>(c, 0) is None || deviation::<A>(c, 1) is None || deviation::<A>(c, 2)
            is None || deviation::<A>(c, 3) is None ==> deviation_sum::<A>(c, 4) is None);
    }
}

proof fn lemma_angle_end<A: Arithmetic>(t: Single, s: real)
    requires
        rounds_closely::<A>(),
        is_near(t, s, 1real / 1000real),
        0real <= s <= 1440real,
    ensures
        is_near(
            A::diff_of(
                Single::of(ONE),
                A::quot_of(A::quot_of(t, Single::of(0x4080_0000)), Single::of(0x4234_0000)),
            ).clamp(Single::of(ZERO), Single::of(ONE)),
            unit_clamp(1real - s / 180real),
            1real / 10000real,
        ),
{
    lemma_value_units();
    lemma_scale_numbers();
    reveal_with_fuel(scale, 24);
    assert(scale(-21) * 2097152real == 1real && scale(-18) * 262144real == 1real);
    lemma_value_ratio(0x4080_0000, 129, 0, 2097152real);
    lemma_value_ratio(0x4234_0000, 132, 3407872, 262144real);
    assert((0x0080_0000 + 0) as real == 8388608real);
    assert((0x0080_0000 + 3407872) as real == 11796480real);
    let (four, part) = (Single::of(0x4080_0000), Single::of(0x4234_0000));
    assert(value(four) == 4real && value(part) == 45real);
    let q: Single = A::quot_of(t, four);
    lemma_over::<A>(t, four, 4real);
    let r: Single = A::quot_of(q, part);
    lemma_over::<A>(q, part, 45real);
    lemma_diff::<A>(Single::of(ONE), r, 1real, s / 180real, 0real, 3real / 100000real, 20real);
    lemma_unit_clamp(A::diff_of(Single::of(ONE), r));
}

/// A number over a divisor that is known.
proof fn lemma_over<A: Arithmetic>(a: Single, b: Single, n: real)
    requires
        rounds_closely::<A>(),
        is_finite(a),
        is_finite(b),
        value(b) == n,
        n == 4real || n == 45real,
        size(value(a)) <= 2000real,
    ensures
        is_near(A::quot_of(a, b), value(a) / n, 1real / 5000real / n),
{
    lemma_large();
    lemma_scale_numbers();
    lemma_tiny();
    let x = value(a);
    let z = x / value(b);
    assert(z == x / n);
    assert(is_rounded(A::quot_of(a, b), z)) by {
        reveal(rounds_closely);
    }
    lemma_rounded_size(z, scale(-24));
}

/// Points with finite coordinates coincide just where their coordinates are the
/// same numbers.
pub proof fn points_coincide_by_value(p: Point, q: Point)
    requires
        is_finite(p.0) && is_finite(p.1) && is_finite(q.0) && is_finite(q.1),
    ensures
        coincide(p, q) <==> value(p.0) == value(q.0) && value(p.1) == value(q.1),
{
    values_are_ordered(p.0, q.0);
    values_are_ordered(q.0, p.0);
    values_are_ordered(p.1, q.1);
    values_are_ordered(q.1, p.1);
}

proof fn lemma_sums_are_finite<A: Arithmetic>(pts: Seq<Point>, m: real)
    requires
        rounds_closely::<A>(),
        are_placed(pts, m),
        1real <= m <= 16777216real,
    ensures
        all_finite::<A>(pts),
{
    let (s, d) = (sums::<A>(pts), differences::<A>(pts));
    assert forall|k: int| 0 <= k < pts.len() implies is_finite(#[trigger] s[k]) && is_finite(d[k]) by {
        lemma_keys::<A>(pts, m, k);
    }
    assert forall|k: int| 0 <= k < s.len() implies (#[trigger] s[k]).less(
        Single::of(0x7f80_0000),
    ) && Single::of(0xff80_0000).less(s[k]) by {
        assert(is_finite(s[k]));
    }
    assert forall|k: int| 0 <= k < d.len() implies (#[trigger] d[k]).less(
        Single::of(0x7f80_0000),
    ) && Single::of(0xff80_0000).less(d[k]) by {
        assert(is_finite(s[k]) && is_finite(d[k]));
    }
}

proof fn lemma_keys<A: Arithmetic>(pts: Seq<Point>, m: real, k: int)
    requires
        rounds_closely::<A>(),
        are_placed(pts, m),
        1real <= m <= 16777216real,
        0 <= k < pts.len(),
    ensures
        is_near(
            sums::<A>(pts)[k],
            value(pts[k].0) + value(pts[k].1),
            m / 4194304real,
        ),
        is_near(
            differences::<A>(pts)[k],
            value(pts[k].0) - value(pts[k].1),
            m / 4194304real,
        ),
{
    let (a, b) = (pts[k].0, pts[k].1);
    assert(is_placed(pts[k], m));
    lemma_sum::<A>(a, b, value(a), value(b), 0real, 0real, 2real * m);
    lemma_diff::<A>(a, b, value(a), value(b), 0real, 0real, 2real * m);
}

proof fn lemma_member_keys<A: Arithmetic>(pts: Seq<Point>, m: real, p: Point)
    requires
        rounds_closely::<A>(),
        are_placed(pts, m),
        1real <= m <= 16777216real,
        pts.contains(p),
    ensures
        is_near(A::sum_of(p.0, p.1), value(p.0) + value(p.1), m / 4194304real),
        is_near(A::diff_of(p.0, p.1), value(p.0) - value(p.1), m / 4194304real),
{
    let j: int = choose|j: int| 0 <= j < pts.len() && pts[j] == p;
    lemma_keys::<A>(pts, m, j);
}

/// Of all points the first extreme has the least sum of its coordinates, the third
/// the greatest, the second the greatest difference and the fourth the least.
pub proof fn extremes_by_value<A: Arithmetic>(pts: Seq<Point>, m: real, k: int)
    requires
        rounds_closely::<A>(),
        are_placed(pts, m),
        1real <= m <= 16777216real,
        0 <= k < pts.len(),
    ensures
        ({
            let e = extremes::<A>(pts);
            let (x, y) = (value(pts[k].0), value(pts[k].1));
            let off = m / 1000000real;
            &&& value(e[0].0) + value(e[0].1) <= x + y + off
            &&& value(e[1].0) - value(e[1].1) >= x - y - off
            &&& value(e[2].0) + value(e[2].1) >= x + y - off
            &&& value(e[3].0) - value(e[3].1) <= x - y + off
        }),
        forall|i: int| 0 <= i < 4 ==> pts.contains(#[trigger] extremes::<A>(pts)[i]),
{
    lemma_sums_are_finite::<A>(pts, m);
    extremes_bound_all_points::<A>(pts, k);
    let e: Seq<Point> = extremes::<A>(pts);
    lemma_keys::<A>(pts, m, k);
    lemma_member_keys::<A>(pts, m, e[0]);
    lemma_member_keys::<A>(pts, m, e[1]);
    lemma_member_keys::<A>(pts, m, e[2]);
    lemma_member_keys::<A>(pts, m, e[3]);
    let (s, d) = (sums::<A>(pts)[k], differences::<A>(pts)[k]);
    values_are_ordered(s, A::sum_of(e[0].0, e[0].1));
    values_are_ordered(A::sum_of(e[2].0, e[2].1), s);
    values_are_ordered(d, A::diff_of(e[3].0, e[3].1));
    values_are_ordered(A::diff_of(e[1].0, e[1].1), d);
}

/// A quotient by a number that is not below 1.
proof fn lemma_not_larger(r: real, p: real, q: real, e: real)
    requires
        0real <= r,
        1real <= q,
        0real <= p <= 67108900real,
        r * q - p <= p / 16777216real + e,
        e <= 1real,
    ensures
        r <= 67109000real,
{
    assert(r <= r * q) by (nonlinear_arith)
        requires
            0real <= r,
            1real <= q,
    ;
}

/// The aspect ratio of corners inside a frame is an ordinary number, from 0 on.
pub proof fn aspect_is_ordinary<A: Arithmetic>(c: Seq<Point>)
    requires
        rounds_closely::<A>(),
        c.len() == 4,
        are_placed(c, 8388608real),
    ensures
        is_ordinary(metrics::<A>(c).0),
        value(metrics::<A>(c).0) >= 0real,
{
    assert(is_placed(c[0], 8388608real) && is_placed(c[1], 8388608real));
    assert(is_placed(c[2], 8388608real) && is_placed(c[3], 8388608real));
    lemma_distance_size::<A>(c[0], c[1]);
    lemma_distance_size::<A>(c[1], c[2]);
    lemma_distance_size::<A>(c[2], c[3]);
    lemma_distance_size::<A>(c[3], c[0]);
    let (top, right) = (distance::<A>(c[0], c[1]), distance::<A>(c[1], c[2]));
    let (bottom, left) = (distance::<A>(c[2], c[3]), distance::<A>(c[3], c[0]));
    lemma_mean::<A>(top, bottom);
    lemma_mean::<A>(left, right);
    lemma_tiny();
    lemma_value_units();
    lemma_scale_numbers();
    lemma_scale_monotone(30, 90);
    lemma_thirty();
    let (width, height) = (mean2::<A>(top, bottom), mean2::<A>(left, right));
    values_are_ordered(Single::of(ONE), width);
    values_are_ordered(Single::of(ONE), height);
    values_are_ordered(width, height);
    values_are_ordered(height, width);
    if !(width.at_most(Single::of(ONE)) || height.at_most(Single::of(ONE))) {
        let (big, small) = (width.larger(height), width.smaller(height));
        let (p, q) = (value(big), value(small));
        assert(p <= (1048576real * 1048576real * 1048576real * 1048576real) * q)
            by (nonlinear_arith)
            requires
                p <= 67108900real,
                1real <= q,
        ;
        lemma_quot::<A>(big, small);
        let t = scale(-149);
        let e = q * t;
        assert(e <= 67108900real * t) by (nonlinear_arith)
            requires
                e == q * t,
                q <= 67108900real,
                0real < t,
        ;
        lemma_not_larger(value(A::quot_of(big, small)), p, q, e);
    }
}

proof fn lemma_thirty()
    ensures
        scale(30) >= 67109000real,
{
    reveal_with_fuel(scale, 31);
}

} // verus!
