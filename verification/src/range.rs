//! Where the measures of a quadrilateral are numbers, and in which range.
//!
//! The laws are stated for an arithmetic that rounds in order: a computed result
//! is not beyond a finite number that the exact result is not beyond. With it,
//! nothing overflows for corners inside a frame, and no measure of them is
//! anything but a number.

use crate::component::point_of;
use crate::detect::{
    aspect_error, aspect_match, confidence, coverage, finding, findings_are_consistent,
    found_area_is_within_limits, found_corners_are_edge_points, is_edge_point, is_map_point,
    outline_map, placed, Params, ANGLE_WEIGHT, ASPECT_WEIGHT, ID1_ASPECT, ID1_TOL, SIDE_WEIGHT,
};
use crate::grid::{is_set, lemma_coordinates};
use crate::number::{Arithmetic, Single, INFINITY, ONE, ZERO};
use crate::polygon::{distance, length, Point};
use crate::quad::{
    area, deviation, deviation_sum, mean2, metrics, shoelace, shoelace_sum, symmetry,
    EIGHTH_TURN, FOUR, HALF, MINUS_ONE, QUARTER_TURN, SHORT_SIDE,
};
use crate::whole::{is_valuation, size, stands_for, WHOLE_LIMIT};
use vstd::prelude::*;

verus! {

/// The pattern stands for a finite number.
pub open spec fn is_finite(a: Single) -> bool {
    a.abs().less(Single::of(INFINITY))
}

/// The pattern of the power of two with exponent `k`.
pub open spec fn power(k: int) -> Single {
    Single::of(((127 + k) * 0x0080_0000) as u32)
}

/// Each power of two stands for twice the one before it, and that with exponent 0
/// for 1.
#[verifier::opaque]
pub open spec fn knows_powers(val: spec_fn(Single) -> real) -> bool {
    &&& val(power(0)) == 1real
    &&& forall|k: int| -126 <= k < 127 ==> val(power(k + 1)) == 2real * val(#[trigger] power(k))
}

/// `r` is a finite number from `low` to `high`.
pub open spec fn lands(
    val: spec_fn(Single) -> real,
    r: Single,
    low: Single,
    high: Single,
) -> bool {
    is_finite(r) && val(low) <= val(r) && val(r) <= val(high)
}

/// Results are rounded in order: where the exact result on finite numbers lies
/// between two finite numbers, so does the computed one.
#[verifier::opaque]
pub open spec fn rounds_in_order<A: Arithmetic>(val: spec_fn(Single) -> real) -> bool {
    &&& forall|a: Single, b: Single, low: Single, high: Single|
        #![trigger lands(val, A::sum_of(a, b), low, high)]
        is_finite(a) && is_finite(b) && is_finite(low) && is_finite(high) && val(low) <= val(a)
            + val(b) && val(a) + val(b) <= val(high) ==> lands(val, A::sum_of(a, b), low, high)
    &&& forall|a: Single, b: Single, low: Single, high: Single|
        #![trigger lands(val, A::diff_of(a, b), low, high)]
        is_finite(a) && is_finite(b) && is_finite(low) && is_finite(high) && val(low) <= val(a)
            - val(b) && val(a) - val(b) <= val(high) ==> lands(val, A::diff_of(a, b), low, high)
    &&& forall|a: Single, b: Single, low: Single, high: Single|
        #![trigger lands(val, A::prod_of(a, b), low, high)]
        is_finite(a) && is_finite(b) && is_finite(low) && is_finite(high) && val(low) <= val(a)
            * val(b) && val(a) * val(b) <= val(high) ==> lands(val, A::prod_of(a, b), low, high)
    &&& forall|a: Single, b: Single, low: Single, high: Single|
        #![trigger lands(val, A::quot_of(a, b), low, high)]
        is_finite(a) && is_finite(b) && is_finite(low) && is_finite(high) && val(b) > 0real && val(
            low,
        ) * val(b) <= val(a) && val(a) <= val(high) * val(b) ==> lands(
            val,
            A::quot_of(a, b),
            low,
            high,
        )
    &&& forall|a: Single, low: Single, high: Single|
        #![trigger lands(val, A::sqrt_of(a), low, high)]
        is_finite(a) && is_finite(low) && is_finite(high) && val(low) >= 0real && val(high) >= 0real
            && val(low) * val(low) <= val(a) && val(a) <= val(high) * val(high) ==> lands(
            val,
            A::sqrt_of(a),
            low,
            high,
        )
}

/// The arc cosine of a number from -1 to 1 lies from 0 to 4, and such an angle in
/// degrees from 0 to 256.
#[verifier::opaque]
pub open spec fn turns_in_order<A: Arithmetic>(val: spec_fn(Single) -> real) -> bool {
    &&& forall|a: Single|
        Single::of(MINUS_ONE).at_most(a) && a.at_most(Single::of(ONE)) ==> lands(
            val,
            #[trigger] A::acos_of(a),
            Single::of(ZERO),
            power(2),
        )
    &&& forall|a: Single|
        lands(val, a, Single::of(ZERO), power(2)) ==> lands(
            val,
            #[trigger] A::degrees_of(a),
            Single::of(ZERO),
            power(8),
        )
}

/// A coordinate up to the limit of whole numbers is converted to a number from 0
/// to that limit, and a positive count to a finite number from 1 on.
#[verifier::opaque]
pub open spec fn converts_in_order<A: Arithmetic>(val: spec_fn(Single) -> real) -> bool {
    &&& forall|n: i32|
        0 <= n <= WHOLE_LIMIT ==> lands(
            val,
            #[trigger] A::from_i32_of(n),
            Single::of(ZERO),
            power(24),
        )
    &&& forall|n: usize|
        1 <= n ==> is_finite(#[trigger] A::from_usize_of(n)) && val(A::from_usize_of(n)) >= 1real
}

/// What the laws here ask of an arithmetic and of the numbers that the patterns
/// stand for.
pub open spec fn is_orderly<A: Arithmetic>(val: spec_fn(Single) -> real) -> bool {
    &&& is_valuation(val)
    &&& knows_powers(val)
    &&& rounds_in_order::<A>(val)
    &&& turns_in_order::<A>(val)
    &&& converts_in_order::<A>(val)
}

/// The pattern of the negative of a power of two.
spec fn minus_power(k: int) -> Single {
    Single::of((0x8000_0000 + (127 + k) * 0x0080_0000) as u32)
}

/// `a` is finite and in size at most the power of two with exponent `k`.
pub open spec fn is_within(val: spec_fn(Single) -> real, a: Single, k: int) -> bool {
    is_finite(a) && -val(power(k)) <= val(a) && val(a) <= val(power(k))
}

/// The order of finite patterns is that of their numbers.
proof fn lemma_order(val: spec_fn(Single) -> real, a: Single, b: Single)
    requires
        is_valuation(val),
        is_finite(a),
        is_finite(b),
    ensures
        a.less(b) <==> val(a) < val(b),
        a.at_most(b) <==> val(a) <= val(b),
{
    reveal(is_valuation);
    assert(stands_for(val, a, val(a)) && stands_for(val, b, val(b)));
}

proof fn lemma_units(val: spec_fn(Single) -> real)
    requires
        is_valuation(val),
        knows_powers(val),
    ensures
        val(Single::of(ZERO)) == 0real,
        val(Single::of(ONE)) == 1real,
        is_finite(Single::of(ZERO)),
        is_finite(Single::of(ONE)),
        power(0) == Single::of(ONE),
{
    reveal(is_valuation);
    reveal(knows_powers);
}

proof fn lemma_abs(val: spec_fn(Single) -> real, a: Single)
    requires
        is_valuation(val),
        is_finite(a),
    ensures
        is_finite(a.abs()),
        val(a.abs()) == size(val(a)),
{
    reveal(is_valuation);
    assert(stands_for(val, a, val(a)));
    assert(stands_for(val, a.abs(), size(val(a))));
}

proof fn lemma_power(val: spec_fn(Single) -> real, k: int)
    requires
        is_valuation(val),
        knows_powers(val),
        -126 <= k <= 127,
    ensures
        is_finite(power(k)),
        val(power(k)) > 0real,
        is_finite(minus_power(k)),
        val(minus_power(k)) == -val(power(k)),
{
    lemma_units(val);
    lemma_order(val, Single::of(ZERO), power(k));
    let m: Single = minus_power(k);
    assert(m.abs() == power(k));
    lemma_order(val, m, Single::of(ZERO));
    lemma_abs(val, m);
}

/// A higher power is twice the one before it.
proof fn lemma_power_step(val: spec_fn(Single) -> real, k: int)
    requires
        knows_powers(val),
        -126 <= k < 127,
    ensures
        val(power(k + 1)) == 2real * val(power(k)),
{
    reveal(knows_powers);
}

proof fn lemma_power_monotone(val: spec_fn(Single) -> real, j: int, k: int)
    requires
        is_valuation(val),
        knows_powers(val),
        -126 <= j <= k <= 127,
    ensures
        val(power(j)) <= val(power(k)),
{
    lemma_power(val, j);
    lemma_power(val, k);
    lemma_order(val, power(j), power(k));
}

proof fn lemma_power_product_up(val: spec_fn(Single) -> real, j: int, k: int)
    requires
        knows_powers(val),
        0 <= k,
        -126 <= j,
        j + k <= 127,
        k <= 127,
        -126 <= j + k,
    ensures
        val(power(j)) * val(power(k)) == val(power(j + k)),
    decreases k,
{
    if k == 0 {
        reveal(knows_powers);
        let a = val(power(j));
        assert(a * 1real == a) by (nonlinear_arith);
    } else {
        lemma_power_product_up(val, j, k - 1);
        lemma_power_step(val, k - 1);
        lemma_power_step(val, j + k - 1);
        let (a, b) = (val(power(j)), val(power(k - 1)));
        assert(a * (2real * b) == 2real * (a * b)) by (nonlinear_arith);
    }
}

/// Powers are multiplied by adding their exponents.
proof fn lemma_power_product(val: spec_fn(Single) -> real, j: int, k: int)
    requires
        is_valuation(val),
        knows_powers(val),
        -126 <= j <= 127,
        -126 <= k <= 126,
        -126 <= j + k <= 127,
    ensures
        val(power(j)) * val(power(k)) == val(power(j + k)),
{
    if k >= 0 {
        lemma_power_product_up(val, j, k);
    } else {
        lemma_power_product_up(val, j + k, -k);
        lemma_power_product_up(val, k, -k);
        lemma_units(val);
        let (a, b, c) = (val(power(j + k)), val(power(-k)), val(power(k)));
        assert((a * b) * c == a * (c * b)) by (nonlinear_arith);
        assert(a * 1real == a) by (nonlinear_arith);
        assert(c * b == 1real);
    }
}

/// A number within a power is within each higher one.
proof fn lemma_wider(val: spec_fn(Single) -> real, a: Single, j: int, k: int)
    requires
        is_valuation(val),
        knows_powers(val),
        is_within(val, a, j),
        -126 <= j <= k <= 127,
    ensures
        is_within(val, a, k),
{
    lemma_power_monotone(val, j, k);
}

/// Size of a product of bounded numbers.
proof fn lemma_bounded_product(x: real, y: real, m: real, n: real)
    requires
        -m <= x <= m,
        -n <= y <= n,
        0real <= m,
        0real <= n,
    ensures
        -(m * n) <= x * y <= m * n,
{
    assert(-(m * n) <= x * y && x * y <= m * n) by (nonlinear_arith)
        requires
            -m <= x <= m,
            -n <= y <= n,
            0real <= m,
            0real <= n,
    ;
}

/// Sum and difference of bounded numbers.
proof fn lemma_sum<A: Arithmetic>(val: spec_fn(Single) -> real, a: Single, b: Single, k: int)
    requires
        is_orderly::<A>(val),
        is_within(val, a, k),
        is_within(val, b, k),
        -126 <= k < 127,
    ensures
        is_within(val, A::sum_of(a, b), k + 1),
        is_within(val, A::diff_of(a, b), k + 1),
        val(a) >= 0real && val(b) >= 0real ==> val(A::sum_of(a, b)) >= 0real,
{
    lemma_power_step(val, k);
    lemma_power(val, k + 1);
    lemma_units(val);
    let (low, high) = (minus_power(k + 1), power(k + 1));
    assert(lands(val, A::sum_of(a, b), low, high)) by {
        reveal(rounds_in_order);
    }
    assert(lands(val, A::diff_of(a, b), low, high)) by {
        reveal(rounds_in_order);
    }
    if val(a) >= 0real && val(b) >= 0real {
        assert(lands(val, A::sum_of(a, b), Single::of(ZERO), high)) by {
            reveal(rounds_in_order);
        }
    }
}

/// Product of bounded numbers.
proof fn lemma_product<A: Arithmetic>(
    val: spec_fn(Single) -> real,
    a: Single,
    b: Single,
    j: int,
    k: int,
)
    requires
        is_orderly::<A>(val),
        is_within(val, a, j),
        is_within(val, b, k),
        -126 <= j <= 127,
        -126 <= k <= 126,
        -126 <= j + k <= 127,
    ensures
        is_within(val, A::prod_of(a, b), j + k),
        val(a) * val(b) >= 0real ==> val(A::prod_of(a, b)) >= 0real,
{
    lemma_power_product(val, j, k);
    lemma_power(val, j);
    lemma_power(val, k);
    lemma_power(val, j + k);
    lemma_units(val);
    lemma_bounded_product(val(a), val(b), val(power(j)), val(power(k)));
    let (low, high) = (minus_power(j + k), power(j + k));
    assert(lands(val, A::prod_of(a, b), low, high)) by {
        reveal(rounds_in_order);
    }
    if val(a) * val(b) >= 0real {
        assert(lands(val, A::prod_of(a, b), Single::of(ZERO), high)) by {
            reveal(rounds_in_order);
        }
    }
}

/// Quotient of a bounded number by one that is not small.
proof fn lemma_quotient<A: Arithmetic>(
    val: spec_fn(Single) -> real,
    a: Single,
    b: Single,
    j: int,
    k: int,
)
    requires
        is_orderly::<A>(val),
        is_within(val, a, j),
        is_finite(b),
        val(b) >= val(power(k)),
        -126 <= j <= 127,
        -126 <= k <= 126,
        -126 <= j - k <= 127,
    ensures
        is_within(val, A::quot_of(a, b), j - k),
{
    let (low, high) = (minus_power(j - k), power(j - k));
    lemma_power_product(val, j - k, k);
    lemma_power(val, j - k);
    lemma_power(val, k);
    let (x, y, m, d) = (val(a), val(b), val(power(j - k)), val(power(k)));
    assert(m * y >= m * d) by (nonlinear_arith)
        requires
            y >= d,
            m > 0real,
    ;
    assert((-m) * y == -(m * y)) by (nonlinear_arith);
    assert(lands(val, A::quot_of(a, b), low, high)) by {
        reveal(rounds_in_order);
    }
}

/// The length of a bounded vector.
proof fn lemma_length<A: Arithmetic>(val: spec_fn(Single) -> real, dx: Single, dy: Single)
    requires
        is_orderly::<A>(val),
        is_within(val, dx, 25),
        is_within(val, dy, 25),
    ensures
        is_within(val, length::<A>(dx, dy), 26),
        val(length::<A>(dx, dy)) >= 0real,
{
    let (x, y) = (val(dx), val(dy));
    assert(x * x >= 0real && y * y >= 0real) by (nonlinear_arith);
    lemma_product::<A>(val, dx, dx, 25, 25);
    lemma_product::<A>(val, dy, dy, 25, 25);
    let (a, b) = (A::prod_of(dx, dx), A::prod_of(dy, dy));
    lemma_sum::<A>(val, a, b, 50);
    let s: Single = A::sum_of(a, b);
    lemma_power_product(val, 26, 26);
    lemma_power_monotone(val, 51, 52);
    lemma_power(val, 26);
    lemma_units(val);
    assert(lands(val, A::sqrt_of(s), Single::of(ZERO), power(26))) by {
        assert(0real * 0real == 0real);
        reveal(rounds_in_order);
    }
}

/// A finite number clamped to an interval is a number of it.
proof fn lemma_clamped(x: Single, low: Single, high: Single)
    requires
        is_finite(x),
        low.at_most(high),
    ensures
        low.at_most(x.clamp(low, high)),
        x.clamp(low, high).at_most(high),
        !x.clamp(low, high).is_nan(),
{
}

/// All coordinates of the corners are finite, of the size of those of a frame.
pub open spec fn are_moderate(val: spec_fn(Single) -> real, c: Seq<Point>) -> bool {
    &&& c.len() == 4
    &&& forall|i: int|
        0 <= i < 4 ==> is_within(val, (#[trigger] c[i]).0, 24) && is_within(val, c[i].1, 24)
}

proof fn lemma_distance<A: Arithmetic>(
    val: spec_fn(Single) -> real,
    c: Seq<Point>,
    i: int,
    j: int,
)
    requires
        is_orderly::<A>(val),
        are_moderate(val, c),
        0 <= i < 4,
        0 <= j < 4,
    ensures
        is_within(val, A::diff_of(c[i].0, c[j].0), 25),
        is_within(val, A::diff_of(c[i].1, c[j].1), 25),
        is_within(val, distance::<A>(c[i], c[j]), 26),
        val(distance::<A>(c[i], c[j])) >= 0real,
{
    let (p, q) = (c[i], c[j]);
    lemma_sum::<A>(val, p.0, q.0, 24);
    lemma_sum::<A>(val, p.1, q.1, 24);
    lemma_length::<A>(val, A::diff_of(p.0, q.0), A::diff_of(p.1, q.1));
}

/// A constant between two powers.
proof fn lemma_constant(val: spec_fn(Single) -> real, c: Single, k: int)
    requires
        is_valuation(val),
        knows_powers(val),
        -126 <= k <= 127,
        Single::of(ZERO).at_most(c),
        c.at_most(power(k)),
    ensures
        is_within(val, c, k),
        val(c) >= 0real,
{
    lemma_units(val);
    lemma_power(val, k);
    lemma_order(val, c, power(k));
    lemma_order(val, Single::of(ZERO), c);
}

/// The product of two sides that are not short.
proof fn lemma_side_product<A: Arithmetic>(val: spec_fn(Single) -> real, m: Single, n: Single)
    requires
        is_orderly::<A>(val),
        is_within(val, m, 26),
        is_within(val, n, 26),
        !m.less(Single::of(SHORT_SIDE)),
        !n.less(Single::of(SHORT_SIDE)),
    ensures
        is_finite(A::prod_of(m, n)),
        val(A::prod_of(m, n)) >= val(power(-20)),
{
    let short: Single = Single::of(SHORT_SIDE);
    lemma_order(val, m, short);
    lemma_order(val, n, short);
    lemma_order(val, power(-10), short);
    lemma_power_product(val, -10, -10);
    lemma_power_product(val, 26, 26);
    lemma_power(val, -10);
    lemma_power(val, -20);
    lemma_power(val, 26);
    lemma_power(val, 52);
    let (x, y, l, u) = (val(m), val(n), val(power(-10)), val(power(26)));
    assert(x * y >= l * l) by (nonlinear_arith)
        requires
            x >= l,
            y >= l,
            l > 0real,
    ;
    lemma_bounded_product(x, y, u, u);
    assert(lands(val, A::prod_of(m, n), power(-20), power(52))) by {
        reveal(rounds_in_order);
    }
}

/// How far an angle is from a right one is a bounded number.
proof fn lemma_turn<A: Arithmetic>(val: spec_fn(Single) -> real, cosine: Single)
    requires
        is_orderly::<A>(val),
        Single::of(MINUS_ONE).at_most(cosine),
        cosine.at_most(Single::of(ONE)),
    ensures
        is_within(
            val,
            A::diff_of(A::degrees_of(A::acos_of(cosine)), Single::of(QUARTER_TURN)).abs(),
            9,
        ),
{
    let angle: Single = A::acos_of(cosine);
    let degrees: Single = A::degrees_of(angle);
    assert(lands(val, degrees, Single::of(ZERO), power(8))) by {
        reveal(turns_in_order);
        assert(lands(val, angle, Single::of(ZERO), power(2)));
    }
    lemma_units(val);
    lemma_power(val, 8);
    lemma_constant(val, Single::of(QUARTER_TURN), 8);
    lemma_sum::<A>(val, degrees, Single::of(QUARTER_TURN), 8);
    lemma_abs(val, A::diff_of(degrees, Single::of(QUARTER_TURN)));
    lemma_power(val, 9);
}

/// The deviation of an angle is a bounded number.
proof fn lemma_deviation<A: Arithmetic>(val: spec_fn(Single) -> real, c: Seq<Point>, i: int)
    requires
        is_orderly::<A>(val),
        are_moderate(val, c),
        0 <= i < 4,
    ensures
        deviation::<A>(c, i) matches Some(d) ==> is_within(val, d, 9),
{
    let (h, j) = ((i + 3) % 4, (i + 1) % 4);
    let (prev, cur, next) = (c[h], c[i], c[j]);
    let (v1x, v1y) = (A::diff_of(prev.0, cur.0), A::diff_of(prev.1, cur.1));
    let (v2x, v2y) = (A::diff_of(next.0, cur.0), A::diff_of(next.1, cur.1));
    lemma_distance::<A>(val, c, h, i);
    lemma_distance::<A>(val, c, j, i);
    let (m1, m2) = (length::<A>(v1x, v1y), length::<A>(v2x, v2y));
    let short: Single = Single::of(SHORT_SIDE);
    if !m1.less(short) && !m2.less(short) {
        lemma_product::<A>(val, v1x, v2x, 25, 25);
        lemma_product::<A>(val, v1y, v2y, 25, 25);
        lemma_sum::<A>(val, A::prod_of(v1x, v2x), A::prod_of(v1y, v2y), 50);
        lemma_side_product::<A>(val, m1, m2);
        let dot: Single = A::sum_of(A::prod_of(v1x, v2x), A::prod_of(v1y, v2y));
        let q: Single = A::quot_of(dot, A::prod_of(m1, m2));
        lemma_quotient::<A>(val, dot, A::prod_of(m1, m2), 51, -20);
        lemma_clamped(q, Single::of(MINUS_ONE), Single::of(ONE));
        let cosine: Single = q.clamp(Single::of(MINUS_ONE), Single::of(ONE));
        lemma_turn::<A>(val, cosine);
    }
}

/// A score from 0 to 1.
spec fn is_score(x: Single) -> bool {
    Single::of(ZERO).at_most(x) && x.at_most(Single::of(ONE))
}

/// The angle score is a number from 0 to 1.
proof fn lemma_angle_score<A: Arithmetic>(val: spec_fn(Single) -> real, c: Seq<Point>)
    requires
        is_orderly::<A>(val),
        are_moderate(val, c),
    ensures
        deviation_sum::<A>(c, 4) matches Some(total) ==> is_score(
            A::diff_of(
                Single::of(ONE),
                A::quot_of(
                    A::quot_of(total, Single::of(FOUR)),
                    Single::of(EIGHTH_TURN),
                ),
            ).clamp(Single::of(ZERO), Single::of(ONE)),
        ),
{
    if let Some(total) = deviation_sum::<A>(c, 4) {
        lemma_total::<A>(val, c, 4);
        let (four, eighth) = (Single::of(FOUR), Single::of(EIGHTH_TURN));
        let one: Single = Single::of(ONE);
        lemma_units(val);
        lemma_power(val, 0);
        lemma_power(val, 7);
        lemma_constant(val, four, 7);
        lemma_constant(val, eighth, 7);
        lemma_order(val, one, four);
        lemma_order(val, one, eighth);
        lemma_quotient::<A>(val, total, four, 13, 0);
        let mean: Single = A::quot_of(total, four);
        lemma_quotient::<A>(val, mean, eighth, 13, 0);
        let share: Single = A::quot_of(mean, eighth);
        lemma_constant(val, one, 13);
        lemma_sum::<A>(val, one, share, 13);
        lemma_clamped(A::diff_of(one, share), Single::of(ZERO), one);
    }
}

/// The sum of the deviations of the first corners is a bounded number.
proof fn lemma_total<A: Arithmetic>(val: spec_fn(Single) -> real, c: Seq<Point>, k: int)
    requires
        is_orderly::<A>(val),
        are_moderate(val, c),
        0 <= k <= 4,
    ensures
        deviation_sum::<A>(c, k) matches Some(total) ==> is_within(val, total, 9 + k),
    decreases k,
{
    if k == 0 {
        lemma_units(val);
        lemma_constant(val, Single::of(ZERO), 9);
    } else {
        lemma_total::<A>(val, c, k - 1);
        lemma_deviation::<A>(val, c, k - 1);
        if let (Some(total), Some(d)) = (
            deviation_sum::<A>(c, k - 1),
            deviation::<A>(c, k - 1),
        ) {
            lemma_wider(val, d, 9, 8 + k);
            lemma_sum::<A>(val, total, d, 8 + k);
        }
    }
}

/// Two opposite sides whose mean is above 1 have a bounded symmetry.
proof fn lemma_symmetry<A: Arithmetic>(val: spec_fn(Single) -> real, a: Single, b: Single)
    requires
        is_orderly::<A>(val),
        is_within(val, a, 26),
        is_within(val, b, 26),
        val(a) >= 0real,
        val(b) >= 0real,
    ensures
        is_within(val, mean2::<A>(a, b), 27),
        !mean2::<A>(a, b).at_most(Single::of(ONE)) ==> Single::of(ONE).less(mean2::<A>(a, b)),
        !mean2::<A>(a, b).at_most(Single::of(ONE)) ==> is_within(val, symmetry::<A>(a, b), 28),
{
    let (one, half) = (Single::of(ONE), Single::of(HALF));
    let s: Single = A::sum_of(a, b);
    lemma_units(val);
    lemma_power(val, 0);
    lemma_sum::<A>(val, a, b, 26);
    lemma_constant(val, half, 0);
    lemma_product::<A>(val, s, half, 27, 0);
    let m: Single = mean2::<A>(a, b);
    lemma_order(val, one, m);
    if !m.at_most(one) {
        lemma_order(val, m, one);
        assert(val(s) >= 1real) by {
            if val(s) < 1real {
                let (x, y) = (val(s), val(half));
                assert(0real <= x * y && x * y <= 1real) by (nonlinear_arith)
                    requires
                        0real <= x <= 1real,
                        0real <= y <= 1real,
                ;
                assert(lands(val, A::prod_of(s, half), Single::of(ZERO), one)) by {
                    reveal(rounds_in_order);
                }
            }
        }
        let d: Single = A::diff_of(a, b).abs();
        lemma_abs(val, A::diff_of(a, b));
        lemma_power(val, 27);
        lemma_quotient::<A>(val, d, s, 27, 0);
        lemma_constant(val, one, 27);
        lemma_sum::<A>(val, one, A::quot_of(d, s), 27);
    }
}

/// The aspect ratio is a bounded number from 1 on, and the side score one from 0
/// to 1.
proof fn lemma_shape<A: Arithmetic>(val: spec_fn(Single) -> real, c: Seq<Point>)
    requires
        is_orderly::<A>(val),
        are_moderate(val, c),
    ensures
        is_within(val, metrics::<A>(c).0, 27),
        Single::of(ONE).at_most(metrics::<A>(c).0),
        is_score(metrics::<A>(c).2),
{
    let (zero, one) = (Single::of(ZERO), Single::of(ONE));
    let (top, right) = (distance::<A>(c[0], c[1]), distance::<A>(c[1], c[2]));
    let (bottom, left) = (distance::<A>(c[2], c[3]), distance::<A>(c[3], c[0]));
    lemma_distance::<A>(val, c, 0, 1);
    lemma_distance::<A>(val, c, 1, 2);
    lemma_distance::<A>(val, c, 2, 3);
    lemma_distance::<A>(val, c, 3, 0);
    lemma_symmetry::<A>(val, top, bottom);
    lemma_symmetry::<A>(val, left, right);
    lemma_units(val);
    lemma_power(val, 0);
    lemma_power(val, 27);
    lemma_constant(val, one, 27);
    let (width, height) = (mean2::<A>(top, bottom), mean2::<A>(left, right));
    if !width.at_most(one) && !height.at_most(one) {
        let (long, short) = (width.larger(height), width.smaller(height));
        lemma_order(val, one, width);
        lemma_order(val, one, height);
        lemma_order(val, width, height);
        lemma_order(val, height, width);
        assert(val(short) <= val(long) && val(short) >= 1real);
        let (x, y, m) = (val(long), val(short), val(power(27)));
        assert(x <= m * y) by (nonlinear_arith)
            requires
                x <= m,
                y >= 1real,
                m > 0real,
        ;
        assert(1real * y == y) by (nonlinear_arith);
        assert(lands(val, A::quot_of(long, short), one, power(27))) by {
            reveal(rounds_in_order);
        }
        lemma_order(val, one, A::quot_of(long, short));
        lemma_product::<A>(
            val,
            symmetry::<A>(top, bottom),
            symmetry::<A>(left, right),
            28,
            28,
        );
        lemma_clamped(
            A::prod_of(symmetry::<A>(top, bottom), symmetry::<A>(left, right)),
            zero,
            one,
        );
    }
}

/// Aspect ratio and scores of corners of moderate size are numbers: the aspect
/// ratio is at least 1, and both scores lie from 0 to 1.
pub proof fn metrics_are_numbers<A: Arithmetic>(val: spec_fn(Single) -> real, c: Seq<Point>)
    requires
        is_orderly::<A>(val),
        are_moderate(val, c),
    ensures
        ({
            let (aspect, angle, side) = metrics::<A>(c);
            let (zero, one) = (Single::of(ZERO), Single::of(ONE));
            &&& is_finite(aspect)
            &&& one.at_most(aspect)
            &&& zero.at_most(angle) && angle.at_most(one)
            &&& zero.at_most(side) && side.at_most(one)
        }),
{
    lemma_shape::<A>(val, c);
    lemma_angle_score::<A>(val, c);
}

proof fn lemma_shoelace<A: Arithmetic>(val: spec_fn(Single) -> real, c: Seq<Point>, k: int)
    requires
        is_orderly::<A>(val),
        are_moderate(val, c),
        0 <= k <= 4,
    ensures
        is_within(val, shoelace_sum::<A>(c, k), 49 + k),
    decreases k,
{
    if k == 0 {
        lemma_units(val);
        lemma_power(val, 49);
    } else {
        lemma_shoelace::<A>(val, c, k - 1);
        let (p, q) = (c[k - 1], c[((k - 1) + 1) % 4]);
        lemma_product::<A>(val, p.0, q.1, 24, 24);
        lemma_product::<A>(val, q.0, p.1, 24, 24);
        lemma_sum::<A>(val, A::prod_of(p.0, q.1), A::prod_of(q.0, p.1), 48);
        lemma_wider(val, shoelace::<A>(c, k - 1), 49, 48 + k);
        lemma_sum::<A>(val, shoelace_sum::<A>(c, k - 1), shoelace::<A>(c, k - 1), 48 + k);
    }
}

/// The area of corners of moderate size is a finite number from 0 on.
pub proof fn area_is_a_number<A: Arithmetic>(val: spec_fn(Single) -> real, c: Seq<Point>)
    requires
        is_orderly::<A>(val),
        are_moderate(val, c),
    ensures
        is_finite(area::<A>(c)),
        Single::of(ZERO).at_most(area::<A>(c)),
        is_within(val, area::<A>(c), 53),
{
    lemma_shoelace::<A>(val, c, 4);
    lemma_units(val);
    lemma_power(val, 0);
    lemma_power(val, 53);
    lemma_constant(val, Single::of(HALF), 0);
    lemma_product::<A>(val, shoelace_sum::<A>(c, 4), Single::of(HALF), 53, 0);
    lemma_abs(val, A::prod_of(shoelace_sum::<A>(c, 4), Single::of(HALF)));
}

/// The match of an aspect ratio is a number from 0 to 1.
proof fn lemma_aspect_match<A: Arithmetic>(val: spec_fn(Single) -> real, aspect: Single)
    requires
        is_orderly::<A>(val),
        is_within(val, aspect, 27),
    ensures
        is_score(aspect_match::<A>(aspect)),
{
    let (zero, one) = (Single::of(ZERO), Single::of(ONE));
    lemma_units(val);
    lemma_power(val, 28);
    lemma_constant(val, Single::of(ID1_ASPECT), 27);
    lemma_sum::<A>(val, aspect, Single::of(ID1_ASPECT), 27);
    lemma_abs(val, A::diff_of(aspect, Single::of(ID1_ASPECT)));
    let err: Single = aspect_error::<A>(aspect);
    lemma_constant(val, Single::of(ID1_TOL), 28);
    lemma_sum::<A>(val, err, Single::of(ID1_TOL), 28);
    lemma_constant(val, one, 29);
    lemma_sum::<A>(val, one, A::diff_of(err, Single::of(ID1_TOL)), 29);
    lemma_clamped(A::diff_of(one, A::diff_of(err, Single::of(ID1_TOL))), zero, one);
}

/// The confidence in corners of moderate size is a number from 0 to 1.
pub proof fn confidence_is_a_number<A: Arithmetic>(val: spec_fn(Single) -> real, c: Seq<Point>)
    requires
        is_orderly::<A>(val),
        are_moderate(val, c),
    ensures
        ({
            let (aspect, angle, side) = metrics::<A>(c);
            let x = confidence::<A>(angle, side, aspect);
            &&& !x.is_nan()
            &&& Single::of(ZERO).at_most(x)
            &&& x.at_most(Single::of(ONE))
        }),
{
    let (aspect, angle, side) = metrics::<A>(c);
    metrics_are_numbers::<A>(val, c);
    lemma_shape::<A>(val, c);
    lemma_aspect_match::<A>(val, aspect);
    let closeness: Single = aspect_match::<A>(aspect);
    lemma_units(val);
    lemma_constant(val, angle, 0);
    lemma_constant(val, side, 0);
    lemma_constant(val, closeness, 0);
    let (u, v, w) = (Single::of(ANGLE_WEIGHT), Single::of(SIDE_WEIGHT), Single::of(ASPECT_WEIGHT));
    lemma_constant(val, u, 0);
    lemma_constant(val, v, 0);
    lemma_constant(val, w, 0);
    lemma_product::<A>(val, u, angle, 0, 0);
    lemma_product::<A>(val, v, side, 0, 0);
    lemma_product::<A>(val, w, closeness, 0, 0);
    lemma_sum::<A>(val, A::prod_of(u, angle), A::prod_of(v, side), 0);
    let s: Single = A::sum_of(A::prod_of(u, angle), A::prod_of(v, side));
    lemma_wider(val, A::prod_of(w, closeness), 0, 1);
    lemma_sum::<A>(val, s, A::prod_of(w, closeness), 1);
    lemma_clamped(
        A::sum_of(s, A::prod_of(w, closeness)),
        Single::of(ZERO),
        Single::of(ONE),
    );
}

/// The part of a frame that corners of moderate size cover is a finite number.
pub proof fn coverage_is_a_number<A: Arithmetic>(
    val: spec_fn(Single) -> real,
    c: Seq<Point>,
    w: int,
    h: int,
)
    requires
        is_orderly::<A>(val),
        are_moderate(val, c),
        1 <= w * h <= usize::MAX,
    ensures
        is_finite(coverage::<A>(c, w, h)),
        !coverage::<A>(c, w, h).is_nan(),
{
    let n: usize = (w * h) as usize;
    area_is_a_number::<A>(val, c);
    lemma_units(val);
    assert(is_finite(A::from_usize_of(n)) && val(A::from_usize_of(n)) >= 1real) by {
        reveal(converts_in_order);
    }
    lemma_quotient::<A>(val, area::<A>(c), A::from_usize_of(n), 53, 0);
}

/// A corner that stands for an edge pixel is of moderate size.
proof fn lemma_edge_point_is_moderate<A: Arithmetic>(
    val: spec_fn(Single) -> real,
    map: Seq<bool>,
    w: int,
    h: int,
    c: Point,
)
    requires
        is_orderly::<A>(val),
        is_edge_point::<A>(map, w, c),
        map.len() == w * h,
        0 < w <= WHOLE_LIMIT,
        h <= WHOLE_LIMIT,
    ensures
        is_within(val, c.0, 24),
        is_within(val, c.1, 24),
{
    let q: (i32, i32) = choose|q: (i32, i32)| #[trigger]
        is_map_point(map, w, q) && c == placed::<A>(q);
    let k: int = choose|k: int| #[trigger] is_set(map, k) && q == point_of(k, w);
    lemma_coordinates(k, w, h);
    lemma_units(val);
    lemma_power(val, 24);
    assert(lands(val, A::from_i32_of(q.0), Single::of(ZERO), power(24))) by {
        reveal(converts_in_order);
    }
    assert(lands(val, A::from_i32_of(q.1), Single::of(ZERO), power(24))) by {
        reveal(converts_in_order);
    }
}

/// The corners that are found in a frame of up to 2^24 columns and rows are of
/// moderate size.
proof fn lemma_found_corners_are_moderate<A: Arithmetic>(
    val: spec_fn(Single) -> real,
    rgba: Seq<u8>,
    w: int,
    h: int,
    p: Params,
)
    requires
        is_orderly::<A>(val),
        finding::<A>(rgba, w, h, p).found,
        w <= WHOLE_LIMIT,
        h <= WHOLE_LIMIT,
    ensures
        are_moderate(val, finding::<A>(rgba, w, h, p).corners),
{
    let c: Seq<Point> = finding::<A>(rgba, w, h, p).corners;
    let map: Seq<bool> = outline_map::<A>(rgba, w, h, p.strong_frac);
    found_corners_are_edge_points::<A>(rgba, w, h, p);
    findings_are_consistent::<A>(rgba, w, h, p);
    assert(0 <= w * h) by (nonlinear_arith)
        requires
            16 <= w,
            16 <= h,
    ;
    assert forall|i: int| 0 <= i < 4 implies is_within(val, (#[trigger] c[i]).0, 24) && is_within(
        val,
        c[i].1,
        24,
    ) by {
        assert(is_edge_point::<A>(map, w, c[i]));
        lemma_edge_point_is_moderate::<A>(val, map, w, h, c[i]);
    }
}

/// What is found in a frame of up to 2^24 columns and rows is measured in
/// numbers: the confidence lies from 0 to 1, and the part of the frame that the
/// corners cover lies from the lower limit of the area to the upper one.
pub proof fn found_measures_are_numbers<A: Arithmetic>(
    val: spec_fn(Single) -> real,
    rgba: Seq<u8>,
    w: int,
    h: int,
    p: Params,
)
    requires
        is_orderly::<A>(val),
        finding::<A>(rgba, w, h, p).found,
        w <= WHOLE_LIMIT,
        h <= WHOLE_LIMIT,
        w * h <= usize::MAX,
        !p.min_area_frac.is_nan(),
        !p.max_area_frac.is_nan(),
    ensures
        ({
            let f = finding::<A>(rgba, w, h, p);
            let part = coverage::<A>(f.corners, w, h);
            &&& !f.confidence.is_nan()
            &&& Single::of(ZERO).at_most(f.confidence)
            &&& f.confidence.at_most(Single::of(ONE))
            &&& !part.is_nan()
            &&& p.min_area_frac.at_most(part)
            &&& part.at_most(p.max_area_frac)
        }),
{
    let c: Seq<Point> = finding::<A>(rgba, w, h, p).corners;
    lemma_found_corners_are_moderate::<A>(val, rgba, w, h, p);
    confidence_is_a_number::<A>(val, c);
    assert(1 <= w * h) by (nonlinear_arith)
        requires
            16 <= w,
            16 <= h,
    ;
    coverage_is_a_number::<A>(val, c, w, h);
    found_area_is_within_limits::<A>(rgba, w, h, p);
}

} // verus!
