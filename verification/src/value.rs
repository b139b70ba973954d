//! The real numbers that binary32 patterns stand for, and how close a computed
//! result is to the exact one.
//!
//! The laws that speak of real numbers are stated for an arithmetic that rounds
//! closely: a result differs from the exact one by a small part of it at most.
//! That of IEEE 754 does.

use crate::number::{Arithmetic, Single, ONE, ZERO};
use crate::range::{is_finite, knows_powers, power};
use crate::whole::{is_valuation, is_whole, size, stands_for};
use vstd::prelude::*;

verus! {

/// The power of two with exponent `k`.
pub open spec fn scale(k: int) -> real
    decreases
            if k < 0 {
                -k
            } else {
                k
            },
{
    if k == 0 {
        1real
    } else if k > 0 {
        2real * scale(k - 1)
    } else {
        scale(k + 1) / 2real
    }
}

/// The number for which a pattern without sign stands: an exponent and a
/// fraction of 23 bits with a leading one, which is missing where the exponent is
/// least.
pub open spec fn unsigned_value(m: int) -> real {
    let e = m / 0x0080_0000;
    let f = m % 0x0080_0000;
    if e == 0 {
        f as real * scale(-149)
    } else {
        (0x0080_0000 + f) as real * scale(e - 150)
    }
}

/// The number for which a pattern stands.
pub open spec fn value(a: Single) -> real {
    if a.bits < 0x8000_0000 {
        unsigned_value(a.magnitude())
    } else {
        -unsigned_value(a.magnitude())
    }
}

/// [`value`] as a valuation.
pub open spec fn values() -> spec_fn(Single) -> real {
    |a: Single| value(a)
}

/// The next power is twice the one before it.
pub proof fn lemma_scale_step(k: int)
    ensures
        scale(k + 1) == 2real * scale(k),
        scale(k) > 0real,
    decreases
            if k < 0 {
                -k
            } else {
                k
            },
{
    if k > 0 {
        lemma_scale_step(k - 1);
    } else if k < 0 {
        lemma_scale_step(k + 1);
    }
}

pub proof fn lemma_scale_monotone(j: int, k: int)
    requires
        j <= k,
    ensures
        0real < scale(j) <= scale(k),
    decreases k - j,
{
    lemma_scale_step(j);
    if j < k {
        lemma_scale_monotone(j, k - 1);
        lemma_scale_step(k - 1);
    }
}

/// Powers are multiplied by adding their exponents.
pub proof fn lemma_scale_sum(j: int, k: int)
    ensures
        scale(j) * scale(k) == scale(j + k),
    decreases
            if k < 0 {
                -k
            } else {
                k
            },
{
    let a = scale(j);
    if k == 0 {
        assert(a * 1real == a) by (nonlinear_arith);
    } else if k > 0 {
        lemma_scale_sum(j, k - 1);
        lemma_scale_step(j + k - 1);
        let b = scale(k - 1);
        assert(a * (2real * b) == 2real * (a * b)) by (nonlinear_arith);
    } else {
        lemma_scale_sum(j, k + 1);
        lemma_scale_step(j + k);
        let b = scale(k + 1);
        assert(a * (b / 2real) == (a * b) / 2real) by (nonlinear_arith);
    }
}

/// Some powers by their numbers.
pub proof fn lemma_scale_numbers()
    ensures
        scale(0) == 1real,
        scale(4) == 16real,
        scale(8) == 256real,
        scale(23) == 8388608real,
        scale(24) == 16777216real,
        scale(-24) * 16777216real == 1real,
        scale(-2) * 4real == 1real,
        scale(-22) * 4194304real == 1real,
        scale(-23) * 8388608real == 1real,
        scale(-25) * 33554432real == 1real,
        scale(-26) * 67108864real == 1real,
        scale(-27) * 134217728real == 1real,
        scale(-33) * 8589934592real == 1real,
        0real < scale(-149) <= scale(-60),
        scale(-60) * 1073741824real <= scale(-30),
        scale(-30) * 1073741824real == 1real,
{
    reveal_with_fuel(scale, 35);
    lemma_scale_monotone(-149, -60);
    lemma_scale_sum(-60, 30);
    lemma_scale_sum(-30, 30);
}

/// A pattern without sign that is higher stands for a larger number.
proof fn lemma_unsigned_order(m: int, n: int)
    requires
        0 <= m < n,
    ensures
        0real <= unsigned_value(m) < unsigned_value(n),
{
    let (e, f) = (m / 0x0080_0000, m % 0x0080_0000);
    let (g, h) = (n / 0x0080_0000, n % 0x0080_0000);
    let x = if e == 0 {
        f
    } else {
        0x0080_0000 + f
    };
    let y = if g == 0 {
        h
    } else {
        0x0080_0000 + h
    };
    let j = if e == 0 {
        -149
    } else {
        e - 150
    };
    let k = if g == 0 {
        -149
    } else {
        g - 150
    };
    let (s, t) = (scale(j), scale(k));
    lemma_scale_step(j);
    lemma_scale_step(k);
    assert(unsigned_value(m) == x as real * s);
    assert(unsigned_value(n) == y as real * t);
    assert(0real <= x as real * s) by (nonlinear_arith)
        requires
            x >= 0,
            s > 0real,
    ;
    if j == k {
        assert(x < y);
        assert(x as real * s < y as real * s) by (nonlinear_arith)
            requires
                (x as real) < (y as real),
                s > 0real,
        ;
    } else {
        assert(j < k);
        lemma_scale_monotone(j + 1, k);
        let (u, v) = (x as real, y as real);
        assert(u < 16777216real && v >= 8388608real);
        assert(u * s < 16777216real * s) by (nonlinear_arith)
            requires
                u < 16777216real,
                s > 0real,
        ;
        assert(v * t >= 8388608real * t) by (nonlinear_arith)
            requires
                v >= 8388608real,
                t > 0real,
        ;
    }
}

proof fn lemma_unsigned_zero()
    ensures
        unsigned_value(0) == 0real,
{
    let s = scale(-149);
    assert(0real * s == 0real) by (nonlinear_arith);
    assert(0int as real == 0real);
}

/// Numbers are in the order of their patterns, also where one is infinite.
pub proof fn values_are_ordered(a: Single, b: Single)
    requires
        !a.is_nan(),
        !b.is_nan(),
    ensures
        a.less(b) <==> value(a) < value(b),
        a.at_most(b) <==> value(a) <= value(b),
        a.equals(b) <==> value(a) == value(b),
{
    let (m, n) = (a.magnitude(), b.magnitude());
    lemma_unsigned_zero();
    if m < n {
        lemma_unsigned_order(m, n);
    }
    if n < m {
        lemma_unsigned_order(n, m);
    }
    if 0 < m {
        lemma_unsigned_order(0, m);
    }
    if 0 < n {
        lemma_unsigned_order(0, n);
    }
}

/// The number without its sign.
pub proof fn lemma_value_abs(a: Single)
    ensures
        value(a.abs()) == size(value(a)),
{
    let m: int = a.magnitude();
    lemma_unsigned_zero();
    if 0 < m {
        lemma_unsigned_order(0, m);
    }
    assert(a.abs().magnitude() == m);
}

/// The number of a pattern with a given exponent and fraction.
pub proof fn lemma_value_of(bits: u32, e: int, f: int)
    requires
        bits == e * 0x0080_0000 + f,
        0 <= f < 0x0080_0000,
        1 <= e <= 254,
    ensures
        value(Single::of(bits)) == (0x0080_0000 + f) as real * scale(e - 150),
        is_finite(Single::of(bits)),
{
    assert(bits as int / 0x0080_0000 == e && bits as int % 0x0080_0000 == f);
}

/// The number of a pattern as a fraction.
pub proof fn lemma_value_ratio(bits: u32, e: int, f: int, n: real)
    requires
        bits == e * 0x0080_0000 + f,
        0 <= f < 0x0080_0000,
        1 <= e <= 254,
        scale(e - 150) * n == 1real,
    ensures
        value(Single::of(bits)) * n == (0x0080_0000 + f) as real,
        is_finite(Single::of(bits)),
{
    lemma_value_of(bits, e, f);
    let (x, s) = ((0x0080_0000 + f) as real, scale(e - 150));
    assert((x * s) * n == x * (s * n)) by (nonlinear_arith);
    assert(x * 1real == x) by (nonlinear_arith);
}

pub proof fn lemma_value_units()
    ensures
        value(Single::of(ZERO)) == 0real,
        value(Single::of(ONE)) == 1real,
        is_finite(Single::of(ZERO)),
        is_finite(Single::of(ONE)),
{
    lemma_value_of(ONE, 127, 0);
    lemma_scale_numbers();
    lemma_unsigned_zero();
    assert(ONE as int / 0x0080_0000 == 127);
    let s = scale(-23);
    assert(8388608real * s == s * 8388608real) by (nonlinear_arith);
}

/// The numbers for which binary32 patterns stand are a valuation that knows the
/// powers of two, as the laws on whole numbers and on ranges ask for.
pub proof fn values_are_a_valuation()
    ensures
        is_valuation(values()),
        knows_powers(values()),
{
    let val = values();
    assert(is_valuation(val)) by {
        reveal(is_valuation);
        lemma_value_units();
        assert(is_whole(val, Single::of(ZERO), 0));
        assert forall|a: Single, x: real|
            #![trigger stands_for(val, a, x), size(x)]
            stands_for(val, a, x) implies stands_for(val, a.abs(), size(x)) by {
            lemma_value_abs(a);
        }
        assert forall|a: Single, b: Single, x: real, y: real|
            #![trigger stands_for(val, a, x), stands_for(val, b, y)]
            stands_for(val, a, x) && stands_for(val, b, y) implies (a.less(b) <==> x < y) by {
            values_are_ordered(a, b);
        }
    }
    assert(knows_powers(val)) by {
        reveal(knows_powers);
        lemma_value_units();
        assert forall|k: int| -126 <= k < 127 implies val(power(k + 1)) == 2real * val(
            #[trigger] power(k),
        ) by {
            lemma_value_of(((127 + k) * 0x0080_0000) as u32, 127 + k, 0);
            lemma_value_of(((127 + (k + 1)) * 0x0080_0000) as u32, 127 + (k + 1), 0);
            lemma_scale_step(k - 23);
            let s = scale(k - 23);
            assert(8388608real * (2real * s) == 2real * (8388608real * s)) by (nonlinear_arith);
        }
    }
}

/// How far a rounded result may be from the exact one.
pub open spec fn rounding(x: real) -> real {
    size(x) * scale(-24) + scale(-149)
}

/// `r` is a finite number that is as close to `x` as rounding brings it, and not of
/// the opposite sign.
pub open spec fn is_rounded(r: Single, x: real) -> bool {
    &&& is_finite(r)
    &&& x - rounding(x) <= value(r) && value(r) <= x + rounding(x)
    &&& x >= 0real ==> value(r) >= 0real
    &&& x <= 0real ==> value(r) <= 0real
}

/// Results are rounded closely: on finite numbers each operation gives a number
/// that is as close to the exact result as rounding brings it, unless that is
/// very large.
#[verifier::opaque]
pub open spec fn rounds_closely<A: Arithmetic>() -> bool {
    &&& forall|a: Single, b: Single|
        is_finite(a) && is_finite(b) && size(value(a) + value(b)) <= scale(100) ==> is_rounded(
            #[trigger] A::sum_of(a, b),
            value(a) + value(b),
        )
    &&& forall|a: Single, b: Single|
        is_finite(a) && is_finite(b) && size(value(a) - value(b)) <= scale(100) ==> is_rounded(
            #[trigger] A::diff_of(a, b),
            value(a) - value(b),
        )
    &&& forall|a: Single, b: Single|
        is_finite(a) && is_finite(b) && size(value(a) * value(b)) <= scale(100) ==> is_rounded(
            #[trigger] A::prod_of(a, b),
            value(a) * value(b),
        )
    &&& forall|a: Single, b: Single|
        is_finite(a) && is_finite(b) && value(b) != 0real && size(value(a) / value(b)) <= scale(100)
            ==> is_rounded(#[trigger] A::quot_of(a, b), value(a) / value(b))
    &&& forall|a: Single|
        is_finite(a) && 0real <= value(a) <= scale(100) ==> is_root(
            #[trigger] A::sqrt_of(a),
            value(a),
        )
}

/// `r` is a finite number from 0 on whose square is as close to `x` as rounding of
/// the root brings it.
pub open spec fn is_root(r: Single, x: real) -> bool {
    let e = x * scale(-22) + scale(-140);
    is_finite(r) && 0real <= value(r) && x - e <= value(r) * value(r) && value(r) * value(r) <= x + e
}

/// Conversions and roundings to whole numbers are exact: counts up to 2^24 are
/// converted as they are, the floor is the next whole number below, rounding goes
/// to a nearest whole number, and a number is converted to the count at or next
/// below it.
#[verifier::opaque]
pub open spec fn converts_exactly<A: Arithmetic>() -> bool {
    &&& forall|n: usize|
        n <= 0x0100_0000 ==> is_finite(#[trigger] A::from_usize_of(n)) && value(
            A::from_usize_of(n),
        ) == n as real
    &&& forall|a: Single|
        is_finite(a) ==> is_finite(#[trigger] A::floor_of(a)) && exists|n: int|
            value(A::floor_of(a)) == n as real && #[trigger] is_floor(value(a), n)
    &&& forall|a: Single|
        is_finite(a) ==> is_finite(#[trigger] A::round_of(a)) && exists|n: int|
            value(A::round_of(a)) == n as real && #[trigger] is_nearest(value(a), n)
    &&& forall|a: Single, n: usize|
        is_finite(a) && is_floor(value(a), n as int) && n <= 0x0100_0000
            ==> #[trigger] to_usize_is::<A>(a, n)
    &&& forall|a: Single, n: u8|
        is_finite(a) && value(a) == n as real ==> #[trigger] to_u8_is::<A>(a, n)
}

/// Counts of any size are rounded closely where they become numbers, and a number is
/// converted to the count at or next below it.
#[verifier::opaque]
pub open spec fn converts_closely<A: Arithmetic>() -> bool {
    &&& forall|n: usize| is_rounded(#[trigger] A::from_usize_of(n), n as real)
    &&& forall|a: Single, n: usize|
        is_finite(a) && is_floor(value(a), n as int) ==> #[trigger] to_usize_is::<A>(a, n)
}

/// `n` is the whole number at or next below `x`.
pub open spec fn is_floor(x: real, n: int) -> bool {
    n as real <= x && x < n as real + 1real
}

/// `n` is a whole number nearest to `x`.
pub open spec fn is_nearest(x: real, n: int) -> bool {
    2real * x - 1real <= 2real * (n as real) && 2real * (n as real) <= 2real * x + 1real
}

/// The pattern is converted to the count `n`.
pub open spec fn to_usize_is<A: Arithmetic>(a: Single, n: usize) -> bool {
    A::to_usize_of(a) == n
}

/// The pattern is converted to the byte `n`.
pub open spec fn to_u8_is<A: Arithmetic>(a: Single, n: u8) -> bool {
    A::to_u8_of(a) == n
}

/// A finite number is within `e` of `x`.
pub open spec fn is_near(r: Single, x: real, e: real) -> bool {
    is_finite(r) && x - e <= value(r) && value(r) <= x + e
}

/// The error of rounding a bounded number.
pub proof fn lemma_rounding_bound(x: real, m: real)
    requires
        size(x) <= m,
        m >= 1real,
    ensures
        rounding(x) <= m * scale(-23),
        0real <= rounding(x),
{
    lemma_scale_numbers();
    lemma_scale_step(-24);
    let (s, u) = (size(x), scale(-24));
    lemma_scale_monotone(-149, -24);
    assert(0real <= s * u && s * u <= m * u) by (nonlinear_arith)
        requires
            0real <= s <= m,
            u > 0real,
    ;
    assert(u <= m * u) by (nonlinear_arith)
        requires
            m >= 1real,
            u > 0real,
    ;
    assert(m * (2real * u) == m * u + m * u) by (nonlinear_arith);
}

/// A sum of near numbers.
pub proof fn lemma_near_sum<A: Arithmetic>(
    a: Single,
    b: Single,
    x: real,
    y: real,
    d: real,
    e: real,
    m: real,
)
    requires
        rounds_closely::<A>(),
        is_near(a, x, d),
        is_near(b, y, e),
        1real <= m <= scale(100),
        size(value(a) + value(b)) <= m,
    ensures
        is_near(A::sum_of(a, b), x + y, d + e + m * scale(-23)),
{
    reveal(rounds_closely);
    assert(is_rounded(A::sum_of(a, b), value(a) + value(b)));
    lemma_rounding_bound(value(a) + value(b), m);
}

/// A difference of near numbers.
pub proof fn lemma_near_diff<A: Arithmetic>(
    a: Single,
    b: Single,
    x: real,
    y: real,
    d: real,
    e: real,
    m: real,
)
    requires
        rounds_closely::<A>(),
        is_near(a, x, d),
        is_near(b, y, e),
        1real <= m <= scale(100),
        size(value(a) - value(b)) <= m,
    ensures
        is_near(A::diff_of(a, b), x - y, d + e + m * scale(-23)),
{
    reveal(rounds_closely);
    assert(is_rounded(A::diff_of(a, b), value(a) - value(b)));
    lemma_rounding_bound(value(a) - value(b), m);
}

/// A part of a length.
pub proof fn lemma_part(t: real, u: real)
    requires
        0real <= t,
        0real <= u <= 1real,
    ensures
        0real <= t * u <= t,
{
    assert(0real <= t * u) by (nonlinear_arith)
        requires
            0real <= t,
            0real <= u,
    ;
    assert(t * (1real - u) >= 0real) by (nonlinear_arith)
        requires
            0real <= t,
            u <= 1real,
    ;
    assert(t * (1real - u) == t - t * u) by (nonlinear_arith);
}

/// The size of a product.
pub proof fn lemma_product_size(x: real, y: real, m: real, n: real)
    requires
        size(x) <= m,
        size(y) <= n,
    ensures
        size(x * y) <= m * n,
{
    let (a, b) = (size(x), size(y));
    assert(a * b <= m * n) by (nonlinear_arith)
        requires
            0real <= a <= m,
            0real <= b <= n,
    ;
    assert(0real <= a * b) by (nonlinear_arith)
        requires
            0real <= a,
            0real <= b,
    ;
    assert((-x) * y == -(x * y)) by (nonlinear_arith);
    assert(x * (-y) == -(x * y)) by (nonlinear_arith);
    assert((-x) * (-y) == x * y) by (nonlinear_arith);
}

/// How far a product of near numbers is off.
pub proof fn lemma_product_error(p: real, q: real, x: real, y: real, d: real, e: real, n: real, k: real)
    requires
        x - d <= p <= x + d,
        y - e <= q <= y + e,
        size(q) <= n,
        size(x) <= k,
        0real <= d,
        0real <= e,
    ensures
        x * y - (d * n + k * e) <= p * q <= x * y + (d * n + k * e),
{
    let (u, v) = (p - x, q - y);
    assert(p * q - x * y == u * q + x * v) by (nonlinear_arith)
        requires
            u == p - x,
            v == q - y,
    ;
    assert(-(d * n) <= u * q <= d * n) by (nonlinear_arith)
        requires
            -d <= u <= d,
            -n <= q <= n,
            0real <= d,
            0real <= n,
    ;
    assert(-(k * e) <= x * v <= k * e) by (nonlinear_arith)
        requires
            -k <= x <= k,
            -e <= v <= e,
            0real <= e,
            0real <= k,
    ;
}

/// A product of near numbers.
pub proof fn lemma_near_prod<A: Arithmetic>(
    a: Single,
    b: Single,
    x: real,
    y: real,
    d: real,
    e: real,
    n: real,
    k: real,
    m: real,
)
    requires
        rounds_closely::<A>(),
        is_near(a, x, d),
        is_near(b, y, e),
        size(value(b)) <= n,
        size(x) <= k,
        1real <= m <= scale(100),
        size(value(a) * value(b)) <= m,
        0real <= d,
        0real <= e,
    ensures
        is_near(A::prod_of(a, b), x * y, d * n + k * e + m * scale(-23)),
{
    reveal(rounds_closely);
    assert(is_rounded(A::prod_of(a, b), value(a) * value(b)));
    lemma_rounding_bound(value(a) * value(b), m);
    lemma_product_error(value(a), value(b), x, y, d, e, n, k);
}

/// Large limits for results.
pub proof fn lemma_large()
    ensures
        scale(100) >= 1048576real * 1048576real * 1048576real,
{
    reveal_with_fuel(scale, 21);
    lemma_scale_sum(20, 20);
    lemma_scale_sum(40, 20);
    lemma_scale_monotone(60, 100);
}

} // verus!
