//! Area and order of corners with whole coordinates.
//!
//! A valuation says which real number a bit pattern stands for. On whole numbers
//! of moderate size binary32 arithmetic does not round; that is the condition
//! under which the laws here are stated.

use crate::number::{Arithmetic, Single, INFINITY, NEG_INFINITY, ZERO};
use crate::polygon::Point;
use crate::quad::{
    all_finite, area, differences, extremes, extremes_are_unique, extremes_ignore_order,
    lemma_strictly_greatest, lemma_strictly_least, shoelace, shoelace_sum, sums, turned, HALF,
};
use vstd::prelude::*;

verus! {

/// The largest size up to which binary32 holds every whole number.
pub const WHOLE_LIMIT: u32 = 0x0100_0000;

/// The largest size of a coordinate for which an area is computed on whole
/// numbers only.
pub const COORDINATE_LIMIT: u32 = 1000;

/// The pattern is finite and stands for `x`.
pub open spec fn stands_for(val: spec_fn(Single) -> real, a: Single, x: real) -> bool {
    a.abs().less(Single::of(INFINITY)) && val(a) == x
}

/// The pattern stands for the whole number `n`.
pub open spec fn is_whole(val: spec_fn(Single) -> real, a: Single, n: int) -> bool {
    stands_for(val, a, n as real)
}

/// The size of a whole number is within a limit.
pub open spec fn within(n: int, limit: int) -> bool {
    -limit <= n <= limit
}

/// The size of a real number.
pub open spec fn size(x: real) -> real {
    if x < 0real {
        -x
    } else {
        x
    }
}

/// Zero stands for 0, the sign makes no difference to the size, and finite
/// patterns are in the order of the numbers that they stand for.
#[verifier::opaque]
pub open spec fn is_valuation(val: spec_fn(Single) -> real) -> bool {
    &&& is_whole(val, Single::of(ZERO), 0)
    &&& forall|a: Single, x: real|
        #![trigger stands_for(val, a, x), size(x)]
        stands_for(val, a, x) ==> stands_for(val, a.abs(), size(x))
    &&& forall|a: Single, b: Single, x: real, y: real|
        #![trigger stands_for(val, a, x), stands_for(val, b, y)]
        stands_for(val, a, x) && stands_for(val, b, y) ==> (a.less(b) <==> x < y)
}

/// The arithmetic does not round where it adds, subtracts and multiplies whole
/// numbers with a whole result up to the limit, nor where it halves one.
#[verifier::opaque]
pub open spec fn counts_exactly<A: Arithmetic>(val: spec_fn(Single) -> real) -> bool {
    let limit = WHOLE_LIMIT as int;
    &&& forall|a: Single, b: Single, m: int, n: int|
        #![trigger is_whole(val, a, m), is_whole(val, b, n), A::sum_of(a, b)]
        is_whole(val, a, m) && is_whole(val, b, n) && within(m, limit) && within(n, limit) && within(
            m + n,
            limit,
        ) ==> is_whole(val, A::sum_of(a, b), m + n)
    &&& forall|a: Single, b: Single, m: int, n: int|
        #![trigger is_whole(val, a, m), is_whole(val, b, n), A::diff_of(a, b)]
        is_whole(val, a, m) && is_whole(val, b, n) && within(m, limit) && within(n, limit) && within(
            m - n,
            limit,
        ) ==> is_whole(val, A::diff_of(a, b), m - n)
    &&& forall|a: Single, b: Single, m: int, n: int|
        #![trigger is_whole(val, a, m), is_whole(val, b, n), A::prod_of(a, b)]
        is_whole(val, a, m) && is_whole(val, b, n) && within(m, limit) && within(n, limit) && within(
            m * n,
            limit,
        ) ==> is_whole(val, A::prod_of(a, b), m * n)
    &&& forall|a: Single, m: int| #[trigger]
        is_whole(val, a, m) && within(m, limit) ==> stands_for(
            val,
            A::prod_of(a, Single::of(HALF)),
            m as real / 2real,
        )
}

/// The corners have the whole coordinates `at`, of moderate size.
pub open spec fn stand_at(
    val: spec_fn(Single) -> real,
    c: Seq<Point>,
    at: Seq<(int, int)>,
) -> bool {
    let limit = COORDINATE_LIMIT as int;
    &&& c.len() == 4
    &&& at.len() == 4
    &&& forall|i: int|
        0 <= i < 4 ==> is_whole(val, (#[trigger] c[i]).0, at[i].0) && is_whole(
            val,
            c[i].1,
            at[i].1,
        ) && within(at[i].0, limit) && within(at[i].1, limit)
}

/// `x1 y2 - x2 y1`.
pub open spec fn cross_of(p: (int, int), q: (int, int)) -> int {
    p.0 * q.1 - q.0 * p.1
}

/// Twice the signed area.
pub open spec fn double_area(at: Seq<(int, int)>) -> int {
    cross_of(at[0], at[1]) + cross_of(at[1], at[2]) + cross_of(at[2], at[3]) + cross_of(
        at[3],
        at[0],
    )
}

proof fn lemma_small_product(a: int, b: int)
    requires
        within(a, 1000),
        within(b, 1000),
    ensures
        within(a * b, 1_000_000),
{
    assert(-1_000_000 <= a * b <= 1_000_000) by (nonlinear_arith)
        requires
            -1000 <= a <= 1000,
            -1000 <= b <= 1000,
    ;
}

/// The sum, the difference and the product of two whole numbers.
proof fn lemma_operations<A: Arithmetic>(
    val: spec_fn(Single) -> real,
    a: Single,
    b: Single,
    m: int,
    n: int,
)
    requires
        counts_exactly::<A>(val),
        is_whole(val, a, m),
        is_whole(val, b, n),
        within(m, WHOLE_LIMIT as int),
        within(n, WHOLE_LIMIT as int),
    ensures
        within(m + n, WHOLE_LIMIT as int) ==> is_whole(val, A::sum_of(a, b), m + n),
        within(m - n, WHOLE_LIMIT as int) ==> is_whole(val, A::diff_of(a, b), m - n),
        within(m * n, WHOLE_LIMIT as int) ==> is_whole(val, A::prod_of(a, b), m * n),
{
    reveal(counts_exactly);
    assert(is_whole(val, a, m) && is_whole(val, b, n));
}

/// The size of half a whole number.
proof fn lemma_half_size<A: Arithmetic>(val: spec_fn(Single) -> real, a: Single, m: int)
    requires
        is_valuation(val),
        counts_exactly::<A>(val),
        is_whole(val, a, m),
        within(m, WHOLE_LIMIT as int),
    ensures
        stands_for(val, A::prod_of(a, Single::of(HALF)).abs(), size(m as real / 2real)),
{
    let half: Single = A::prod_of(a, Single::of(HALF));
    assert(stands_for(val, half, m as real / 2real)) by {
        reveal(counts_exactly);
        assert(is_whole(val, a, m));
    }
    assert(stands_for(val, half.abs(), size(m as real / 2real))) by {
        reveal(is_valuation);
    }
}

/// One side of the sum is computed exactly.
proof fn lemma_side<A: Arithmetic>(
    val: spec_fn(Single) -> real,
    c: Seq<Point>,
    at: Seq<(int, int)>,
    i: int,
)
    requires
        counts_exactly::<A>(val),
        stand_at(val, c, at),
        0 <= i < 4,
    ensures
        is_whole(val, shoelace::<A>(c, i), cross_of(at[i], at[(i + 1) % 4])),
        within(cross_of(at[i], at[(i + 1) % 4]), 2_000_000),
{
    let j: int = (i + 1) % 4;
    let (p, q) = (c[i], c[j]);
    let (x1, y1, x2, y2) = (at[i].0, at[i].1, at[j].0, at[j].1);
    lemma_small_product(x1, y2);
    lemma_small_product(x2, y1);
    assert(is_whole(val, p.0, x1) && is_whole(val, q.1, y2));
    assert(is_whole(val, q.0, x2) && is_whole(val, p.1, y1));
    lemma_operations::<A>(val, p.0, q.1, x1, y2);
    lemma_operations::<A>(val, q.0, p.1, x2, y1);
    lemma_operations::<A>(val, A::prod_of(p.0, q.1), A::prod_of(q.0, p.1), x1 * y2, x2 * y1);
}

/// The area of corners with whole coordinates is half the sum over the sides.
pub proof fn area_of_whole_corners<A: Arithmetic>(
    val: spec_fn(Single) -> real,
    c: Seq<Point>,
    at: Seq<(int, int)>,
)
    requires
        is_valuation(val),
        counts_exactly::<A>(val),
        stand_at(val, c, at),
    ensures
        stands_for(val, area::<A>(c), size(double_area(at) as real / 2real)),
{
    lemma_side::<A>(val, c, at, 0);
    lemma_side::<A>(val, c, at, 1);
    lemma_side::<A>(val, c, at, 2);
    lemma_side::<A>(val, c, at, 3);
    let (a, b) = (cross_of(at[0], at[1]), cross_of(at[1], at[2]));
    let (e, f) = (cross_of(at[2], at[3]), cross_of(at[3], at[0]));
    reveal_with_fuel(shoelace_sum, 5);
    assert(is_whole(val, Single::of(ZERO), 0)) by {
        reveal(is_valuation);
    }
    lemma_operations::<A>(val, shoelace_sum::<A>(c, 0), shoelace::<A>(c, 0), 0, a);
    lemma_operations::<A>(val, shoelace_sum::<A>(c, 1), shoelace::<A>(c, 1), a, b);
    lemma_operations::<A>(val, shoelace_sum::<A>(c, 2), shoelace::<A>(c, 2), a + b, e);
    lemma_operations::<A>(val, shoelace_sum::<A>(c, 3), shoelace::<A>(c, 3), a + b + e, f);
    lemma_half_size::<A>(val, shoelace_sum::<A>(c, 4), a + b + e + f);
}

/// The corners in reverse order.
pub open spec fn reversed(c: Seq<Point>) -> Seq<Point> {
    seq![c[3], c[2], c[1], c[0]]
}

/// Patterns without a sign that are equal as numbers are the same.
proof fn lemma_same_area<A: Arithmetic>(
    val: spec_fn(Single) -> real,
    c: Seq<Point>,
    d: Seq<Point>,
    x: real,
)
    requires
        is_valuation(val),
        stands_for(val, area::<A>(c), x),
        stands_for(val, area::<A>(d), x),
    ensures
        area::<A>(c) == area::<A>(d),
{
    let (a, b) = (area::<A>(c), area::<A>(d));
    assert(!a.less(b) && !b.less(a)) by {
        reveal(is_valuation);
    }
}

/// The area does not depend on the corner from which the corners are counted.
pub proof fn turning_keeps_the_area<A: Arithmetic>(
    val: spec_fn(Single) -> real,
    c: Seq<Point>,
    at: Seq<(int, int)>,
)
    requires
        is_valuation(val),
        counts_exactly::<A>(val),
        stand_at(val, c, at),
    ensures
        area::<A>(turned(c)) == area::<A>(c),
{
    let other: Seq<(int, int)> = seq![at[1], at[2], at[3], at[0]];
    assert(stand_at(val, turned(c), other)) by {
        assert(is_whole(val, c[0].0, at[0].0) && is_whole(val, c[1].0, at[1].0));
        assert(is_whole(val, c[2].0, at[2].0) && is_whole(val, c[3].0, at[3].0));
    }
    area_of_whole_corners::<A>(val, c, at);
    area_of_whole_corners::<A>(val, turned(c), other);
    assert(double_area(other) == double_area(at));
    lemma_same_area::<A>(val, turned(c), c, size(double_area(at) as real / 2real));
}

/// The area does not depend on the sense in which the corners are counted.
pub proof fn reversing_keeps_the_area<A: Arithmetic>(
    val: spec_fn(Single) -> real,
    c: Seq<Point>,
    at: Seq<(int, int)>,
)
    requires
        is_valuation(val),
        counts_exactly::<A>(val),
        stand_at(val, c, at),
    ensures
        area::<A>(reversed(c)) == area::<A>(c),
{
    let other: Seq<(int, int)> = seq![at[3], at[2], at[1], at[0]];
    assert(stand_at(val, reversed(c), other)) by {
        assert(is_whole(val, c[0].0, at[0].0) && is_whole(val, c[1].0, at[1].0));
        assert(is_whole(val, c[2].0, at[2].0) && is_whole(val, c[3].0, at[3].0));
    }
    area_of_whole_corners::<A>(val, c, at);
    area_of_whole_corners::<A>(val, reversed(c), other);
    assert(double_area(other) == -double_area(at));
    let n: int = double_area(at);
    assert((-n) as real / 2real == -(n as real / 2real));
    lemma_same_area::<A>(val, reversed(c), c, size(n as real / 2real));
}

/// The area of an upright rectangle is the product of its sides.
pub proof fn area_of_a_rectangle<A: Arithmetic>(
    val: spec_fn(Single) -> real,
    c: Seq<Point>,
    x: int,
    y: int,
    a: int,
    b: int,
)
    requires
        is_valuation(val),
        counts_exactly::<A>(val),
        0 <= a,
        0 <= b,
        stand_at(val, c, seq![(x, y), (x + a, y), (x + a, y + b), (x, y + b)]),
    ensures
        is_whole(val, area::<A>(c), a * b),
{
    let at: Seq<(int, int)> = seq![(x, y), (x + a, y), (x + a, y + b), (x, y + b)];
    area_of_whole_corners::<A>(val, c, at);
    assert((x * y - (x + a) * y) + ((x + a) * (y + b) - (x + a) * y) + ((x + a) * (y + b) - x * (y
        + b)) + (x * y - x * (y + b)) == 2 * (a * b)) by (nonlinear_arith);
    assert(0 <= a * b) by (nonlinear_arith)
        requires
            0 <= a,
            0 <= b,
    ;
    assert(double_area(at) == 2 * (a * b));
    assert(double_area(at) as real / 2real == (a * b) as real);
}

/// Whole numbers are in order as their patterns are.
proof fn lemma_whole_order(val: spec_fn(Single) -> real, a: Single, b: Single, m: int, n: int)
    requires
        is_valuation(val),
        is_whole(val, a, m),
        is_whole(val, b, n),
    ensures
        a.less(b) <==> m < n,
        a.less(Single::of(INFINITY)),
        Single::of(NEG_INFINITY).less(a),
{
    assert(a.less(b) <==> (m as real) < (n as real)) by {
        reveal(is_valuation);
        assert(stands_for(val, a, m as real) && stands_for(val, b, n as real));
    }
}

/// The places of the extremes of an upright rectangle.
proof fn lemma_rectangle_extremes<A: Arithmetic>(
    val: spec_fn(Single) -> real,
    c: Seq<Point>,
    x: int,
    y: int,
    a: int,
    b: int,
)
    requires
        is_valuation(val),
        counts_exactly::<A>(val),
        0 < a,
        0 < b,
        stand_at(val, c, seq![(x, y), (x + a, y), (x + a, y + b), (x, y + b)]),
    ensures
        all_finite::<A>(c),
        extremes::<A>(c) == c,
        extremes_are_unique::<A>(c),
{
    let at: Seq<(int, int)> = seq![(x, y), (x + a, y), (x + a, y + b), (x, y + b)];
    let (s, d) = (sums::<A>(c), differences::<A>(c));
    assert forall|i: int| 0 <= i < 4 implies is_whole(val, #[trigger] s[i], at[i].0 + at[i].1)
        && is_whole(val, d[i], at[i].0 - at[i].1) by {
        assert(is_whole(val, c[i].0, at[i].0));
        lemma_operations::<A>(val, c[i].0, c[i].1, at[i].0, at[i].1);
    }
    assert forall|i: int, j: int| 0 <= i < 4 && 0 <= j < 4 implies ((#[trigger] s[i]).less(
        #[trigger] s[j],
    ) <==> at[i].0 + at[i].1 < at[j].0 + at[j].1) by {
        lemma_whole_order(val, s[i], s[j], at[i].0 + at[i].1, at[j].0 + at[j].1);
    }
    assert forall|i: int, j: int| 0 <= i < 4 && 0 <= j < 4 implies ((#[trigger] d[i]).less(
        #[trigger] d[j],
    ) <==> at[i].0 - at[i].1 < at[j].0 - at[j].1) by {
        assert(is_whole(val, s[i], at[i].0 + at[i].1) && is_whole(val, s[j], at[j].0 + at[j].1));
        lemma_whole_order(val, d[i], d[j], at[i].0 - at[i].1, at[j].0 - at[j].1);
    }
    assert forall|i: int| 0 <= i < 4 implies (#[trigger] s[i]).less(Single::of(INFINITY))
        && Single::of(NEG_INFINITY).less(s[i]) by {
        lemma_whole_order(val, s[i], s[i], at[i].0 + at[i].1, at[i].0 + at[i].1);
    }
    assert forall|i: int| 0 <= i < 4 implies (#[trigger] d[i]).less(Single::of(INFINITY))
        && Single::of(NEG_INFINITY).less(d[i]) by {
        assert(is_whole(val, s[i], at[i].0 + at[i].1));
        lemma_whole_order(val, d[i], d[i], at[i].0 - at[i].1, at[i].0 - at[i].1);
    }
    assert(at[0] == (x, y) && at[1] == (x + a, y) && at[2] == (x + a, y + b) && at[3] == (x, y + b));
    assert(s[0].less(s[1]) && s[0].less(s[2]) && s[0].less(s[3]));
    assert(s[1].less(s[2]) && s[3].less(s[2]));
    assert(d[0].less(d[1]) && d[2].less(d[1]) && d[3].less(d[1]));
    assert(d[3].less(d[0]) && d[3].less(d[2]));
    lemma_strictly_least(s, 0);
    lemma_strictly_greatest(d, 1);
    lemma_strictly_greatest(s, 2);
    lemma_strictly_least(d, 3);
    assert(extremes::<A>(c) =~= c);
    assert forall|p: Point| #[trigger] c.contains(p) implies {
        let (u, v) = (A::sum_of(p.0, p.1), A::diff_of(p.0, p.1));
        &&& u.equals(s[0]) ==> p == c[0]
        &&& v.equals(d[1]) ==> p == c[1]
        &&& u.equals(s[2]) ==> p == c[2]
        &&& v.equals(d[3]) ==> p == c[3]
    } by {
        let i: int = choose|i: int| 0 <= i < 4 && c[i] == p;
        assert(A::sum_of(p.0, p.1) == s[i] && A::diff_of(p.0, p.1) == d[i]);
        assert(i == 0 || i == 1 || i == 2 || i == 3);
    }
}

/// The corners of an upright rectangle are ordered top left, top right, bottom
/// right, bottom left, in whatever order they come.
pub proof fn rectangle_corners_are_ordered<A: Arithmetic>(
    val: spec_fn(Single) -> real,
    c: Seq<Point>,
    q: Seq<Point>,
    x: int,
    y: int,
    a: int,
    b: int,
)
    requires
        is_valuation(val),
        counts_exactly::<A>(val),
        0 < a,
        0 < b,
        stand_at(val, c, seq![(x, y), (x + a, y), (x + a, y + b), (x, y + b)]),
        forall|p: Point| #[trigger] c.contains(p) <==> q.contains(p),
    ensures
        extremes::<A>(q) == c,
{
    lemma_rectangle_extremes::<A>(val, c, x, y, a, b);
    extremes_ignore_order::<A>(c, q);
}

} // verus!
