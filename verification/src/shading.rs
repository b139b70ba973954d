//! What brightness, blur and gradients are, in real numbers.

use crate::edge::{
    canny_edges, direction, edges_of, gradients, heading, magnitudes, percentile, thinned, weighted,
    Gradient, HALF_TURN, LOW_PART, SECTOR_1, SECTOR_2, SECTOR_3, SECTOR_4, TWO,
};
use crate::filter::{
    above, below, box_blur, gray_levels, left_of, mean3, right_of, row_means, BLUE_WEIGHT,
    GREEN_WEIGHT, RED_WEIGHT, THREE,
};
use crate::grid::{lemma_coordinates, lemma_neighbours, lemma_pixel_at};
use crate::number::{Arithmetic, Single};
use crate::range::is_finite;
use crate::value::{
    converts_exactly, is_near, is_root, is_rounded, lemma_large, lemma_near_diff, lemma_near_prod,
    lemma_near_sum, lemma_rounding_bound, lemma_scale_monotone, lemma_scale_numbers,
    lemma_scale_sum, lemma_value_ratio, rounds_closely, scale, value, values_are_ordered,
};
use crate::whole::size;
use vstd::prelude::*;

verus! {

/// A thousandth.
pub open spec fn thousandth() -> real {
    1real / 1000real
}

proof fn lemma_weights()
    ensures
        is_near(Single::of(RED_WEIGHT), 299real / 1000real, 1real / 10000000real),
        is_near(Single::of(GREEN_WEIGHT), 587real / 1000real, 1real / 10000000real),
        is_near(Single::of(BLUE_WEIGHT), 114real / 1000real, 1real / 10000000real),
{
    lemma_scale_numbers();
    lemma_value_ratio(RED_WEIGHT, 125, 1644167, 33554432real);
    lemma_value_ratio(GREEN_WEIGHT, 126, 1459618, 16777216real);
    lemma_value_ratio(BLUE_WEIGHT, 123, 6912213, 134217728real);
    assert((0x0080_0000 + 1644167) as real == 10032775real);
    assert((0x0080_0000 + 1459618) as real == 9848226real);
    assert((0x0080_0000 + 6912213) as real == 15300821real);
}

/// A weight times a level of a channel.
proof fn lemma_weighted_channel<A: Arithmetic>(u: Single, x: real, c: u8)
    requires
        rounds_closely::<A>(),
        converts_exactly::<A>(),
        is_near(u, x, 1real / 10000000real),
        0real <= x <= 1real,
    ensures
        is_near(
            A::prod_of(u, A::from_usize_of(c as usize)),
            x * (c as real),
            255real / 10000000real + 512real * scale(-23),
        ),
{
    lemma_large();
    lemma_scale_numbers();
    let b: Single = A::from_usize_of(c as usize);
    assert(is_finite(b) && value(b) == c as real) by {
        reveal(converts_exactly);
    }
    let (p, q) = (value(u), value(b));
    assert(-512real <= p * q && p * q <= 512real) by (nonlinear_arith)
        requires
            -2real <= p <= 2real,
            0real <= q <= 255real,
    ;
    lemma_near_prod::<A>(u, b, x, c as real, 1real / 10000000real, 0real, 255real, 1real, 512real);
}

/// The brightness of a pixel is 0.299 red, 0.587 green and 0.114 blue, up to
/// rounding.
pub proof fn brightness_is_a_weighted_sum<A: Arithmetic>(rgba: Seq<u8>, n: nat, i: int)
    requires
        rounds_closely::<A>(),
        converts_exactly::<A>(),
        0 <= i < n,
        4 * i + 4 <= rgba.len(),
    ensures
        is_near(
            gray_levels::<A>(rgba, n)[i],
            299real / 1000real * (rgba[4 * i] as real) + 587real / 1000real * (rgba[4 * i
                + 1] as real) + 114real / 1000real * (rgba[4 * i + 2] as real),
            thousandth(),
        ),
{
    lemma_weights();
    lemma_large();
    lemma_scale_numbers();
    let (r, g, b) = (rgba[4 * i], rgba[4 * i + 1], rgba[4 * i + 2]);
    let (u, v, w) = (Single::of(RED_WEIGHT), Single::of(GREEN_WEIGHT), Single::of(BLUE_WEIGHT));
    lemma_weighted_channel::<A>(u, 299real / 1000real, r);
    lemma_weighted_channel::<A>(v, 587real / 1000real, g);
    lemma_weighted_channel::<A>(w, 114real / 1000real, b);
    let (x, y, z) = (
        A::prod_of(u, A::from_usize_of(r as usize)),
        A::prod_of(v, A::from_usize_of(g as usize)),
        A::prod_of(w, A::from_usize_of(b as usize)),
    );
    let e = 255real / 10000000real + 512real * scale(-23);
    lemma_near_sum::<A>(
        x,
        y,
        299real / 1000real * (r as real),
        587real / 1000real * (g as real),
        e,
        e,
        1024real,
    );
    lemma_near_sum::<A>(
        A::sum_of(x, y),
        z,
        299real / 1000real * (r as real) + 587real / 1000real * (g as real),
        114real / 1000real * (b as real),
        e + e + 1024real * scale(-23),
        e,
        1024real,
    );
}

/// Pixels that the frame lacks are black.
pub proof fn missing_pixels_are_black<A: Arithmetic>(rgba: Seq<u8>, n: nat, i: int)
    requires
        0 <= i < n,
        4 * i + 4 > rgba.len(),
    ensures
        gray_levels::<A>(rgba, n)[i] == Single::of(0),
{
}

/// The level is an ordinary one.
pub open spec fn is_level(a: Single) -> bool {
    is_finite(a) && -1024real <= value(a) <= 1024real
}

/// All levels of a raster are ordinary.
pub open spec fn are_levels(src: Seq<Single>, w: int, h: int) -> bool {
    forall|p: int| 0 <= p < w * h ==> is_level(#[trigger] src[p])
}

/// A coordinate held inside the raster.
pub open spec fn hold(x: int, n: int) -> int {
    if x < 0 {
        0
    } else if x >= n {
        n - 1
    } else {
        x
    }
}

/// The number at column `x` of row `y`, both held inside the raster.
pub open spec fn number_at(src: Seq<Single>, w: int, h: int, x: int, y: int) -> real {
    value(src[hold(y, h) * w + hold(x, w)])
}

/// Sum of the numbers from column `x - 1` to column `x + 1` of row `y`.
pub open spec fn three_across(src: Seq<Single>, w: int, h: int, x: int, y: int) -> real {
    number_at(src, w, h, x - 1, y) + number_at(src, w, h, x, y) + number_at(src, w, h, x + 1, y)
}

/// The mean of three near levels.
proof fn lemma_mean3<A: Arithmetic>(
    a: Single,
    b: Single,
    c: Single,
    x: real,
    y: real,
    z: real,
    e: real,
)
    requires
        rounds_closely::<A>(),
        is_near(a, x, e),
        is_near(b, y, e),
        is_near(c, z, e),
        -1024real <= x <= 1024real,
        -1024real <= y <= 1024real,
        -1024real <= z <= 1024real,
        0real <= e <= 1real,
    ensures
        is_near(mean3::<A>(a, b, c), (x + y + z) / 3real, e + 1real / 2500real * 2real),
{
    lemma_large();
    lemma_scale_numbers();
    let three: Single = Single::of(THREE);
    assert(is_finite(three) && value(three) == 3real) by {
        lemma_value_ratio(THREE, 128, 4194304, 4194304real);
        assert((0x0080_0000 + 4194304) as real == 12582912real);
    }
    lemma_near_sum::<A>(a, b, x, y, e, e, 4096real);
    lemma_near_sum::<A>(
        A::sum_of(a, b),
        c,
        x + y,
        z,
        e + e + 4096real * scale(-23),
        e,
        4096real,
    );
    let s: Single = A::sum_of(A::sum_of(a, b), c);
    let v = value(s);
    assert(is_rounded(A::quot_of(s, three), v / 3real)) by {
        reveal(rounds_closely);
    }
    lemma_rounding_bound(v / 3real, 2048real);
}

/// The blur of a raster is the mean over the three by three block of pixels, with
/// the border held, up to rounding.
pub proof fn blur_is_the_mean_of_nine<A: Arithmetic>(src: Seq<Single>, w: int, h: int, p: int)
    requires
        rounds_closely::<A>(),
        0 < w,
        0 < h,
        0 <= p < w * h,
        are_levels(src, w, h),
    ensures
        is_near(
            box_blur::<A>(src, w, h)[p],
            (three_across(src, w, h, p % w, p / w - 1) + three_across(src, w, h, p % w, p / w)
                + three_across(src, w, h, p % w, p / w + 1)) / 9real,
            1real / 500real,
        ),
{
    lemma_coordinates(p, w, h);
    lemma_neighbours(p, w, h);
    let (x, y) = (p % w, p / w);
    let rows: Seq<Single> = row_means::<A>(src, w, h);
    let (up, down) = (hold(y - 1, h) * w + x, hold(y + 1, h) * w + x);
    lemma_pixel_at(x, hold(y - 1, h), w, h);
    lemma_pixel_at(x, hold(y + 1, h), w, h);
    assert((y - 1) * w == y * w - w && (y + 1) * w == y * w + w) by (nonlinear_arith);
    assert(above(p, w) == up && below(p, w, h) == down);
    lemma_row_mean::<A>(src, w, h, up);
    lemma_row_mean::<A>(src, w, h, p);
    lemma_row_mean::<A>(src, w, h, down);
    let (a, b, c) = (
        three_across(src, w, h, x, y - 1),
        three_across(src, w, h, x, y),
        three_across(src, w, h, x, y + 1),
    );
    assert(hold(hold(y - 1, h), h) == hold(y - 1, h) && hold(hold(y + 1, h), h) == hold(y + 1, h));
    assert(three_across(src, w, h, x, hold(y - 1, h)) == a);
    assert(three_across(src, w, h, x, hold(y + 1, h)) == c);
    lemma_mean3::<A>(
        rows[up],
        rows[p],
        rows[down],
        a / 3real,
        b / 3real,
        c / 3real,
        1real / 2500real * 2real,
    );
}

proof fn lemma_row_mean<A: Arithmetic>(src: Seq<Single>, w: int, h: int, p: int)
    requires
        rounds_closely::<A>(),
        0 < w,
        0 < h,
        0 <= p < w * h,
        are_levels(src, w, h),
    ensures
        is_near(
            row_means::<A>(src, w, h)[p],
            three_across(src, w, h, p % w, p / w) / 3real,
            1real / 2500real * 2real,
        ),
        -3072real <= three_across(src, w, h, p % w, p / w) <= 3072real,
{
    lemma_coordinates(p, w, h);
    lemma_neighbours(p, w, h);
    let (x, y) = (p % w, p / w);
    lemma_pixel_at(hold(x - 1, w), y, w, h);
    lemma_pixel_at(hold(x + 1, w), y, w, h);
    let (l, r) = (left_of(p, w), right_of(p, w));
    assert(l == y * w + hold(x - 1, w) && r == y * w + hold(x + 1, w));
    assert(is_level(src[l]) && is_level(src[p]) && is_level(src[r]));
    lemma_mean3::<A>(
        src[l],
        src[p],
        src[r],
        value(src[l]),
        value(src[p]),
        value(src[r]),
        0real,
    );
}

proof fn lemma_weighted<A: Arithmetic>(a: Single, b: Single, c: Single)
    requires
        rounds_closely::<A>(),
        is_level(a),
        is_level(b),
        is_level(c),
    ensures
        is_near(
            weighted::<A>(a, b, c),
            value(a) + 2real * value(b) + value(c),
            12288real * scale(-23),
        ),
{
    lemma_large();
    lemma_scale_numbers();
    let two: Single = Single::of(TWO);
    assert(is_finite(two) && value(two) == 2real) by {
        lemma_value_ratio(TWO, 128, 0, 4194304real);
        assert((0x0080_0000 + 0) as real == 8388608real);
    }
    let y = value(b);
    assert(value(two) * y == 2real * y);
    lemma_near_prod::<A>(two, b, 2real, y, 0real, 0real, 1024real, 2real, 2048real);
    assert(0real * 1024real + 2real * 0real == 0real);
    lemma_near_sum::<A>(
        a,
        A::prod_of(two, b),
        value(a),
        2real * y,
        0real,
        2048real * scale(-23),
        4096real,
    );
    lemma_near_sum::<A>(
        A::sum_of(a, A::prod_of(two, b)),
        c,
        value(a) + 2real * y,
        value(c),
        6144real * scale(-23),
        0real,
        6144real,
    );
}

/// The gradient of an inner pixel is the difference of the weighted sums right and
/// left of it, and of those below and above it, the middle pixel of each counting
/// twice; up to rounding.
pub proof fn gradient_is_the_difference_of_sides<A: Arithmetic>(
    g: Seq<Single>,
    w: int,
    h: int,
    p: int,
)
    requires
        rounds_closely::<A>(),
        0 <= p < w * h,
        0 < p % w && p % w + 1 < w,
        0 < p / w && p / w + 1 < h,
        are_levels(g, w, h),
    ensures
        ({
            let grad = gradients::<A>(g, w, h)[p];
            let at = |dx: int, dy: int| value(g[p + dy * w + dx]);
            &&& is_near(
                grad.x,
                (at(1, -1) + 2real * at(1, 0) + at(1, 1)) - (at(-1, -1) + 2real * at(-1, 0) + at(
                    -1,
                    1,
                )),
                1real / 100real,
            )
            &&& is_near(
                grad.y,
                (at(-1, 1) + 2real * at(0, 1) + at(1, 1)) - (at(-1, -1) + 2real * at(0, -1) + at(
                    1,
                    -1,
                )),
                1real / 100real,
            )
        }),
{
    lemma_large();
    lemma_scale_numbers();
    lemma_neighbours(p, w, h);
    assert(-1 * w == -w && 0 * w == 0 && 1 * w == w) by (nonlinear_arith);
    let e = 12288real * scale(-23);
    lemma_weighted::<A>(g[p - w + 1], g[p + 1], g[p + w + 1]);
    lemma_weighted::<A>(g[p - w - 1], g[p - 1], g[p + w - 1]);
    lemma_weighted::<A>(g[p + w - 1], g[p + w], g[p + w + 1]);
    lemma_weighted::<A>(g[p - w - 1], g[p - w], g[p - w + 1]);
    lemma_near_diff::<A>(
        weighted::<A>(g[p - w + 1], g[p + 1], g[p + w + 1]),
        weighted::<A>(g[p - w - 1], g[p - 1], g[p + w - 1]),
        value(g[p - w + 1]) + 2real * value(g[p + 1]) + value(g[p + w + 1]),
        value(g[p - w - 1]) + 2real * value(g[p - 1]) + value(g[p + w - 1]),
        e,
        e,
        16384real,
    );
    lemma_near_diff::<A>(
        weighted::<A>(g[p + w - 1], g[p + w], g[p + w + 1]),
        weighted::<A>(g[p - w - 1], g[p - w], g[p - w + 1]),
        value(g[p + w - 1]) + 2real * value(g[p + w]) + value(g[p + w + 1]),
        value(g[p - w - 1]) + 2real * value(g[p - w]) + value(g[p - w + 1]),
        e,
        e,
        16384real,
    );
}

/// The border has no gradient.
pub proof fn border_has_no_gradient<A: Arithmetic>(g: Seq<Single>, w: int, h: int, p: int)
    requires
        0 <= p < w * h,
        p % w == 0 || p % w + 1 == w || p / w == 0 || p / w + 1 == h,
    ensures
        gradients::<A>(g, w, h)[p].mag == Single::of(0),
{
}

/// The root of a sum of two squares.
pub proof fn lemma_hypotenuse<A: Arithmetic>(x: Single, y: Single)
    requires
        rounds_closely::<A>(),
        is_finite(x),
        is_finite(y),
        -33554432real <= value(x) <= 33554432real,
        -33554432real <= value(y) <= 33554432real,
    ensures
        ({
            let r = A::sqrt_of(A::sum_of(A::prod_of(x, x), A::prod_of(y, y)));
            let s = value(x) * value(x) + value(y) * value(y);
            let e = s / 1000000real + scale(-60);
            &&& is_finite(r)
            &&& 0real <= value(r)
            &&& s - e <= value(r) * value(r)
            &&& value(r) * value(r) <= s + e
        }),
{
    lemma_large();
    lemma_scale_numbers();
    let (a, b) = (value(x), value(y));
    let (p, q) = (A::prod_of(x, x), A::prod_of(y, y));
    let (aa, bb) = (a * a, b * b);
    assert(0real <= aa <= 33554432real * 33554432real && 0real <= bb <= 33554432real * 33554432real)
        by (nonlinear_arith)
        requires
            aa == a * a,
            bb == b * b,
            -33554432real <= a <= 33554432real,
            -33554432real <= b <= 33554432real,
    ;
    let u = scale(-24);
    assert(is_rounded(p, aa) && is_rounded(q, bb)) by {
        reveal(rounds_closely);
    }
    let t = value(p) + value(q);
    let tiny = scale(-149);
    lemma_scale_monotone(-149, -100);
    lemma_scale_monotone(-140, -100);
    lemma_scale_monotone(-100, -60);
    lemma_scale_small();
    assert(aa * u * 16777216real == aa) by (nonlinear_arith)
        requires
            u * 16777216real == 1real,
    ;
    assert(bb * u * 16777216real == bb) by (nonlinear_arith)
        requires
            u * 16777216real == 1real,
    ;
    let s: Single = A::sum_of(p, q);
    assert(is_rounded(s, t)) by {
        reveal(rounds_closely);
    }
    let z = size(t);
    assert(z * u * 16777216real == z) by (nonlinear_arith)
        requires
            u * 16777216real == 1real,
    ;
    lemma_root::<A>(s);
}

/// The root of a small negative or of a positive number.
proof fn lemma_root<A: Arithmetic>(s: Single)
    requires
        rounds_closely::<A>(),
        is_finite(s),
        0real <= value(s) <= scale(100),
    ensures
        is_finite(A::sqrt_of(s)),
        0real <= value(A::sqrt_of(s)),
        value(s) - (value(s) / 4000000real + scale(-140)) <= value(A::sqrt_of(s)) * value(
            A::sqrt_of(s),
        ),
        value(A::sqrt_of(s)) * value(A::sqrt_of(s)) <= value(s) + (value(s) / 4000000real + scale(
            -140,
        )),
{
    lemma_scale_numbers();
    assert(is_root(A::sqrt_of(s), value(s))) by {
        reveal(rounds_closely);
    }
    let (v, u) = (value(s), scale(-22));
    assert(v * u <= v / 4000000real) by (nonlinear_arith)
        requires
            0real <= v,
            u * 4194304real == 1real,
    ;
}

proof fn lemma_scale_small()
    ensures
        scale(-100) * 1048576real <= scale(-60),
        scale(-149) * 16real <= scale(-140),
{
    lemma_scale_sum(-100, 20);
    lemma_scale_monotone(-80, -60);
    lemma_scale_sum(-149, 4);
    lemma_scale_monotone(-145, -140);
    reveal_with_fuel(scale, 22);
}

/// The magnitude of a gradient is the length of the vector that it is, up to
/// rounding.
pub proof fn magnitude_is_a_length<A: Arithmetic>(g: Seq<Single>, w: int, h: int, p: int)
    requires
        rounds_closely::<A>(),
        0 <= p < w * h,
        0 < p % w && p % w + 1 < w,
        0 < p / w && p / w + 1 < h,
        are_levels(g, w, h),
    ensures
        ({
            let grad = gradients::<A>(g, w, h)[p];
            let s = value(grad.x) * value(grad.x) + value(grad.y) * value(grad.y);
            let e = s / 1000000real + scale(-60);
            &&& is_finite(grad.mag)
            &&& 0real <= value(grad.mag)
            &&& s - e <= value(grad.mag) * value(grad.mag)
            &&& value(grad.mag) * value(grad.mag) <= s + e
        }),
{
    gradient_is_the_difference_of_sides::<A>(g, w, h, p);
    lemma_neighbours(p, w, h);
    assert(-1 * w == -w && 0 * w == 0 && 1 * w == w) by (nonlinear_arith);
    assert(is_level(g[p - w - 1]) && is_level(g[p - w]) && is_level(g[p - w + 1]));
    assert(is_level(g[p - 1]) && is_level(g[p + 1]));
    assert(is_level(g[p + w - 1]) && is_level(g[p + w]) && is_level(g[p + w + 1]));
    let grad: Gradient = gradients::<A>(g, w, h)[p];
    lemma_hypotenuse::<A>(grad.x, grad.y);
}

proof fn lemma_sectors()
    ensures
        is_finite(Single::of(SECTOR_1)) && 2real * value(Single::of(SECTOR_1)) == 45real,
        is_finite(Single::of(SECTOR_2)) && 2real * value(Single::of(SECTOR_2)) == 135real,
        is_finite(Single::of(SECTOR_3)) && 2real * value(Single::of(SECTOR_3)) == 225real,
        is_finite(Single::of(SECTOR_4)) && 2real * value(Single::of(SECTOR_4)) == 315real,
        is_finite(Single::of(HALF_TURN)) && value(Single::of(HALF_TURN)) == 180real,
{
    reveal_with_fuel(scale, 21);
    lemma_value_ratio(SECTOR_1, 131, 3407872, 524288real);
    lemma_value_ratio(SECTOR_2, 133, 458752, 131072real);
    lemma_value_ratio(SECTOR_3, 133, 6356992, 131072real);
    lemma_value_ratio(SECTOR_4, 134, 1933312, 65536real);
    lemma_value_ratio(HALF_TURN, 134, 3407872, 65536real);
    assert((0x0080_0000 + 3407872) as real == 11796480real);
    assert((0x0080_0000 + 458752) as real == 8847360real);
    assert((0x0080_0000 + 6356992) as real == 14745600real);
    assert((0x0080_0000 + 1933312) as real == 10321920real);
}

/// The direction in degrees of a step to a neighbour, rows growing downwards.
pub open spec fn bearing(step: (int, int)) -> real {
    if step.1 == 0 {
        0real
    } else if step.0 == 1 {
        45real
    } else if step.0 == 0 {
        90real
    } else {
        135real
    }
}

/// The heading is a step to a neighbour whose direction is no more than 22.5
/// degrees off, where directions a half turn apart count as the same.
pub proof fn heading_is_the_nearest_neighbour(angle: Single)
    requires
        is_finite(angle),
        0real <= value(angle) < 180real,
    ensures
        ({
            let off = value(angle) - bearing(heading(angle));
            &&& heading(angle) == (1int, 0int) || heading(angle) == (1int, 1int) || heading(angle)
                == (0int, 1int) || heading(angle) == (-1int, 1int)
            &&& -45real <= 2real * off <= 45real || 2real * off >= 315real
        }),
{
    lemma_sectors();
    values_are_ordered(angle, Single::of(SECTOR_1));
    values_are_ordered(Single::of(SECTOR_4), angle);
    values_are_ordered(angle, Single::of(SECTOR_2));
    values_are_ordered(angle, Single::of(SECTOR_3));
}

/// The remainder of a division by a positive number is what is left of the
/// dividend when the divisor is taken away as often as it can be.
pub open spec fn is_remainder(r: real, a: real, b: real, n: int) -> bool {
    a == n as real * b + r && 0real <= r < b
}

/// The angle of a vector is told with an error of less than half a degree:
/// vectors that are far from flat, from steep and from the diagonals are not
/// spoken of, and remainders are exact.
#[verifier::opaque]
pub open spec fn tells_directions<A: Arithmetic>() -> bool {
    &&& forall|y: Single, x: Single|
        is_finite(x) && is_finite(y) && (value(x) != 0real || value(y) != 0real) ==> is_compass(
            #[trigger] A::degrees_of(A::atan2_of(y, x)),
            value(x),
            value(y),
        )
    &&& forall|a: Single, b: Single|
        is_finite(a) && is_finite(b) && value(a) >= 0real && value(b) > 0real ==> is_finite(
            #[trigger] A::rem_of(a, b),
        ) && exists|n: int| #[trigger] is_remainder(value(A::rem_of(a, b)), value(a), value(b), n)
}

/// `d` is the direction in degrees, from -180 to 180, of a vector: near 0 or 180
/// for a flat one, near 90 for a steep one that points down, near 45 and 135 for
/// those on the diagonals that point down, and the same negative for those that
/// point up.
pub open spec fn is_compass(d: Single, x: real, y: real) -> bool {
    let v = value(d);
    &&& is_finite(d)
    &&& -180real <= v <= 180real
    &&& 5real * size(y) <= 2real * size(x) ==> (if x > 0real {
        -22real <= v <= 22real
    } else {
        v <= -158real || v >= 158real
    })
    &&& 5real * size(x) <= 2real * size(y) ==> (if y > 0real {
        68real <= v <= 112real
    } else {
        -112real <= v <= -68real
    })
    &&& 21real * size(x) <= 50real * size(y) && 21real * size(y) <= 50real * size(x) ==> (if x
        > 0real && y > 0real {
        22real + 6real / 10real <= v <= 67real + 4real / 10real
    } else if x < 0real && y > 0real {
        112real + 6real / 10real <= v <= 157real + 4real / 10real
    } else if x < 0real {
        -(157real + 4real / 10real) <= v <= -(112real + 6real / 10real)
    } else {
        -(67real + 4real / 10real) <= v <= -(22real + 6real / 10real)
    })
}

/// The direction of a gradient is its angle up to a half turn.
proof fn lemma_direction<A: Arithmetic>(g: Gradient) -> (n: int)
    requires
        rounds_closely::<A>(),
        tells_directions::<A>(),
        is_finite(g.x),
        is_finite(g.y),
        value(g.x) != 0real || value(g.y) != 0real,
    ensures
        is_compass(A::degrees_of(A::atan2_of(g.y, g.x)), value(g.x), value(g.y)),
        is_finite(direction::<A>(g)),
        0real <= value(direction::<A>(g)) < 180real,
        0 <= n <= 2,
        ({
            let turn = value(A::degrees_of(A::atan2_of(g.y, g.x))) + 180real;
            let found = n as real * 180real + value(direction::<A>(g));
            turn - 1real / 10000real <= found <= turn + 1real / 10000real
        }),
{
    lemma_sectors();
    lemma_large();
    lemma_scale_numbers();
    let d: Single = A::degrees_of(A::atan2_of(g.y, g.x));
    let half: Single = Single::of(HALF_TURN);
    assert(is_compass(d, value(g.x), value(g.y))) by {
        reveal(tells_directions);
    }
    let s: Single = A::sum_of(d, half);
    lemma_near_sum::<A>(d, half, value(d), 180real, 0real, 0real, 360real);
    assert(value(s) >= 0real) by {
        reveal(rounds_closely);
        assert(is_rounded(s, value(d) + value(half)));
    }
    let r: Single = A::rem_of(s, half);
    assert(is_finite(r) && exists|n: int| #[trigger] is_remainder(value(r), value(s), 180real, n))
        by {
        reveal(tells_directions);
    }
    let n: int = choose|n: int| #[trigger] is_remainder(value(r), value(s), 180real, n);
    assert(n as real * 180real == value(s) - value(r));
    assert(0 <= n <= 2);
    n
}

/// Suppression looks where the gradient points: for a flat gradient at the pixels
/// left and right, for a steep one above and below, for one near a diagonal along
/// this diagonal.
pub proof fn heading_follows_the_gradient<A: Arithmetic>(g: Gradient)
    requires
        rounds_closely::<A>(),
        tells_directions::<A>(),
        is_finite(g.x),
        is_finite(g.y),
        value(g.x) != 0real || value(g.y) != 0real,
    ensures
        ({
            let (x, y) = (value(g.x), value(g.y));
            let step = heading(direction::<A>(g));
            let diagonal = 21real * size(x) <= 50real * size(y) && 21real * size(y) <= 50real * size(
                x,
            );
            &&& 5real * size(y) <= 2real * size(x) ==> step == (1int, 0int)
            &&& 5real * size(x) <= 2real * size(y) ==> step == (0int, 1int)
            &&& diagonal && (x > 0real <==> y > 0real) ==> step == (1int, 1int)
            &&& diagonal && (x > 0real <==> y < 0real) ==> step == (-1int, 1int)
        }),
{
    let n: int = lemma_direction::<A>(g);
    heading_is_the_nearest_neighbour(direction::<A>(g));
    lemma_sectors();
    let a: Single = direction::<A>(g);
    values_are_ordered(a, Single::of(SECTOR_1));
    values_are_ordered(Single::of(SECTOR_4), a);
    values_are_ordered(a, Single::of(SECTOR_2));
    values_are_ordered(a, Single::of(SECTOR_3));
    assert(n == 0 || n == 1 || n == 2);
}

/// The edge map links what suppression leaves, with the percentile of the
/// magnitudes as the high threshold and 0.4 of it, up to rounding, as the low one.
pub proof fn canny_links_what_suppression_leaves<A: Arithmetic>(
    g: Seq<Single>,
    w: int,
    h: int,
    strong_frac: Single,
) -> (low: Single)
    requires
        rounds_closely::<A>(),
    ensures
        ({
            let grads = gradients::<A>(g, w, h);
            let high = percentile::<A>(magnitudes(grads), strong_frac);
            &&& canny_edges::<A>(g, w, h, strong_frac) == edges_of(
                thinned::<A>(grads, w, h, low),
                w,
                low,
                high,
            )
            &&& is_finite(high) && 0real <= value(high) <= scale(60) ==> is_near(
                low,
                4real / 10real * value(high),
                value(high) / 1000000real + scale(-149),
            )
        }),
{
    let grads: Seq<Gradient> = gradients::<A>(g, w, h);
    let high: Single = percentile::<A>(magnitudes(grads), strong_frac);
    let part: Single = Single::of(LOW_PART);
    let low: Single = A::prod_of(high, part);
    lemma_scale_numbers();
    lemma_value_ratio(LOW_PART, 125, 5033165, 33554432real);
    assert((0x0080_0000 + 5033165) as real == 13421773real);
    if is_finite(high) && 0real <= value(high) <= scale(60) {
        let (v, c, u) = (value(high), value(part), scale(-24));
        let x = v * c;
        assert(4real / 10real * v - v / 10000000real <= x && x <= 4real / 10real * v + v
            / 10000000real && 0real <= x && x <= v) by (nonlinear_arith)
            requires
                x == v * c,
                0real <= v,
                4real / 10real - 1real / 10000000real <= c <= 4real / 10real + 1real / 10000000real,
        ;
        lemma_scale_monotone(60, 100);
        assert(is_rounded(low, x)) by {
            reveal(rounds_closely);
        }
        assert(x * u * 16777216real == x) by (nonlinear_arith)
            requires
                u * 16777216real == 1real,
        ;
    }
    low
}

} // verus!
