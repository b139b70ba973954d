//! What sampling gives, in real numbers: the bilinear mean of four pixels.

use crate::number::{Arithmetic, Single, ZERO};
use crate::range::is_finite;
use crate::rectify::{after, base_of, beyond, blend, channel, held, level, sample, CHANNEL_MAX};
use crate::value::{
    converts_exactly, is_floor, is_near, is_nearest, is_rounded, lemma_large, lemma_near_diff,
    lemma_near_prod, lemma_near_sum, lemma_part, lemma_product_size, lemma_scale_numbers,
    lemma_value_ratio, lemma_value_units, rounds_closely, scale, to_u8_is, to_usize_is, value,
    values_are_ordered,
};
use vstd::prelude::*;

verus! {

/// A real coordinate moved into a frame of the given extent.
pub open spec fn held_inside(x: real, extent: int) -> real {
    if x < 0real {
        0real
    } else if x > (extent - 1) as real {
        (extent - 1) as real
    } else {
        x
    }
}

/// The value of a held coordinate.
proof fn lemma_held<A: Arithmetic>(x: Single, extent: int)
    requires
        converts_exactly::<A>(),
        1 <= extent <= 0x0100_0000,
        !x.is_nan(),
    ensures
        is_finite(held::<A>(x, extent)),
        value(held::<A>(x, extent)) == held_inside(value(x), extent),
{
    let last: Single = A::from_usize_of((extent - 1) as usize);
    assert(is_finite(last) && value(last) == (extent - 1) as real) by {
        reveal(converts_exactly);
    }
    lemma_value_units();
    values_are_ordered(x, Single::of(ZERO));
    values_are_ordered(last, x);
}

/// A number has one floor.
proof fn lemma_floor_unique(x: real, i: int, n: int)
    requires
        is_floor(x, i),
        is_floor(x, n),
    ensures
        i == n,
{
    assert((i as real) < (n as real) + 1real);
    assert((n as real) < (i as real) + 1real);
}

/// The floor and the count of a finite number.
proof fn lemma_count_of<A: Arithmetic>(x: Single, i: usize)
    requires
        converts_exactly::<A>(),
        is_finite(x),
        is_floor(value(x), i as int),
        i <= 0x0100_0000,
    ensures
        A::to_usize_of(A::floor_of(x)) == i,
{
    let f: Single = A::floor_of(x);
    assert(is_finite(f) && exists|n: int|
        value(f) == n as real && #[trigger] is_floor(value(x), n)) by {
        reveal(converts_exactly);
    }
    let n: int = choose|n: int| value(f) == n as real && #[trigger] is_floor(value(x), n);
    lemma_floor_unique(value(x), i as int, n);
    assert(is_floor(value(f), i as int));
    assert(to_usize_is::<A>(f, i)) by {
        reveal(converts_exactly);
    }
}

/// The pixel at or before a held coordinate.
proof fn lemma_base<A: Arithmetic>(x: Single, extent: int, i: int)
    requires
        converts_exactly::<A>(),
        1 <= extent <= 0x0100_0000,
        is_finite(x),
        0real <= value(x) <= (extent - 1) as real,
        is_floor(value(x), i),
    ensures
        0 <= i < extent,
        base_of::<A>(x, extent) == i,
{
    assert(0 <= i < extent) by {
        assert((i as real) <= (extent - 1) as real);
        assert(0real < (i as real) + 1real);
    }
    lemma_count_of::<A>(x, i as usize);
}

/// How far a held coordinate is beyond its pixel.
proof fn lemma_beyond<A: Arithmetic>(x: Single, extent: int, i: int)
    requires
        rounds_closely::<A>(),
        converts_exactly::<A>(),
        1 <= extent <= 0x0100_0000,
        is_finite(x),
        0real <= value(x) <= (extent - 1) as real,
        is_floor(value(x), i),
    ensures
        is_near(beyond::<A>(x, extent), value(x) - i as real, scale(-23)),
        0real <= value(beyond::<A>(x, extent)),
{
    lemma_large();
    lemma_base::<A>(x, extent, i);
    let b: Single = A::from_usize_of(i as usize);
    assert(is_finite(b) && value(b) == i as real) by {
        reveal(converts_exactly);
    }
    lemma_near_diff::<A>(x, b, value(x), i as real, 0real, 0real, 1real);
    assert(value(A::diff_of(x, b)) >= 0real) by {
        reveal(rounds_closely);
        assert(is_rounded(A::diff_of(x, b), value(x) - value(b)));
    }
}

/// The way from one level to another.
proof fn lemma_blend<A: Arithmetic>(
    a: Single,
    b: Single,
    t: Single,
    x: real,
    y: real,
    u: real,
    e: real,
)
    requires
        rounds_closely::<A>(),
        is_near(a, x, e),
        is_near(b, y, e),
        is_near(t, u, scale(-23)),
        0real <= x <= 255real,
        0real <= y <= 255real,
        0real <= u <= 1real,
        0real <= e <= 1real / 1000real,
    ensures
        is_near(blend::<A>(a, b, t), x + (y - x) * u, 4real * e + 4096real * scale(-23)),
{
    lemma_large();
    lemma_scale_numbers();
    let d: Single = A::diff_of(b, a);
    lemma_near_diff::<A>(b, a, y, x, e, e, 512real);
    let f = 2real * e + 512real * scale(-23);
    let (p, q) = (value(d), value(t));
    lemma_product_size(p, q, 512real, 2real);
    lemma_near_prod::<A>(d, t, y - x, u, f, scale(-23), 1real + scale(-23), 255real, 1024real);
    let g = f * (1real + scale(-23)) + 255real * scale(-23) + 1024real * scale(-23);
    let s = scale(-23);
    lemma_part(s, f);
    assert(f * (1real + s) == f + s * f) by (nonlinear_arith);
    let z = (y - x) * u;
    lemma_product_size(y - x, u, 255real, 1real);
    lemma_near_sum::<A>(a, A::prod_of(d, t), x, z, e, g, 2048real);
}

/// The number of channel `c` at column `x` of row `y`.
pub open spec fn byte_at(rgba: Seq<u8>, w: int, x: int, y: int, c: int) -> real {
    rgba[(y * w + x) * 4 + c] as real
}

/// The bilinear mean of four numbers: each counts by how close it is.
#[verifier::opaque]
pub open spec fn bilinear_mean(
    p00: real,
    p10: real,
    p01: real,
    p11: real,
    fx: real,
    fy: real,
) -> real {
    (1real - fx) * (1real - fy) * p00 + fx * (1real - fy) * p10 + (1real - fx) * fy * p01 + fx * fy
        * p11
}

/// The index of the next pixel, held inside the frame.
pub open spec fn next_inside(i: int, extent: int) -> int {
    if i + 1 < extent {
        i + 1
    } else {
        i
    }
}

proof fn lemma_spread(a: real, u: real, v: real)
    ensures
        (1real - u) * (1real - v) * a == a - a * u - (a * v - (a * u) * v),
        u * (1real - v) * a == a * u - (a * u) * v,
        (1real - u) * v * a == a * v - (a * u) * v,
        u * v * a == (a * u) * v,
{
    let (au, av, w) = (a * u, a * v, u * v);
    assert(w * a == au * v) by (nonlinear_arith)
        requires
            w == u * v,
            au == a * u,
    ;
    assert(u * (1real - v) == u - w) by (nonlinear_arith)
        requires
            w == u * v,
    ;
    assert((u - w) * a == au - w * a) by (nonlinear_arith)
        requires
            au == a * u,
    ;
    assert((1real - u) * v == v - w) by (nonlinear_arith)
        requires
            w == u * v,
    ;
    assert((v - w) * a == av - w * a) by (nonlinear_arith)
        requires
            av == a * v,
    ;
    assert((1real - u) * (1real - v) == 1real - u - (v - w)) by (nonlinear_arith)
        requires
            w == u * v,
    ;
    let t = v - w;
    assert((1real - u - t) * a == a - au - t * a) by (nonlinear_arith)
        requires
            au == a * u,
    ;
}

/// Two blends across and one down are the bilinear mean.
proof fn lemma_bilinear(a: real, b: real, c: real, d: real, u: real, v: real)
    ensures
        (a + (b - a) * u) + ((c + (d - c) * u) - (a + (b - a) * u)) * v == bilinear_mean(
            a,
            b,
            c,
            d,
            u,
            v,
        ),
{
    reveal(bilinear_mean);
    lemma_spread(a, u, v);
    lemma_spread(b, u, v);
    lemma_spread(c, u, v);
    lemma_spread(d, u, v);
    let (au, bu, cu, du) = (a * u, b * u, c * u, d * u);
    assert((b - a) * u == bu - au) by (nonlinear_arith)
        requires
            bu == b * u,
            au == a * u,
    ;
    assert((d - c) * u == du - cu) by (nonlinear_arith)
        requires
            du == d * u,
            cu == c * u,
    ;
    let (t, s) = (a + (bu - au), c + (du - cu));
    assert((s - t) * v == s * v - t * v) by (nonlinear_arith);
    assert(t * v == a * v + (bu * v - au * v)) by (nonlinear_arith)
        requires
            t == a + (bu - au),
    ;
    assert(s * v == c * v + (du * v - cu * v)) by (nonlinear_arith)
        requires
            s == c + (du - cu),
    ;
}

/// A value between two.
proof fn lemma_between(a: real, b: real, u: real)
    requires
        0real <= a <= 255real,
        0real <= b <= 255real,
        0real <= u <= 1real,
    ensures
        0real <= a + (b - a) * u <= 255real,
{
    if a <= b {
        lemma_part(b - a, u);
    } else {
        lemma_part(a - b, u);
        let t = a - b;
        assert((b - a) * u == -(t * u)) by (nonlinear_arith)
            requires
                t == a - b,
        ;
    }
}

/// A level rounded to a byte.
proof fn lemma_byte<A: Arithmetic>(r: Single, x: real, e: real)
    requires
        converts_exactly::<A>(),
        is_near(r, x, e),
        0real <= x <= 255real,
        0real <= e,
    ensures
        ({
            let b = A::to_u8_of(
                A::round_of(r).clamp(Single::of(ZERO), Single::of(CHANNEL_MAX)),
            ) as real;
            x - 1real / 2real - e <= b <= x + 1real / 2real + e
        }),
{
    let q: Single = A::round_of(r);
    assert(is_finite(q) && exists|n: int|
        value(q) == n as real && #[trigger] is_nearest(value(r), n)) by {
        reveal(converts_exactly);
    }
    let n: int = choose|n: int| value(q) == n as real && #[trigger] is_nearest(value(r), n);
    lemma_value_units();
    let top: Single = Single::of(CHANNEL_MAX);
    assert(is_finite(top) && value(top) == 255real) by {
        reveal_with_fuel(scale, 18);
        lemma_value_ratio(CHANNEL_MAX, 134, 8323072, 65536real);
        assert((0x0080_0000 + 8323072) as real == 16711680real);
    }
    values_are_ordered(q, Single::of(ZERO));
    values_are_ordered(top, q);
    let m: int = if n < 0 {
        0
    } else if n > 255 {
        255
    } else {
        n
    };
    let c: Single = q.clamp(Single::of(ZERO), top);
    assert(is_finite(c) && value(c) == m as real);
    assert(to_u8_is::<A>(c, m as u8)) by {
        reveal(converts_exactly);
        assert(value(c) == (m as u8) as real);
    }
}

/// Two blends across and one down of four levels.
proof fn lemma_two_blends<A: Arithmetic>(
    a: Single,
    b: Single,
    d: Single,
    e: Single,
    fx: Single,
    fy: Single,
    u: real,
    v: real,
)
    requires
        rounds_closely::<A>(),
        is_finite(a) && 0real <= value(a) <= 255real,
        is_finite(b) && 0real <= value(b) <= 255real,
        is_finite(d) && 0real <= value(d) <= 255real,
        is_finite(e) && 0real <= value(e) <= 255real,
        is_near(fx, u, scale(-23)),
        is_near(fy, v, scale(-23)),
        0real <= u <= 1real,
        0real <= v <= 1real,
    ensures
        is_near(
            blend::<A>(blend::<A>(a, b, fx), blend::<A>(d, e, fx), fy),
            bilinear_mean(value(a), value(b), value(d), value(e), u, v),
            20480real * scale(-23),
        ),
        0real <= bilinear_mean(value(a), value(b), value(d), value(e), u, v) <= 255real,
{
    lemma_scale_numbers();
    let (pa, pb, pd, pe) = (value(a), value(b), value(d), value(e));
    lemma_blend::<A>(a, b, fx, pa, pb, u, 0real);
    lemma_blend::<A>(d, e, fx, pd, pe, u, 0real);
    lemma_between(pa, pb, u);
    lemma_between(pd, pe, u);
    let (rt, rb) = (pa + (pb - pa) * u, pd + (pe - pd) * u);
    lemma_blend::<A>(
        blend::<A>(a, b, fx),
        blend::<A>(d, e, fx),
        fy,
        rt,
        rb,
        v,
        4096real * scale(-23),
    );
    lemma_between(rt, rb, v);
    lemma_bilinear(pa, pb, pd, pe, u, v);
}

/// The number of a level is that of the byte.
proof fn lemma_level<A: Arithmetic>(rgba: Seq<u8>, w: int, x: int, y: int, c: int)
    requires
        converts_exactly::<A>(),
    ensures
        is_finite(level::<A>(rgba, w, x, y, c)),
        value(level::<A>(rgba, w, x, y, c)) == byte_at(rgba, w, x, y, c),
        0real <= byte_at(rgba, w, x, y, c) <= 255real,
{
    let b: u8 = rgba[(y * w + x) * 4 + c];
    assert(is_finite(A::from_usize_of(b as usize)) && value(A::from_usize_of(b as usize))
        == b as real) by {
        reveal(converts_exactly);
    }
    assert(0real <= b as real <= 255real);
}

/// A sample is the bilinear mean of the four pixels around the position, rounded
/// to a byte. The position is held inside the frame, and each pixel counts by how
/// close it is.
pub proof fn sample_is_the_bilinear_mean<A: Arithmetic>(
    rgba: Seq<u8>,
    w: int,
    h: int,
    x: Single,
    y: Single,
    i: int,
    j: int,
    c: int,
)
    requires
        rounds_closely::<A>(),
        converts_exactly::<A>(),
        1 <= w <= 0x0100_0000,
        1 <= h <= 0x0100_0000,
        !x.is_nan(),
        !y.is_nan(),
        is_floor(held_inside(value(x), w), i),
        is_floor(held_inside(value(y), h), j),
        0 <= c < 4,
    ensures
        ({
            let mean = bilinear_mean(
                byte_at(rgba, w, i, j, c),
                byte_at(rgba, w, next_inside(i, w), j, c),
                byte_at(rgba, w, i, next_inside(j, h), c),
                byte_at(rgba, w, next_inside(i, w), next_inside(j, h), c),
                held_inside(value(x), w) - i as real,
                held_inside(value(y), h) - j as real,
            );
            let byte = sample::<A>(rgba, w, h, x, y)[c] as real;
            mean - 1real / 2real - 1real / 100real <= byte <= mean + 1real / 2real + 1real / 100real
        }),
{
    lemma_scale_numbers();
    lemma_held::<A>(x, w);
    lemma_held::<A>(y, h);
    let (hx, hy) = (held::<A>(x, w), held::<A>(y, h));
    lemma_base::<A>(hx, w, i);
    lemma_base::<A>(hy, h, j);
    lemma_beyond::<A>(hx, w, i);
    lemma_beyond::<A>(hy, h, j);
    let (i1, j1) = (next_inside(i, w), next_inside(j, h));
    assert(after(i, w) == i1 && after(j, h) == j1);
    lemma_level::<A>(rgba, w, i, j, c);
    lemma_level::<A>(rgba, w, i1, j, c);
    lemma_level::<A>(rgba, w, i, j1, c);
    lemma_level::<A>(rgba, w, i1, j1, c);
    let (a, b) = (level::<A>(rgba, w, i, j, c), level::<A>(rgba, w, i1, j, c));
    let (d, e) = (level::<A>(rgba, w, i, j1, c), level::<A>(rgba, w, i1, j1, c));
    let (u, v) = (value(hx) - i as real, value(hy) - j as real);
    let (fx, fy) = (beyond::<A>(hx, w), beyond::<A>(hy, h));
    lemma_two_blends::<A>(a, b, d, e, fx, fy, u, v);
    let r: Single = blend::<A>(blend::<A>(a, b, fx), blend::<A>(d, e, fx), fy);
    let mean = bilinear_mean(value(a), value(b), value(d), value(e), u, v);
    lemma_byte::<A>(r, mean, 20480real * scale(-23));
    assert(sample::<A>(rgba, w, h, x, y)[c] == channel::<A>(rgba, w, h, x, y, c));
}

} // verus!
