//! Dilation of a binary edge map.

use crate::grid::{
    col, is_set, lemma_coordinates, lemma_linked_reflexive, lemma_linked_step, lemma_pixel_at,
    linked, near, row,
};
use vstd::prelude::*;

verus! {

/// Some set pixel of the first `n` lies in the 3x3 block around `p`.
pub open spec fn touches(src: Seq<bool>, w: int, n: int, p: int) -> bool {
    exists|q: int| 0 <= q < n && #[trigger] src[q] && near(q, p, w)
}

/// The 3x3 dilation of the raster `src`.
pub open spec fn dilation(src: Seq<bool>, w: int, h: int) -> Seq<bool> {
    Seq::new((w * h) as nat, |p: int| touches(src, w, w * h, p))
}

/// Sets the pixels of the 3x3 block around column `x` of row `y`.
fn set_block(out: &mut Vec<bool>, w: usize, h: usize, x: usize, y: usize)
    requires
        x < w,
        y < h,
        old(out)@.len() == w * h,
    ensures
        final(out)@.len() == w * h,
        forall|p: int|
            0 <= p < w * h ==> (#[trigger] final(out)@[p] <==> old(out)@[p] || near(
                y * w + x,
                p,
                w as int,
            )),
{
    let ghost before: Seq<bool> = out@;
    let ghost wi: int = w as int;
    let ghost hi: int = h as int;
    let total: usize = out.len();
    proof {
        lemma_pixel_at(x as int, y as int, wi, hi);
    }
    let y0: usize = if y > 0 {
        y - 1
    } else {
        0
    };
    let y2: usize = if y + 1 < h {
        y + 1
    } else {
        h - 1
    };
    let x0: usize = if x > 0 {
        x - 1
    } else {
        0
    };
    let x2: usize = if x + 1 < w {
        x + 1
    } else {
        w - 1
    };
    let mut ny: usize = y0;
    while ny <= y2
        invariant
            wi == w,
            hi == h,
            x0 <= x2 < w,
            y0 <= y2 < h,
            y0 <= ny <= y2 + 1,
            total == w * h,
            out@.len() == total,
            forall|p: int|
                0 <= p < total ==> (#[trigger] out@[p] <==> before[p] || (x0 <= col(p, wi) <= x2
                    && y0 <= row(p, wi) < ny)),
        decreases y2 + 1 - ny,
    {
        let mut nx: usize = x0;
        while nx <= x2
            invariant
                wi == w,
                hi == h,
                x0 <= x2 < w,
                y0 <= ny <= y2 < h,
                x0 <= nx <= x2 + 1,
                total == w * h,
                out@.len() == total,
                forall|p: int|
                    0 <= p < total ==> (#[trigger] out@[p] <==> before[p] || (x0 <= col(p, wi) <= x2
                        && y0 <= row(p, wi) < ny) || (x0 <= col(p, wi) < nx && row(p, wi) == ny)),
            decreases x2 + 1 - nx,
        {
            let ghost now: Seq<bool> = out@;
            proof {
                lemma_pixel_at(nx as int, ny as int, wi, hi);
                assert(ny * w <= ny * w + nx);
                assert(0 <= ny * w) by (nonlinear_arith);
            }
            let k: usize = ny * w + nx;
            out[k] = true;
            proof {
                assert forall|p: int| 0 <= p < total implies (#[trigger] out@[p] <==> before[p] || (
                x0 <= col(p, wi) <= x2 && y0 <= row(p, wi) < ny) || (x0 <= col(p, wi) < nx + 1
                    && row(p, wi) == ny)) by {
                    lemma_coordinates(p, wi, hi);
                    if p != k {
                        assert(out@[p] == now[p]);
                        assert(!(col(p, wi) == nx && row(p, wi) == ny));
                    }
                }
            }
            nx = nx + 1;
        }
        ny = ny + 1;
    }
    proof {
        assert forall|p: int| 0 <= p < total implies (#[trigger] out@[p] <==> before[p] || near(
            y * w + x,
            p,
            wi,
        )) by {
            lemma_coordinates(p, wi, hi);
        }
    }
}

/// 3x3 binary dilation. Closes small gaps so that an outline forms one
/// component.
pub fn dilate3(src: &[bool], w: usize, h: usize) -> (out: Vec<bool>)
    requires
        w * h <= src@.len(),
    ensures
        out@ == dilation(src@, w as int, h as int),
{
    let len: usize = src.len();
    assert(0 <= w * h) by (nonlinear_arith);
    let total: usize = w * h;
    let ghost wi: int = w as int;
    let mut out: Vec<bool> = vec![false; total];
    let mut y: usize = 0;
    proof {
        assert(0 * w == 0) by (nonlinear_arith);
    }
    while y < h
        invariant
            y <= h,
            wi == w,
            total == w * h,
            total <= src@.len(),
            src@.len() == len,
            out@.len() == total,
            forall|p: int|
                0 <= p < total ==> (#[trigger] out@[p] <==> touches(src@, wi, y * w, p)),
        decreases h - y,
    {
        let mut x: usize = 0;
        while x < w
            invariant
                x <= w,
                y < h,
                wi == w,
                total == w * h,
                total <= src@.len(),
                src@.len() == len,
                out@.len() == total,
                forall|p: int|
                    0 <= p < total ==> (#[trigger] out@[p] <==> touches(src@, wi, y * w + x, p)),
            decreases w - x,
        {
            let ghost before: Seq<bool> = out@;
            proof {
                lemma_pixel_at(x as int, y as int, wi, h as int);
                assert(0 <= y * w) by (nonlinear_arith);
            }
            let q: usize = y * w + x;
            if src[q] {
                set_block(&mut out, w, h, x, y);
            }
            proof {
                assert forall|p: int| 0 <= p < total implies (#[trigger] out@[p] <==> touches(
                    src@,
                    wi,
                    q + 1,
                    p,
                )) by {
                    assert(before[p] <==> touches(src@, wi, q as int, p));
                    if touches(src@, wi, q as int, p) {
                        let r: int = choose|r: int|
                            0 <= r < q && #[trigger] src@[r] && near(r, p, wi);
                        assert(0 <= r < q + 1 && src@[r] && near(r, p, wi));
                    }
                    if src@[q as int] && near(q as int, p, wi) {
                        assert(touches(src@, wi, q + 1, p));
                    }
                }
            }
            x = x + 1;
        }
        proof {
            assert(y * w + w == (y + 1) * w) by (nonlinear_arith);
        }
        y = y + 1;
    }
    proof {
        assert(h * w == w * h) by (nonlinear_arith);
        assert(out@ =~= dilation(src@, wi, h as int));
    }
    out
}

/// Dilation sets every pixel that was set.
pub proof fn dilation_extends(src: Seq<bool>, w: int, h: int)
    requires
        0 <= w,
        0 <= h,
        src.len() == w * h,
    ensures
        forall|p: int| is_set(src, p) ==> #[trigger] is_set(dilation(src, w, h), p),
{
    assert forall|p: int| is_set(src, p) implies #[trigger] is_set(dilation(src, w, h), p) by {
        assert(src[p] && near(p, p, w));
    }
}

/// More pixels before dilation are no fewer after it.
pub proof fn dilation_is_monotone(fewer: Seq<bool>, more: Seq<bool>, w: int, h: int)
    requires
        0 <= w,
        0 <= h,
        fewer.len() == w * h,
        more.len() == w * h,
        forall|p: int| is_set(fewer, p) ==> #[trigger] is_set(more, p),
    ensures
        forall|p: int|
            is_set(dilation(fewer, w, h), p) ==> #[trigger] is_set(dilation(more, w, h), p),
{
    assert forall|p: int| is_set(dilation(fewer, w, h), p) implies #[trigger] is_set(
        dilation(more, w, h),
        p,
    ) by {
        let q: int = choose|q: int| 0 <= q < w * h && #[trigger] fewer[q] && near(q, p, w);
        assert(is_set(fewer, q));
        assert(is_set(more, q));
        assert(more[q] && near(q, p, w));
    }
}

/// Dilation sets no pixel of an empty map.
pub proof fn dilation_of_nothing(src: Seq<bool>, w: int, h: int)
    requires
        0 <= w,
        0 <= h,
        src.len() == w * h,
        forall|p: int| !#[trigger] is_set(src, p),
    ensures
        forall|p: int| !#[trigger] is_set(dilation(src, w, h), p),
{
    assert forall|p: int| !#[trigger] is_set(dilation(src, w, h), p) by {
        if is_set(dilation(src, w, h), p) {
            let q: int = choose|q: int| 0 <= q < w * h && #[trigger] src[q] && near(q, p, w);
            assert(is_set(src, q));
        }
    }
}

/// One step from `from` towards `to`.
spec fn towards(from: int, to: int) -> int {
    if from < to {
        from + 1
    } else if from > to {
        from - 1
    } else {
        from
    }
}

/// Dilation closes small gaps: two set pixels with at most two rows and two
/// columns between them are linked afterwards.
pub proof fn dilation_closes_gaps(src: Seq<bool>, w: int, h: int, p: int, q: int)
    requires
        0 < w,
        0 <= h,
        src.len() == w * h,
        is_set(src, p),
        is_set(src, q),
        -3 <= col(q, w) - col(p, w) <= 3,
        -3 <= row(q, w) - row(p, w) <= 3,
    ensures
        linked(dilation(src, w, h), w, p, q),
{
    let out: Seq<bool> = dilation(src, w, h);
    lemma_coordinates(p, w, h);
    lemma_coordinates(q, w, h);
    let (px, py, qx, qy) = (col(p, w), row(p, w), col(q, w), row(q, w));
    let (ax, ay) = (towards(px, qx), towards(py, qy));
    let (bx, by) = (towards(qx, px), towards(qy, py));
    lemma_pixel_at(ax, ay, w, h);
    lemma_pixel_at(bx, by, w, h);
    let a: int = ay * w + ax;
    let b: int = by * w + bx;
    dilation_extends(src, w, h);
    assert(is_set(out, p));
    assert(is_set(out, q));
    assert(src[p] && near(p, a, w));
    assert(src[q] && near(q, b, w));
    assert(is_set(out, a));
    assert(is_set(out, b));
    lemma_linked_reflexive(out, w, p);
    lemma_linked_step(out, w, p, p, a);
    lemma_linked_step(out, w, p, a, b);
    lemma_linked_step(out, w, p, b, q);
}

/// Dilation sets a pixel just where some set pixel lies no more than one column
/// and one row away.
pub proof fn dilation_reaches_one_pixel(src: Seq<bool>, w: int, h: int, p: int)
    requires
        src.len() == w * h,
        0 <= p < w * h,
    ensures
        dilation(src, w, h)[p] <==> exists|q: int|
            0 <= q < w * h && #[trigger] src[q] && -1 <= p % w - q % w <= 1 && -1 <= p / w - q / w
                <= 1,
{
    if dilation(src, w, h)[p] {
        let q: int = choose|q: int| 0 <= q < w * h && #[trigger] src[q] && near(q, p, w);
        assert(src[q] && -1 <= p % w - q % w <= 1 && -1 <= p / w - q / w <= 1);
    }
    if exists|q: int|
        0 <= q < w * h && #[trigger] src[q] && -1 <= p % w - q % w <= 1 && -1 <= p / w - q / w <= 1 {
        let q: int = choose|q: int|
            0 <= q < w * h && #[trigger] src[q] && -1 <= p % w - q % w <= 1 && -1 <= p / w - q / w
                <= 1;
        assert(src[q] && near(q, p, w));
    }
}

} // verus!
