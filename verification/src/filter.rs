//! Grayscale conversion and smoothing of a frame.

use crate::grid::{col, lemma_coordinates, lemma_neighbours, lemma_width_positive, row};
use crate::number::{faithful, from_usize, prod, quot, sum, Arithmetic, Single, ZERO};
use vstd::prelude::*;

verus! {

/// Bit pattern of 0.299, the weight of red in the brightness.
pub const RED_WEIGHT: u32 = 0x3e99_1687;

/// Bit pattern of 0.587, the weight of green in the brightness.
pub const GREEN_WEIGHT: u32 = 0x3f16_45a2;

/// Bit pattern of 0.114, the weight of blue in the brightness.
pub const BLUE_WEIGHT: u32 = 0x3de9_78d5;

/// Bit pattern of 3.0.
pub const THREE: u32 = 0x4040_0000;

/// Brightness of a pixel.
pub open spec fn luma<A: Arithmetic>(r: u8, g: u8, b: u8) -> Single {
    A::sum_of(
        A::sum_of(
            A::prod_of(Single::of(RED_WEIGHT), A::from_usize_of(r as usize)),
            A::prod_of(Single::of(GREEN_WEIGHT), A::from_usize_of(g as usize)),
        ),
        A::prod_of(Single::of(BLUE_WEIGHT), A::from_usize_of(b as usize)),
    )
}

/// Brightness of `n` RGBA pixels; black where the frame has no such pixel.
pub open spec fn gray_levels<A: Arithmetic>(rgba: Seq<u8>, n: nat) -> Seq<Single> {
    Seq::new(
        n,
        |i: int|
            if 4 * i + 4 <= rgba.len() {
                luma::<A>(rgba[4 * i], rgba[4 * i + 1], rgba[4 * i + 2])
            } else {
                Single::of(ZERO)
            },
    )
}

/// Brightness of the pixels of a frame, row by row.
pub fn to_gray<A: Arithmetic>(rgba: &[u8], w: usize, h: usize) -> (g: Vec<Single>)
    requires
        w * h <= usize::MAX,
    ensures
        g@.len() == w * h,
        faithful::<A>() ==> g@ == gray_levels::<A>(rgba@, (w * h) as nat),
{
    assert(0 <= w * h) by (nonlinear_arith);
    let n: usize = w * h;
    let mut g: Vec<Single> = Vec::new();
    let mut i: usize = 0;
    while i < n
        invariant
            i <= n,
            n == w * h,
            g@.len() == i,
            faithful::<A>() ==> forall|k: int|
                0 <= k < i ==> #[trigger] g@[k] == gray_levels::<A>(rgba@, n as nat)[k],
        decreases n - i,
    {
        let level: Single = if i < rgba.len() / 4 {
            let r: Single = prod::<A>(
                Single::of(RED_WEIGHT),
                from_usize::<A>(rgba[4 * i] as usize),
            );
            let green: Single = prod::<A>(
                Single::of(GREEN_WEIGHT),
                from_usize::<A>(rgba[4 * i + 1] as usize),
            );
            let b: Single = prod::<A>(
                Single::of(BLUE_WEIGHT),
                from_usize::<A>(rgba[4 * i + 2] as usize),
            );
            sum::<A>(sum::<A>(r, green), b)
        } else {
            Single::of(ZERO)
        };
        g.push(level);
        i = i + 1;
    }
    assert(faithful::<A>() ==> g@ =~= gray_levels::<A>(rgba@, n as nat));
    g
}

/// Mean of three levels.
pub open spec fn mean3<A: Arithmetic>(a: Single, b: Single, c: Single) -> Single {
    A::quot_of(A::sum_of(A::sum_of(a, b), c), Single::of(THREE))
}

fn mean_of_three<A: Arithmetic>(a: Single, b: Single, c: Single) -> (r: Single)
    ensures
        faithful::<A>() ==> r == mean3::<A>(a, b, c),
{
    quot::<A>(sum::<A>(sum::<A>(a, b), c), Single::of(THREE))
}

/// The pixel left of `p`, or `p` itself in the first column.
pub open spec fn left_of(p: int, w: int) -> int {
    if col(p, w) > 0 {
        p - 1
    } else {
        p
    }
}

/// The pixel right of `p`, or `p` itself in the last column.
pub open spec fn right_of(p: int, w: int) -> int {
    if col(p, w) + 1 < w {
        p + 1
    } else {
        p
    }
}

/// The pixel above `p`, or `p` itself in the first row.
pub open spec fn above(p: int, w: int) -> int {
    if row(p, w) > 0 {
        p - w
    } else {
        p
    }
}

/// The pixel below `p`, or `p` itself in the last row.
pub open spec fn below(p: int, w: int, h: int) -> int {
    if row(p, w) + 1 < h {
        p + w
    } else {
        p
    }
}

/// Each level averaged with its neighbours in the row.
pub open spec fn row_means<A: Arithmetic>(src: Seq<Single>, w: int, h: int) -> Seq<Single> {
    Seq::new(
        (w * h) as nat,
        |p: int| mean3::<A>(src[left_of(p, w)], src[p], src[right_of(p, w)]),
    )
}

/// Each level averaged with its neighbours in the column.
pub open spec fn column_means<A: Arithmetic>(src: Seq<Single>, w: int, h: int) -> Seq<Single> {
    Seq::new(
        (w * h) as nat,
        |p: int| mean3::<A>(src[above(p, w)], src[p], src[below(p, w, h)]),
    )
}

/// The 3x3 box blur with clamped borders.
pub open spec fn box_blur<A: Arithmetic>(src: Seq<Single>, w: int, h: int) -> Seq<Single> {
    column_means::<A>(row_means::<A>(src, w, h), w, h)
}

/// Separable 3x3 box blur with clamped borders.
pub fn box_blur3<A: Arithmetic>(src: &[Single], w: usize, h: usize) -> (out: Vec<Single>)
    requires
        w * h <= src@.len(),
    ensures
        out@.len() == w * h,
        faithful::<A>() ==> out@ == box_blur::<A>(src@, w as int, h as int),
{
    let len: usize = src.len();
    assert(0 <= w * h) by (nonlinear_arith);
    let n: usize = w * h;
    let ghost wi: int = w as int;
    let ghost hi: int = h as int;
    let mut tmp: Vec<Single> = Vec::new();
    let mut p: usize = 0;
    while p < n
        invariant
            p <= n,
            n == w * h,
            n <= src@.len(),
            wi == w,
            hi == h,
            tmp@.len() == p,
            faithful::<A>() ==> forall|k: int|
                0 <= k < p ==> #[trigger] tmp@[k] == row_means::<A>(src@, wi, hi)[k],
        decreases n - p,
    {
        proof {
            lemma_width_positive(w as int, h as int);
            lemma_coordinates(p as int, wi, hi);
            lemma_neighbours(p as int, wi, hi);
        }
        let x: usize = p % w;
        let left: usize = if x > 0 {
            p - 1
        } else {
            p
        };
        let right: usize = if x + 1 < w {
            p + 1
        } else {
            p
        };
        tmp.push(mean_of_three::<A>(src[left], src[p], src[right]));
        p = p + 1;
    }
    let mut out: Vec<Single> = Vec::new();
    let mut q: usize = 0;
    while q < n
        invariant
            q <= n,
            n == w * h,
            wi == w,
            hi == h,
            tmp@.len() == n,
            out@.len() == q,
            faithful::<A>() ==> forall|k: int|
                0 <= k < q ==> #[trigger] out@[k] == column_means::<A>(tmp@, wi, hi)[k],
        decreases n - q,
    {
        proof {
            lemma_width_positive(w as int, h as int);
            lemma_coordinates(q as int, wi, hi);
            lemma_neighbours(q as int, wi, hi);
        }
        let y: usize = q / w;
        let up: usize = if y > 0 {
            q - w
        } else {
            q
        };
        let down: usize = if y + 1 < h {
            q + w
        } else {
            q
        };
        out.push(mean_of_three::<A>(tmp[up], tmp[q], tmp[down]));
        q = q + 1;
    }
    proof {
        if faithful::<A>() {
            assert(tmp@ =~= row_means::<A>(src@, wi, hi));
            assert(out@ =~= box_blur::<A>(src@, wi, hi));
        }
    }
    out
}

/// The level that the blur gives a raster of one level.
pub open spec fn flat_level<A: Arithmetic>(level: Single) -> Single {
    let m = mean3::<A>(level, level, level);
    mean3::<A>(m, m, m)
}

/// The blur of a raster of one level has one level.
pub proof fn blur_keeps_flatness<A: Arithmetic>(src: Seq<Single>, w: int, h: int, level: Single)
    requires
        0 <= w,
        0 <= h,
        forall|p: int| 0 <= p < w * h ==> #[trigger] src[p] == level,
    ensures
        forall|p: int|
            0 <= p < w * h ==> #[trigger] box_blur::<A>(src, w, h)[p] == flat_level::<A>(level),
{
    let m: Single = mean3::<A>(level, level, level);
    let rows: Seq<Single> = row_means::<A>(src, w, h);
    assert forall|p: int| 0 <= p < w * h implies #[trigger] rows[p] == m by {
        lemma_width_positive(w, h);
        lemma_coordinates(p, w, h);
        lemma_neighbours(p, w, h);
        assert(src[left_of(p, w)] == level);
        assert(src[right_of(p, w)] == level);
    }
    assert forall|p: int| 0 <= p < w * h implies #[trigger] box_blur::<A>(src, w, h)[p]
        == flat_level::<A>(level) by {
        lemma_width_positive(w, h);
        lemma_coordinates(p, w, h);
        lemma_neighbours(p, w, h);
        assert(rows[above(p, w)] == m);
        assert(rows[below(p, w, h)] == m);
        assert(rows[p] == m);
    }
}

/// The brightness of a frame rests on its colours alone: neither the opacity of
/// a pixel nor what follows the last pixel has a part in it.
pub proof fn brightness_rests_on_colours<A: Arithmetic>(a: Seq<u8>, b: Seq<u8>, n: nat)
    requires
        4 * n <= a.len(),
        4 * n <= b.len(),
        forall|k: int| 0 <= k < 4 * n && k % 4 != 3 ==> #[trigger] a[k] == b[k],
    ensures
        gray_levels::<A>(a, n) == gray_levels::<A>(b, n),
{
    assert forall|i: int| 0 <= i < n implies #[trigger] gray_levels::<A>(a, n)[i] == gray_levels::<
        A,
    >(b, n)[i] by {
        assert(a[4 * i] == b[4 * i]);
        assert(a[4 * i + 1] == b[4 * i + 1]);
        assert(a[4 * i + 2] == b[4 * i + 2]);
    }
    assert(gray_levels::<A>(a, n) =~= gray_levels::<A>(b, n));
}

} // verus!
