//! Canny edge detector: Sobel gradients, non-maximum suppression, double
//! threshold with hysteresis.

use crate::grid::{
    col, is_set, is_walk, lemma_coordinates, lemma_neighbours, lemma_step, lemma_width_positive,
    linked, near, row,
};
use crate::hysteresis::{anchored, anchoring_needs_strength, hysteresis, is_anchored};
use crate::number::{
    atan2, degrees, diff, faithful, from_usize, prod, quot, rem, sqrt, sum, to_usize, Arithmetic,
    Single, INFINITY, ONE, ZERO,
};
use vstd::prelude::*;

verus! {

/// Number of bins of the gradient histogram.
pub const BINS: usize = 256;

/// Bit pattern of 2.0.
pub const TWO: u32 = 0x4000_0000;

/// Bit pattern of 0.4, the low threshold as a part of the high one.
pub const LOW_PART: u32 = 0x3ecc_cccd;

/// Bit pattern of 180.0.
pub const HALF_TURN: u32 = 0x4334_0000;

/// Bit pattern of 22.5.
pub const SECTOR_1: u32 = 0x41b4_0000;

/// Bit pattern of 67.5.
pub const SECTOR_2: u32 = 0x4287_0000;

/// Bit pattern of 112.5.
pub const SECTOR_3: u32 = 0x42e1_0000;

/// Bit pattern of 157.5.
pub const SECTOR_4: u32 = 0x431d_8000;

/// The largest of the levels and 0.
pub open spec fn peak(levels: Seq<Single>) -> Single
    decreases levels.len(),
{
    if levels.len() == 0 {
        Single::of(ZERO)
    } else {
        peak(levels.drop_last()).larger(levels.last())
    }
}

/// Histogram bins per unit of level.
pub open spec fn bin_scale<A: Arithmetic>(top: Single) -> Single {
    A::quot_of(A::diff_of(A::from_usize_of(BINS), Single::of(ONE)), top)
}

/// The histogram bin of a level; levels that are not above 0 have none, which
/// is written as -1.
pub open spec fn bin_of<A: Arithmetic>(scale: Single, level: Single) -> int {
    if Single::of(ZERO).less(level) {
        let b: int = A::to_usize_of(A::prod_of(level, scale)) as int;
        if b < BINS {
            b
        } else {
            BINS - 1
        }
    } else {
        -1
    }
}

/// The bins of all levels.
pub open spec fn bins_of<A: Arithmetic>(scale: Single, levels: Seq<Single>) -> Seq<int> {
    levels.map_values(|level: Single| bin_of::<A>(scale, level))
}

/// How many entries are `b` or higher.
pub open spec fn count_from(bins: Seq<int>, b: int) -> int
    decreases bins.len(),
{
    if bins.len() == 0 {
        0
    } else {
        count_from(bins.drop_last(), b) + if bins.last() >= b {
            1int
        } else {
            0
        }
    }
}

/// `b` is the highest bin from which on `target` entries are kept, or 0 if
/// there are fewer.
pub open spec fn is_cut(bins: Seq<int>, target: int, b: int) -> bool {
    &&& 0 <= b < BINS
    &&& b > 0 ==> count_from(bins, b) >= target
    &&& count_from(bins, b + 1) < target
}

/// The bin at which the histogram is cut.
pub open spec fn cut(bins: Seq<int>, target: int) -> int {
    choose|b: int| is_cut(bins, target, b)
}

/// How many entries the upper part of the histogram is to hold.
pub open spec fn quota<A: Arithmetic>(keep_frac: Single, total: int) -> int {
    let t: int = A::to_usize_of(A::prod_of(keep_frac, A::from_usize_of(total as usize))) as int;
    if t > 1 {
        t
    } else {
        1
    }
}

/// The level above which the top `keep_frac` of the levels above 0 lie.
pub open spec fn percentile<A: Arithmetic>(mag: Seq<Single>, keep_frac: Single) -> Single {
    let top = peak(mag);
    if !Single::of(ZERO).less(top) {
        Single::of(INFINITY)
    } else {
        let scale = bin_scale::<A>(top);
        let bins = bins_of::<A>(scale, mag);
        let b = cut(bins, quota::<A>(keep_frac, count_from(bins, 0)));
        A::quot_of(A::from_usize_of(b as usize), scale)
    }
}

/// How many entries are exactly `b`.
spec fn count_of(bins: Seq<int>, b: int) -> int
    decreases bins.len(),
{
    if bins.len() == 0 {
        0
    } else {
        count_of(bins.drop_last(), b) + if bins.last() == b {
            1int
        } else {
            0
        }
    }
}

proof fn lemma_count_split(bins: Seq<int>, b: int)
    ensures
        count_from(bins, b) == count_from(bins, b + 1) + count_of(bins, b),
        0 <= count_of(bins, b) <= bins.len(),
        0 <= count_from(bins, b + 1),
        count_from(bins, b) <= bins.len(),
    decreases bins.len(),
{
    if bins.len() > 0 {
        lemma_count_split(bins.drop_last(), b);
    }
}

/// The higher the bin, the fewer entries lie at it or above.
proof fn lemma_count_monotone(bins: Seq<int>, a: int, b: int)
    requires
        a <= b,
    ensures
        count_from(bins, b) <= count_from(bins, a),
    decreases bins.len(),
{
    if bins.len() > 0 {
        lemma_count_monotone(bins.drop_last(), a, b);
    }
}

proof fn lemma_count_above(bins: Seq<int>, top: int)
    requires
        forall|k: int| 0 <= k < bins.len() ==> #[trigger] bins[k] < top,
    ensures
        count_from(bins, top) == 0,
    decreases bins.len(),
{
    if bins.len() > 0 {
        assert(bins[bins.len() - 1] < top);
        assert forall|k: int| 0 <= k < bins.drop_last().len() implies #[trigger] bins.drop_last()[k]
            < top by {
            assert(bins.drop_last()[k] == bins[k]);
        }
        lemma_count_above(bins.drop_last(), top);
    }
}

/// The cut is unique.
proof fn lemma_cut(bins: Seq<int>, target: int, b: int)
    requires
        is_cut(bins, target, b),
    ensures
        cut(bins, target) == b,
{
    let c: int = cut(bins, target);
    assert(is_cut(bins, target, c));
    if b < c {
        lemma_count_monotone(bins, b + 1, c);
    }
    if c < b {
        lemma_count_monotone(bins, c + 1, b);
    }
}

/// Magnitude threshold that keeps the top `keep_frac` of the gradients above 0.
pub fn nonzero_percentile<A: Arithmetic>(mag: &[Single], keep_frac: Single) -> (level: Single)
    ensures
        faithful::<A>() ==> level == percentile::<A>(mag@, keep_frac),
        !Single::of(ZERO).less(peak(mag@)) ==> level == Single::of(INFINITY),
{
    let n: usize = mag.len();
    let mut top: Single = Single::of(ZERO);
    let mut i: usize = 0;
    assert(mag@.take(0) =~= Seq::empty());
    while i < n
        invariant
            i <= n,
            n == mag@.len(),
            top == peak(mag@.take(i as int)),
        decreases n - i,
    {
        top = top.larger(mag[i]);
        proof {
            let next: Seq<Single> = mag@.take(i + 1);
            assert(next.drop_last() =~= mag@.take(i as int));
            assert(next.last() == mag@[i as int]);
        }
        i = i + 1;
    }
    assert(mag@.take(n as int) =~= mag@);
    if !Single::of(ZERO).less(top) {
        return Single::of(INFINITY);
    }
    let scale: Single = quot::<A>(diff::<A>(from_usize::<A>(BINS), Single::of(ONE)), top);
    let mut hist: Vec<usize> = vec![0; BINS];
    let mut nz: usize = 0;
    let ghost mut bins: Seq<int> = Seq::empty();
    let mut k: usize = 0;
    while k < n
        invariant
            k <= n,
            n == mag@.len(),
            bins.len() == k,
            hist@.len() == BINS,
            forall|b: int| 0 <= b < BINS ==> #[trigger] hist@[b] == count_of(bins, b),
            nz == count_from(bins, 0),
            nz <= k,
            forall|j: int| 0 <= j < k ==> -1 <= #[trigger] bins[j] < BINS,
            faithful::<A>() ==> forall|j: int|
                0 <= j < k ==> #[trigger] bins[j] == bin_of::<A>(scale, mag@[j]),
        decreases n - k,
    {
        let ghost before: Seq<int> = bins;
        let ghost had: Seq<usize> = hist@;
        let m: Single = mag[k];
        if Single::of(ZERO).less(m) {
            let raw: usize = to_usize::<A>(prod::<A>(m, scale));
            let b: usize = if raw < BINS {
                raw
            } else {
                BINS - 1
            };
            proof {
                bins = bins.push(b as int);
                assert(bins.drop_last() =~= before);
                lemma_count_split(before, b as int);
            }
            hist[b] = hist[b] + 1;
            nz = nz + 1;
            proof {
                assert forall|c: int| 0 <= c < BINS implies #[trigger] hist@[c] == count_of(
                    bins,
                    c,
                ) by {
                    assert(had[c] == count_of(before, c));
                }
            }
        } else {
            proof {
                bins = bins.push(-1);
                assert(bins.drop_last() =~= before);
                assert forall|c: int| 0 <= c < BINS implies #[trigger] hist@[c] == count_of(
                    bins,
                    c,
                ) by {
                    assert(had[c] == count_of(before, c));
                }
            }
        }
        k = k + 1;
    }
    let raw: usize = to_usize::<A>(prod::<A>(keep_frac, from_usize::<A>(nz)));
    let target: usize = if raw > 1 {
        raw
    } else {
        1
    };
    let mut acc: usize = 0;
    let mut bin: usize = BINS;
    let mut reached: bool = false;
    proof {
        lemma_count_above(bins, BINS as int);
    }
    while bin > 0 && !reached
        invariant
            bin <= BINS,
            bins.len() == n,
            hist@.len() == BINS,
            target >= 1,
            forall|b: int| 0 <= b < BINS ==> #[trigger] hist@[b] == count_of(bins, b),
            acc == count_from(bins, bin as int),
            acc <= n,
            reached ==> bin < BINS && acc >= target && count_from(bins, bin + 1) < target,
            !reached ==> acc < target,
        decreases bin + if reached {
            0int
        } else {
            1
        },
    {
        bin = bin - 1;
        proof {
            lemma_count_split(bins, bin as int);
        }
        acc = acc + hist[bin];
        if acc >= target {
            reached = true;
        }
    }
    proof {
        lemma_count_split(bins, 0);
        assert(is_cut(bins, target as int, bin as int)) by {
            if !reached {
                lemma_count_monotone(bins, 0, 1);
            }
        }
        lemma_cut(bins, target as int, bin as int);
        if faithful::<A>() {
            assert(bins =~= bins_of::<A>(scale, mag@));
        }
    }
    quot::<A>(from_usize::<A>(bin), scale)
}

/// Gradient of the levels at a pixel: its x and y part and its magnitude.
#[derive(Clone, Copy)]
pub struct Gradient {
    pub x: Single,
    pub y: Single,
    pub mag: Single,
}

/// Pixel `p` is not on the border of the raster.
pub open spec fn is_inner(p: int, w: int, h: int) -> bool {
    &&& 0 < col(p, w)
    &&& col(p, w) + 1 < w
    &&& 0 < row(p, w)
    &&& row(p, w) + 1 < h
}

/// `a + 2 b + c`.
pub open spec fn weighted<A: Arithmetic>(a: Single, b: Single, c: Single) -> Single {
    A::sum_of(A::sum_of(a, A::prod_of(Single::of(TWO), b)), c)
}

/// Sobel operator in x direction.
pub open spec fn sobel_x<A: Arithmetic>(g: Seq<Single>, w: int, p: int) -> Single {
    A::diff_of(
        weighted::<A>(g[p - w + 1], g[p + 1], g[p + w + 1]),
        weighted::<A>(g[p - w - 1], g[p - 1], g[p + w - 1]),
    )
}

/// Sobel operator in y direction.
pub open spec fn sobel_y<A: Arithmetic>(g: Seq<Single>, w: int, p: int) -> Single {
    A::diff_of(
        weighted::<A>(g[p + w - 1], g[p + w], g[p + w + 1]),
        weighted::<A>(g[p - w - 1], g[p - w], g[p - w + 1]),
    )
}

/// Gradient at pixel `p`; zero on the border.
pub open spec fn gradient<A: Arithmetic>(g: Seq<Single>, w: int, h: int, p: int) -> Gradient {
    if is_inner(p, w, h) {
        let x = sobel_x::<A>(g, w, p);
        let y = sobel_y::<A>(g, w, p);
        Gradient { x, y, mag: A::sqrt_of(A::sum_of(A::prod_of(x, x), A::prod_of(y, y))) }
    } else {
        Gradient { x: Single::of(ZERO), y: Single::of(ZERO), mag: Single::of(ZERO) }
    }
}

/// Gradients of all pixels.
pub open spec fn gradients<A: Arithmetic>(g: Seq<Single>, w: int, h: int) -> Seq<Gradient> {
    Seq::new((w * h) as nat, |p: int| gradient::<A>(g, w, h, p))
}

/// Magnitudes of gradients.
pub open spec fn magnitudes(grads: Seq<Gradient>) -> Seq<Single> {
    grads.map_values(|g: Gradient| g.mag)
}

/// Direction of a gradient in degrees, without its sense: from 0 up to 180.
pub open spec fn direction<A: Arithmetic>(g: Gradient) -> Single {
    A::rem_of(
        A::sum_of(A::degrees_of(A::atan2_of(g.y, g.x)), Single::of(HALF_TURN)),
        Single::of(HALF_TURN),
    )
}

/// The step in columns and rows to the neighbour that lies in the given
/// direction. Rows grow downwards, so that 45 degrees point to the lower right
/// and 135 degrees to the lower left.
pub open spec fn heading(angle: Single) -> (int, int) {
    if angle.less(Single::of(SECTOR_1)) || Single::of(SECTOR_4).at_most(angle) {
        (1, 0)
    } else if angle.less(Single::of(SECTOR_2)) {
        (1, 1)
    } else if angle.less(Single::of(SECTOR_3)) {
        (0, 1)
    } else {
        (-1, 1)
    }
}

/// Distance in pixels to the two neighbours along the given gradient direction:
/// the neighbour ahead has the index `p + stride`, the one behind `p - stride`.
pub open spec fn stride(angle: Single, w: int) -> int {
    heading(angle).1 * w + heading(angle).0
}

/// The magnitude at `p` if it reaches the low threshold and neither neighbour
/// along the gradient exceeds it; else 0.
pub open spec fn suppressed<A: Arithmetic>(
    grads: Seq<Gradient>,
    w: int,
    h: int,
    low: Single,
    p: int,
) -> Single {
    let m = grads[p].mag;
    let d = stride(direction::<A>(grads[p]), w);
    if is_inner(p, w, h) && !m.less(low) && grads[p - d].mag.at_most(m) && grads[p
        + d].mag.at_most(m) {
        m
    } else {
        Single::of(ZERO)
    }
}

/// Thinned gradient magnitudes.
pub open spec fn thinned<A: Arithmetic>(
    grads: Seq<Gradient>,
    w: int,
    h: int,
    low: Single,
) -> Seq<Single> {
    Seq::new((w * h) as nat, |p: int| suppressed::<A>(grads, w, h, low, p))
}

/// Pixels whose level reaches a threshold.
pub open spec fn reaching(levels: Seq<Single>, threshold: Single) -> Seq<bool> {
    levels.map_values(|level: Single| threshold.at_most(level))
}

/// Pixels whose level reaches one of two thresholds.
pub open spec fn reaching_either(levels: Seq<Single>, low: Single, high: Single) -> Seq<bool> {
    levels.map_values(|level: Single| high.at_most(level) || low.at_most(level))
}

/// The edge map that double threshold and hysteresis make of thinned
/// magnitudes.
pub open spec fn edges_of(thin: Seq<Single>, w: int, low: Single, high: Single) -> Seq<bool> {
    anchored(reaching_either(thin, low, high), reaching(thin, high), w)
}

/// The Canny edge map of a raster of levels.
pub open spec fn canny_edges<A: Arithmetic>(
    g: Seq<Single>,
    w: int,
    h: int,
    strong_frac: Single,
) -> Seq<bool> {
    let grads = gradients::<A>(g, w, h);
    let high = percentile::<A>(magnitudes(grads), strong_frac);
    let low = A::prod_of(high, Single::of(LOW_PART));
    edges_of(thinned::<A>(grads, w, h, low), w, low, high)
}

fn weigh<A: Arithmetic>(a: Single, b: Single, c: Single) -> (r: Single)
    ensures
        faithful::<A>() ==> r == weighted::<A>(a, b, c),
{
    sum::<A>(sum::<A>(a, prod::<A>(Single::of(TWO), b)), c)
}

/// Sobel gradients of a raster of levels.
pub fn sobel<A: Arithmetic>(gray: &[Single], w: usize, h: usize) -> (grads: Vec<Gradient>)
    requires
        w * h <= gray@.len(),
    ensures
        grads@.len() == w * h,
        faithful::<A>() ==> grads@ == gradients::<A>(gray@, w as int, h as int),
{
    let len: usize = gray.len();
    assert(0 <= w * h) by (nonlinear_arith);
    let n: usize = w * h;
    let ghost wi: int = w as int;
    let ghost hi: int = h as int;
    let mut grads: Vec<Gradient> = Vec::new();
    let mut i: usize = 0;
    while i < n
        invariant
            i <= n,
            n == w * h,
            n <= gray@.len(),
            gray@.len() == len,
            wi == w,
            hi == h,
            grads@.len() == i,
            faithful::<A>() ==> forall|p: int|
                0 <= p < i ==> #[trigger] grads@[p] == gradient::<A>(gray@, wi, hi, p),
        decreases n - i,
    {
        proof {
            lemma_width_positive(wi, hi);
            lemma_coordinates(i as int, wi, hi);
            lemma_neighbours(i as int, wi, hi);
        }
        let x: usize = i % w;
        let y: usize = i / w;
        let g: Gradient = if x > 0 && x + 1 < w && y > 0 && y + 1 < h {
            let a: Single = gray[i - w - 1];
            let b: Single = gray[i - w];
            let c: Single = gray[i - w + 1];
            let d: Single = gray[i - 1];
            let f: Single = gray[i + 1];
            let g: Single = gray[i + w - 1];
            let hh: Single = gray[i + w];
            let k: Single = gray[i + w + 1];
            let sx: Single = diff::<A>(weigh::<A>(c, f, k), weigh::<A>(a, d, g));
            let sy: Single = diff::<A>(weigh::<A>(g, hh, k), weigh::<A>(a, b, c));
            let mag: Single = sqrt::<A>(sum::<A>(prod::<A>(sx, sx), prod::<A>(sy, sy)));
            Gradient { x: sx, y: sy, mag }
        } else {
            Gradient { x: Single::of(ZERO), y: Single::of(ZERO), mag: Single::of(ZERO) }
        };
        grads.push(g);
        i = i + 1;
    }
    assert(faithful::<A>() ==> grads@ =~= gradients::<A>(gray@, wi, hi));
    grads
}

/// Non-maximum suppression along the gradient direction.
pub fn suppress<A: Arithmetic>(grads: &[Gradient], w: usize, h: usize, low: Single) -> (nms: Vec<
    Single,
>)
    requires
        w * h == grads@.len(),
    ensures
        nms@.len() == w * h,
        faithful::<A>() ==> nms@ == thinned::<A>(grads@, w as int, h as int, low),
{
    let n: usize = grads.len();
    let ghost wi: int = w as int;
    let ghost hi: int = h as int;
    let mut nms: Vec<Single> = Vec::new();
    let mut i: usize = 0;
    while i < n
        invariant
            i <= n,
            n == w * h,
            n == grads@.len(),
            wi == w,
            hi == h,
            nms@.len() == i,
            faithful::<A>() ==> forall|p: int|
                0 <= p < i ==> #[trigger] nms@[p] == suppressed::<A>(grads@, wi, hi, low, p),
        decreases n - i,
    {
        proof {
            lemma_width_positive(wi, hi);
            lemma_coordinates(i as int, wi, hi);
            lemma_neighbours(i as int, wi, hi);
        }
        let x: usize = i % w;
        let y: usize = i / w;
        let m: Single = grads[i].mag;
        let mut level: Single = Single::of(ZERO);
        if x > 0 && x + 1 < w && y > 0 && y + 1 < h && !m.less(low) {
            let turn: Single = degrees::<A>(atan2::<A>(grads[i].y, grads[i].x));
            let ang: Single = rem::<A>(
                sum::<A>(turn, Single::of(HALF_TURN)),
                Single::of(HALF_TURN),
            );
            let d: usize = if ang.less(Single::of(SECTOR_1)) || Single::of(SECTOR_4).at_most(ang) {
                1
            } else if ang.less(Single::of(SECTOR_2)) {
                w + 1
            } else if ang.less(Single::of(SECTOR_3)) {
                w
            } else {
                w - 1
            };
            assert(0 * wi == 0 && 1 * wi == wi) by (nonlinear_arith);
            assert(d == stride(ang, wi));
            if grads[i - d].mag.at_most(m) && grads[i + d].mag.at_most(m) {
                level = m;
            }
        }
        nms.push(level);
        i = i + 1;
    }
    assert(faithful::<A>() ==> nms@ =~= thinned::<A>(grads@, wi, hi, low));
    nms
}

/// Double threshold with hysteresis over thinned magnitudes.
pub fn link_edges(nms: &[Single], w: usize, h: usize, low: Single, high: Single) -> (out: Vec<bool>)
    requires
        w * h == nms@.len(),
    ensures
        out@ == edges_of(nms@, w as int, low, high),
{
    let n: usize = nms.len();
    let mut strong: Vec<bool> = Vec::new();
    let mut kept: Vec<bool> = Vec::new();
    let mut i: usize = 0;
    while i < n
        invariant
            i <= n,
            n == nms@.len(),
            strong@.len() == i,
            kept@.len() == i,
            forall|p: int| 0 <= p < i ==> #[trigger] strong@[p] == high.at_most(nms@[p]),
            forall|p: int|
                0 <= p < i ==> #[trigger] kept@[p] == (high.at_most(nms@[p]) || low.at_most(
                    nms@[p],
                )),
        decreases n - i,
    {
        let is_strong: bool = high.at_most(nms[i]);
        let is_weak: bool = low.at_most(nms[i]);
        strong.push(is_strong);
        kept.push(is_strong || is_weak);
        i = i + 1;
    }
    proof {
        assert(strong@ =~= reaching(nms@, high));
        assert(kept@ =~= reaching_either(nms@, low, high));
    }
    hysteresis(&kept, &strong, w, h)
}

/// Canny edge detector: Sobel gradients, non-maximum suppression, double
/// threshold with hysteresis. Returns a thin binary edge map.
pub fn canny<A: Arithmetic>(gray: &[Single], w: usize, h: usize, strong_frac: Single) -> (out: Vec<
    bool,
>)
    requires
        w * h <= gray@.len(),
    ensures
        out@.len() == w * h,
        faithful::<A>() ==> out@ == canny_edges::<A>(gray@, w as int, h as int, strong_frac),
{
    let grads: Vec<Gradient> = sobel::<A>(gray, w, h);
    let n: usize = grads.len();
    let mut mag: Vec<Single> = Vec::new();
    let mut i: usize = 0;
    while i < n
        invariant
            i <= n,
            n == grads@.len(),
            mag@.len() == i,
            forall|p: int| 0 <= p < i ==> #[trigger] mag@[p] == grads@[p].mag,
        decreases n - i,
    {
        mag.push(grads[i].mag);
        i = i + 1;
    }
    assert(mag@ =~= magnitudes(grads@));
    let high: Single = nonzero_percentile::<A>(mag.as_slice(), strong_frac);
    let low: Single = prod::<A>(high, Single::of(LOW_PART));
    let nms: Vec<Single> = suppress::<A>(grads.as_slice(), w, h, low);
    link_edges(nms.as_slice(), w, h, low, high)
}

/// Suppression keeps only maxima along the gradient: a magnitude that stays is
/// not exceeded by that of the neighbour in the direction of the gradient, nor by
/// that of the neighbour opposite.
pub proof fn suppression_keeps_maxima<A: Arithmetic>(
    grads: Seq<Gradient>,
    w: int,
    h: int,
    low: Single,
    p: int,
)
    requires
        0 <= w,
        0 <= h,
        grads.len() == w * h,
        0 <= p < w * h,
        Single::of(ZERO).less(thinned::<A>(grads, w, h, low)[p]),
    ensures
        ({
            let (dx, dy) = heading(direction::<A>(grads[p]));
            let ahead = p + dy * w + dx;
            let behind = p - dy * w - dx;
            &&& thinned::<A>(grads, w, h, low)[p] == grads[p].mag
            &&& 0 <= ahead < w * h
            &&& col(ahead, w) == col(p, w) + dx
            &&& row(ahead, w) == row(p, w) + dy
            &&& grads[ahead].mag.at_most(grads[p].mag)
            &&& 0 <= behind < w * h
            &&& col(behind, w) == col(p, w) - dx
            &&& row(behind, w) == row(p, w) - dy
            &&& grads[behind].mag.at_most(grads[p].mag)
        }),
{
    lemma_width_positive(w, h);
    let (dx, dy) = heading(direction::<A>(grads[p]));
    assert(is_inner(p, w, h));
    lemma_step(p, w, h, dx, dy);
    lemma_step(p, w, h, -dx, -dy);
    assert((-dy) * w == -(dy * w)) by (nonlinear_arith);
    assert(stride(direction::<A>(grads[p]), w) == dy * w + dx);
}

/// The peak bounds all levels that are numbers, and it is one of them or 0.
pub proof fn peak_is_greatest(levels: Seq<Single>)
    ensures
        !peak(levels).is_nan(),
        Single::of(ZERO).at_most(peak(levels)),
        forall|k: int| 0 <= k < levels.len() ==> !peak(levels).less(#[trigger] levels[k]),
        peak(levels) == Single::of(ZERO) || levels.contains(peak(levels)),
    decreases levels.len(),
{
    if levels.len() > 0 {
        let rest: Seq<Single> = levels.drop_last();
        peak_is_greatest(rest);
        assert forall|k: int| 0 <= k < levels.len() implies !peak(levels).less(
            #[trigger] levels[k],
        ) by {
            if k < rest.len() {
                assert(levels[k] == rest[k]);
            }
        }
        if rest.contains(peak(rest)) {
            let k: int = choose|k: int| 0 <= k < rest.len() && rest[k] == peak(rest);
            assert(levels[k] == peak(rest));
        }
        assert(levels[levels.len() - 1] == levels.last());
    }
}

/// The highest bin from `b` down at which the histogram can be cut.
proof fn lemma_some_cut(bins: Seq<int>, target: int, b: int) -> (c: int)
    requires
        0 <= b < BINS,
        count_from(bins, b + 1) < target,
    ensures
        is_cut(bins, target, c),
    decreases b,
{
    if b == 0 || count_from(bins, b) >= target {
        b
    } else {
        lemma_some_cut(bins, target, b - 1)
    }
}

/// The cut of a histogram keeps at least as many entries as asked for, where
/// there are so many, and not so many above it.
pub proof fn cut_keeps_the_quota(bins: Seq<int>, target: int)
    requires
        forall|k: int| 0 <= k < bins.len() ==> #[trigger] bins[k] < BINS,
        1 <= target,
    ensures
        0 <= cut(bins, target) < BINS,
        target <= count_from(bins, 0) ==> target <= count_from(bins, cut(bins, target)),
        count_from(bins, cut(bins, target) + 1) < target,
{
    lemma_count_above(bins, BINS as int);
    let c: int = lemma_some_cut(bins, target, BINS - 1);
    lemma_cut(bins, target, c);
}

/// Where no gradient is above 0, nothing is an edge.
pub proof fn no_gradient_no_edges<A: Arithmetic>(
    g: Seq<Single>,
    w: int,
    h: int,
    strong_frac: Single,
)
    requires
        0 <= w,
        0 <= h,
        forall|p: int|
            0 <= p < w * h ==> !Single::of(ZERO).less((#[trigger] gradients::<A>(g, w, h)[p]).mag),
    ensures
        forall|p: int| !#[trigger] is_set(canny_edges::<A>(g, w, h, strong_frac), p),
{
    let grads: Seq<Gradient> = gradients::<A>(g, w, h);
    let mags: Seq<Single> = magnitudes(grads);
    let zero: Single = Single::of(ZERO);
    peak_is_greatest(mags);
    assert(!zero.less(peak(mags))) by {
        if mags.contains(peak(mags)) {
            let k: int = choose|k: int| 0 <= k < mags.len() && mags[k] == peak(mags);
            assert(mags[k] == grads[k].mag);
        }
    }
    let high: Single = percentile::<A>(mags, strong_frac);
    assert(high == Single::of(INFINITY));
    let low: Single = A::prod_of(high, Single::of(LOW_PART));
    let thin: Seq<Single> = thinned::<A>(grads, w, h, low);
    assert forall|p: int| !#[trigger] is_set(reaching(thin, high), p) by {
        if 0 <= p < thin.len() {
            assert(0 <= p < w * h);
            assert(!zero.less(grads[p].mag));
            assert(thin[p] == zero || thin[p] == grads[p].mag);
            assert(!high.at_most(thin[p]));
        }
    }
    anchoring_needs_strength(reaching_either(thin, low, high), reaching(thin, high), w);
}

/// The magnitude of the gradient between pixels of one level.
pub open spec fn flat_magnitude<A: Arithmetic>(level: Single) -> Single {
    let side = weighted::<A>(level, level, level);
    let d = A::diff_of(side, side);
    A::sqrt_of(A::sum_of(A::prod_of(d, d), A::prod_of(d, d)))
}

/// A raster of one level has no edges, where the arithmetic gives equal levels
/// no gradient above 0.
pub proof fn flat_raster_has_no_edges<A: Arithmetic>(
    g: Seq<Single>,
    w: int,
    h: int,
    strong_frac: Single,
    level: Single,
)
    requires
        0 <= w,
        0 <= h,
        forall|p: int| 0 <= p < w * h ==> #[trigger] g[p] == level,
        !Single::of(ZERO).less(flat_magnitude::<A>(level)),
    ensures
        forall|p: int| !#[trigger] is_set(canny_edges::<A>(g, w, h, strong_frac), p),
{
    assert forall|p: int| 0 <= p < w * h implies !Single::of(ZERO).less(
        (#[trigger] gradients::<A>(g, w, h)[p]).mag,
    ) by {
        if is_inner(p, w, h) {
            lemma_width_positive(w, h);
            lemma_neighbours(p, w, h);
            let side: Single = weighted::<A>(level, level, level);
            assert(sobel_x::<A>(g, w, p) == A::diff_of(side, side));
            assert(sobel_y::<A>(g, w, p) == A::diff_of(side, side));
        }
    }
    no_gradient_no_edges::<A>(g, w, h, strong_frac);
}

/// Suppression keeps every maximum along the gradient: an inner pixel whose
/// magnitude reaches the low threshold and is exceeded neither by that of the
/// neighbour in the direction of the gradient nor by that of the neighbour
/// opposite keeps its magnitude.
pub proof fn suppression_keeps_every_maximum<A: Arithmetic>(
    grads: Seq<Gradient>,
    w: int,
    h: int,
    low: Single,
    p: int,
)
    requires
        0 <= p < w * h,
        0 < col(p, w) && col(p, w) + 1 < w,
        0 < row(p, w) && row(p, w) + 1 < h,
        !grads[p].mag.less(low),
        ({
            let (dx, dy) = heading(direction::<A>(grads[p]));
            &&& grads[p + (dy * w + dx)].mag.at_most(grads[p].mag)
            &&& grads[p - (dy * w + dx)].mag.at_most(grads[p].mag)
        }),
    ensures
        thinned::<A>(grads, w, h, low)[p] == grads[p].mag,
{
}

/// Suppression leaves nothing else: on the border, below the low threshold and
/// where a neighbour along the gradient exceeds the magnitude, it is set to 0.
pub proof fn suppression_leaves_nothing_else<A: Arithmetic>(
    grads: Seq<Gradient>,
    w: int,
    h: int,
    low: Single,
    p: int,
)
    requires
        0 <= p < w * h,
        ({
            let (dx, dy) = heading(direction::<A>(grads[p]));
            let m = grads[p].mag;
            ||| col(p, w) == 0 || col(p, w) + 1 == w || row(p, w) == 0 || row(p, w) + 1 == h
            ||| m.less(low)
            ||| m.less(grads[p + (dy * w + dx)].mag)
            ||| m.less(grads[p - (dy * w + dx)].mag)
        }),
    ensures
        thinned::<A>(grads, w, h, low)[p] == Single::of(0),
{
}

/// A walk over pixels of which each reaches a threshold and is next to the one
/// before it.
pub open spec fn is_level_walk(
    levels: Seq<Single>,
    w: int,
    low: Single,
    high: Single,
    walk: Seq<int>,
) -> bool {
    &&& walk.len() > 0
    &&& forall|k: int|
        0 <= k < walk.len() ==> 0 <= #[trigger] walk[k] < levels.len() && (low.at_most(
            levels[walk[k]],
        ) || high.at_most(levels[walk[k]]))
    &&& forall|k: int, l: int|
        0 <= k && l == k + 1 && l < walk.len() ==> -1 <= #[trigger] walk[k] % w
            - #[trigger] walk[l] % w <= 1 && -1 <= walk[k] / w - walk[l] / w <= 1
}

/// A pixel is an edge just where a walk over pixels that reach a threshold leads
/// to it from one that reaches the high threshold.
pub proof fn edges_are_reached_from_strong_pixels(
    levels: Seq<Single>,
    w: int,
    low: Single,
    high: Single,
    p: int,
)
    ensures
        is_set(edges_of(levels, w, low, high), p) <==> exists|walk: Seq<int>| #[trigger]
            is_level_walk(levels, w, low, high, walk) && high.at_most(levels[walk[0]])
                && walk[walk.len() - 1] == p,
{
    let kept: Seq<bool> = reaching_either(levels, low, high);
    let strong: Seq<bool> = reaching(levels, high);
    if is_set(edges_of(levels, w, low, high), p) {
        let s: int = choose|s: int| is_set(strong, s) && #[trigger] linked(kept, w, s, p);
        let walk: Seq<int> = choose|walk: Seq<int>| #[trigger]
            is_walk(kept, w, walk) && walk[0] == s && walk[walk.len() - 1] == p;
        assert forall|k: int| 0 <= k < walk.len() implies 0 <= #[trigger] walk[k] < levels.len() && (
        low.at_most(levels[walk[k]]) || high.at_most(levels[walk[k]])) by {
            assert(is_set(kept, walk[k]));
        }
        assert forall|k: int, l: int| 0 <= k && l == k + 1 && l < walk.len() implies -1
            <= #[trigger] walk[k] % w - #[trigger] walk[l] % w <= 1 && -1 <= walk[k] / w - walk[l]
            / w <= 1 by {
            assert(near(walk[k], walk[l], w));
        }
        assert(is_level_walk(levels, w, low, high, walk));
    }
    if exists|walk: Seq<int>| #[trigger]
        is_level_walk(levels, w, low, high, walk) && high.at_most(levels[walk[0]])
            && walk[walk.len() - 1] == p {
        let walk: Seq<int> = choose|walk: Seq<int>| #[trigger]
            is_level_walk(levels, w, low, high, walk) && high.at_most(levels[walk[0]])
                && walk[walk.len() - 1] == p;
        assert forall|k: int| 0 <= k < walk.len() implies is_set(kept, #[trigger] walk[k]) by {}
        assert forall|k: int, l: int| 0 <= k && l == k + 1 && l < walk.len() implies near(
            #[trigger] walk[k],
            #[trigger] walk[l],
            w,
        ) by {}
        assert(is_walk(kept, w, walk));
        assert(is_set(strong, walk[0]));
        assert(linked(kept, w, walk[0], p));
        assert(is_set(kept, walk[walk.len() - 1]));
        assert(is_anchored(kept, strong, w, p));
    }
}

} // verus!
