//! Perspective rectification of a quadrilateral into an upright image.

use crate::frame::holds_frame;
use crate::linear::{homography, transform};
use crate::number::{
    diff, faithful, floor, from_usize, narrow, prod, round, sum, to_u8, to_usize, wide_from_usize,
    wide_prod, wide_quot, wide_sum, Arithmetic, Double, Single, ONE, WIDE_ONE, ZERO,
};
use crate::polygon::Point;
use vstd::prelude::*;

verus! {

/// Bit pattern of 255.0, the greatest level of a channel.
pub const CHANNEL_MAX: u32 = 0x437f_0000;

/// Bit pattern of 1e-9: a pixel whose denominator is smaller is left black.
pub const DENOMINATOR_MIN: u64 = 0x3e11_2e0b_e826_d695;

/// Level of channel `c` of the pixel in column `x` and row `y`.
pub open spec fn level<A: Arithmetic>(rgba: Seq<u8>, w: int, x: int, y: int, c: int) -> Single {
    A::from_usize_of(rgba[(y * w + x) * 4 + c] as usize)
}

/// The way from `a` to `b`, as far as `t` says.
pub open spec fn blend<A: Arithmetic>(a: Single, b: Single, t: Single) -> Single {
    A::sum_of(a, A::prod_of(A::diff_of(b, a), t))
}

/// A coordinate moved into a frame of the given extent.
pub open spec fn held<A: Arithmetic>(x: Single, extent: int) -> Single {
    x.clamp(Single::of(ZERO), A::from_usize_of((extent - 1) as usize))
}

/// The pixel at or before a coordinate within the frame.
pub open spec fn base_of<A: Arithmetic>(x: Single, extent: int) -> int {
    let at = A::to_usize_of(A::floor_of(x));
    if at < extent {
        at as int
    } else {
        extent - 1
    }
}

/// The pixel after another, or the last one of the frame.
pub open spec fn after(x: int, extent: int) -> int {
    if x + 1 < extent {
        x + 1
    } else {
        x
    }
}

/// How far a coordinate is beyond its pixel.
pub open spec fn beyond<A: Arithmetic>(x: Single, extent: int) -> Single {
    A::diff_of(x, A::from_usize_of(base_of::<A>(x, extent) as usize))
}

/// The level of channel `c` at a point, from the four pixels around it.
pub open spec fn channel<A: Arithmetic>(
    rgba: Seq<u8>,
    w: int,
    h: int,
    x: Single,
    y: Single,
    c: int,
) -> u8 {
    let x = held::<A>(x, w);
    let y = held::<A>(y, h);
    let (x0, y0) = (base_of::<A>(x, w), base_of::<A>(y, h));
    let (x1, y1) = (after(x0, w), after(y0, h));
    let top = blend::<A>(
        level::<A>(rgba, w, x0, y0, c),
        level::<A>(rgba, w, x1, y0, c),
        beyond::<A>(x, w),
    );
    let bottom = blend::<A>(
        level::<A>(rgba, w, x0, y1, c),
        level::<A>(rgba, w, x1, y1, c),
        beyond::<A>(x, w),
    );
    A::to_u8_of(
        A::round_of(blend::<A>(top, bottom, beyond::<A>(y, h))).clamp(
            Single::of(ZERO),
            Single::of(CHANNEL_MAX),
        ),
    )
}

/// The colour at a point: its four channels.
pub open spec fn sample<A: Arithmetic>(rgba: Seq<u8>, w: int, h: int, x: Single, y: Single) -> Seq<
    u8,
> {
    Seq::new(4, |c: int| channel::<A>(rgba, w, h, x, y, c))
}

fn blended<A: Arithmetic>(a: Single, b: Single, t: Single) -> (r: Single)
    ensures
        faithful::<A>() ==> r == blend::<A>(a, b, t),
{
    sum::<A>(a, prod::<A>(diff::<A>(b, a), t))
}

/// Finds the pixel at or before a coordinate, and how far the coordinate is
/// beyond it.
fn locate<A: Arithmetic>(x: Single, extent: usize) -> (r: (usize, Single))
    requires
        extent >= 1,
    ensures
        r.0 < extent,
        faithful::<A>() ==> r.0 == base_of::<A>(held::<A>(x, extent as int), extent as int),
        faithful::<A>() ==> r.1 == beyond::<A>(held::<A>(x, extent as int), extent as int),
{
    let x: Single = x.clamp(Single::of(ZERO), from_usize::<A>(extent - 1));
    let at: usize = to_usize::<A>(floor::<A>(x));
    let x0: usize = if at < extent {
        at
    } else {
        extent - 1
    };
    let t: Single = diff::<A>(x, from_usize::<A>(x0));
    (x0, t)
}

/// Reads the level of channel `c` of the pixel in column `x` and row `y`.
fn read_level<A: Arithmetic>(
    rgba: &[u8],
    w: usize,
    h: usize,
    x: usize,
    y: usize,
    c: usize,
) -> (r: Single)
    requires
        w * h * 4 <= rgba@.len(),
        x < w,
        y < h,
        c < 4,
    ensures
        faithful::<A>() ==> r == level::<A>(rgba@, w as int, x as int, y as int, c as int),
{
    let n: usize = rgba.len();
    assert(0 <= y * w && y * w + x < w * h) by (nonlinear_arith)
        requires
            x < w,
            y < h,
            0 <= x,
            0 <= y,
    ;
    from_usize::<A>(rgba[(y * w + x) * 4 + c] as usize)
}

/// Bilinearly sample RGBA at a (sub-pixel) position, edge-clamped.
pub fn sample_bilinear<A: Arithmetic>(
    rgba: &[u8],
    w: usize,
    h: usize,
    x: Single,
    y: Single,
) -> (px: [u8; 4])
    requires
        w >= 1,
        h >= 1,
        w * h * 4 <= rgba@.len(),
    ensures
        faithful::<A>() ==> px@ == sample::<A>(rgba@, w as int, h as int, x, y),
{
    let (x0, fx) = locate::<A>(x, w);
    let (y0, fy) = locate::<A>(y, h);
    let x1: usize = if x0 < w - 1 {
        x0 + 1
    } else {
        x0
    };
    let y1: usize = if y0 < h - 1 {
        y0 + 1
    } else {
        y0
    };
    let mut out: [u8; 4] = [0u8;4];
    let mut c: usize = 0;
    while c < 4
        invariant
            c <= 4,
            w * h * 4 <= rgba@.len(),
            x0 < w,
            x1 < w,
            y0 < h,
            y1 < h,
            faithful::<A>() ==> {
                let hx = held::<A>(x, w as int);
                let hy = held::<A>(y, h as int);
                &&& x0 == base_of::<A>(hx, w as int)
                &&& y0 == base_of::<A>(hy, h as int)
                &&& x1 == after(x0 as int, w as int)
                &&& y1 == after(y0 as int, h as int)
                &&& fx == beyond::<A>(hx, w as int)
                &&& fy == beyond::<A>(hy, h as int)
            },
            faithful::<A>() ==> forall|k: int|
                0 <= k < c ==> #[trigger] out@[k] == channel::<A>(
                    rgba@,
                    w as int,
                    h as int,
                    x,
                    y,
                    k,
                ),
        decreases 4 - c,
    {
        let p00: Single = read_level::<A>(rgba, w, h, x0, y0, c);
        let p10: Single = read_level::<A>(rgba, w, h, x1, y0, c);
        let p01: Single = read_level::<A>(rgba, w, h, x0, y1, c);
        let p11: Single = read_level::<A>(rgba, w, h, x1, y1, c);
        let top: Single = blended::<A>(p00, p10, fx);
        let bot: Single = blended::<A>(p01, p11, fx);
        let v: Single = round::<A>(blended::<A>(top, bot, fy));
        out[c] = to_u8::<A>(v.clamp(Single::of(ZERO), Single::of(CHANNEL_MAX)));
        c = c + 1;
    }
    assert(faithful::<A>() ==> out@ =~= sample::<A>(rgba@, w as int, h as int, x, y));
    out
}

/// One row of a projective transform applied to a pixel.
pub open spec fn row_value<A: Arithmetic>(
    a: Double,
    b: Double,
    c: Double,
    x: usize,
    y: usize,
) -> Double {
    A::wide_sum_of(
        A::wide_sum_of(
            A::wide_prod_of(a, A::wide_from_usize_of(x)),
            A::wide_prod_of(b, A::wide_from_usize_of(y)),
        ),
        c,
    )
}

/// A black, transparent pixel.
pub open spec fn black() -> Seq<u8> {
    seq![0u8, 0u8, 0u8, 0u8]
}

/// The pixel in column `x` and row `y` of the upright image.
pub open spec fn upright_pixel<A: Arithmetic>(
    rgba: Seq<u8>,
    w: int,
    h: int,
    m: Seq<Double>,
    x: usize,
    y: usize,
) -> Seq<u8> {
    let d = row_value::<A>(m[6], m[7], Double::of(WIDE_ONE), x, y);
    if d.abs().less(Double::of(DENOMINATOR_MIN)) {
        black()
    } else {
        sample::<A>(
            rgba,
            w,
            h,
            A::narrow_of(A::wide_quot_of(row_value::<A>(m[0], m[1], m[2], x, y), d)),
            A::narrow_of(A::wide_quot_of(row_value::<A>(m[3], m[4], m[5], x, y), d)),
        )
    }
}

/// A frame that cannot be rectified: too small, or with fewer pixels than it
/// should hold.
pub open spec fn is_bad_frame(len: int, w: int, h: int) -> bool {
    w < 2 || h < 2 || len < w * h * 4
}

/// The corners of an upright image.
pub open spec fn image_corners<A: Arithmetic>(w: int, h: int) -> Seq<Point> {
    let zero = Single::of(ZERO);
    let right = A::diff_of(A::from_usize_of(w as usize), Single::of(ONE));
    let bottom = A::diff_of(A::from_usize_of(h as usize), Single::of(ONE));
    seq![(zero, zero), (right, zero), (right, bottom), (zero, bottom)]
}

/// An image of the given size without any colour.
pub open spec fn blank(w: int, h: int) -> Seq<u8> {
    Seq::new((w * h * 4) as nat, |i: int| 0u8)
}

/// The upright image that a transform of pixel positions gives.
pub open spec fn rendered<A: Arithmetic>(
    rgba: Seq<u8>,
    w: int,
    h: int,
    m: Seq<Double>,
    out_w: int,
    out_h: int,
) -> Seq<u8> {
    Seq::new(
        (out_w * out_h * 4) as nat,
        |i: int|
            upright_pixel::<A>(
                rgba,
                w,
                h,
                m,
                ((i / 4) % out_w) as usize,
                ((i / 4) / out_w) as usize,
            )[i % 4],
    )
}

/// The upright image of a quadrilateral; blank where the frame is bad or the
/// corners give no transform.
pub open spec fn upright<A: Arithmetic>(
    rgba: Seq<u8>,
    w: int,
    h: int,
    quad: Seq<Point>,
    out_w: int,
    out_h: int,
) -> Seq<u8> {
    if is_bad_frame(rgba.len() as int, w, h) {
        blank(out_w, out_h)
    } else {
        match transform::<A>(image_corners::<A>(out_w, out_h), quad) {
            None => blank(out_w, out_h),
            Some(m) => rendered::<A>(rgba, w, h, m, out_w, out_h),
        }
    }
}

fn apply_row<A: Arithmetic>(a: Double, b: Double, c: Double, x: usize, y: usize) -> (r: Double)
    ensures
        faithful::<A>() ==> r == row_value::<A>(a, b, c, x, y),
{
    let ax: Double = wide_prod::<A>(a, wide_from_usize::<A>(x));
    let by: Double = wide_prod::<A>(b, wide_from_usize::<A>(y));
    wide_sum::<A>(wide_sum::<A>(ax, by), c)
}

/// Finds the colour of one pixel of the upright image.
fn render_pixel<A: Arithmetic>(
    rgba: &[u8],
    w: usize,
    h: usize,
    m: &[Double; 8],
    x: usize,
    y: usize,
) -> (px: [u8; 4])
    requires
        w >= 1,
        h >= 1,
        w * h * 4 <= rgba@.len(),
    ensures
        faithful::<A>() ==> px@ == upright_pixel::<A>(rgba@, w as int, h as int, m@, x, y),
{
    let denom: Double = apply_row::<A>(m[6], m[7], Double::of(WIDE_ONE), x, y);
    if denom.abs().less(Double::of(DENOMINATOR_MIN)) {
        let px: [u8; 4] = [0u8, 0u8, 0u8, 0u8];
        assert(px@ =~= black());
        px
    } else {
        let sx: Single = narrow::<A>(
            wide_quot::<A>(apply_row::<A>(m[0], m[1], m[2], x, y), denom),
        );
        let sy: Single = narrow::<A>(
            wide_quot::<A>(apply_row::<A>(m[3], m[4], m[5], x, y), denom),
        );
        sample_bilinear::<A>(rgba, w, h, sx, sy)
    }
}

/// Makes an image of `n` bytes without any colour.
fn zeros(n: usize) -> (out: Vec<u8>)
    ensures
        out@ == Seq::new(n as nat, |i: int| 0u8),
{
    let mut out: Vec<u8> = Vec::new();
    let mut i: usize = 0;
    while i < n
        invariant
            i <= n,
            out@.len() == i,
            forall|k: int| 0 <= k < i ==> #[trigger] out@[k] == 0,
        decreases n - i,
    {
        out.push(0);
        i = i + 1;
    }
    assert(out@ =~= Seq::new(n as nat, |i: int| 0u8));
    out
}

/// Finds the colours of all pixels of the upright image.
fn render<A: Arithmetic>(
    rgba: &[u8],
    w: usize,
    h: usize,
    m: &[Double; 8],
    out_w: usize,
    out_h: usize,
) -> (out: Vec<u8>)
    requires
        w >= 1,
        h >= 1,
        w * h * 4 <= rgba@.len(),
        out_w >= 1,
        out_w * out_h * 4 <= usize::MAX,
    ensures
        out@.len() == out_w * out_h * 4,
        faithful::<A>() ==> out@ == rendered::<A>(
            rgba@,
            w as int,
            h as int,
            m@,
            out_w as int,
            out_h as int,
        ),
{
    assert(0 <= out_w * out_h) by (nonlinear_arith);
    let n: usize = out_w * out_h;
    let ghost want = rendered::<A>(rgba@, w as int, h as int, m@, out_w as int, out_h as int);
    let mut out: Vec<u8> = Vec::new();
    let mut k: usize = 0;
    while k < n
        invariant
            k <= n,
            n == out_w * out_h,
            n * 4 <= usize::MAX,
            w >= 1,
            h >= 1,
            w * h * 4 <= rgba@.len(),
            out_w >= 1,
            want == rendered::<A>(rgba@, w as int, h as int, m@, out_w as int, out_h as int),
            out@.len() == 4 * k,
            faithful::<A>() ==> forall|i: int| 0 <= i < 4 * k ==> #[trigger] out@[i] == want[i],
        decreases n - k,
    {
        let px: [u8; 4] = render_pixel::<A>(rgba, w, h, m, k % out_w, k / out_w);
        out.push(px[0]);
        out.push(px[1]);
        out.push(px[2]);
        out.push(px[3]);
        proof {
            if faithful::<A>() {
                assert forall|i: int| 4 * k <= i < 4 * k + 4 implies #[trigger] out@[i]
                    == want[i] by {
                    assert(i / 4 == k && i % 4 == i - 4 * k);
                    assert(out@[i] == px@[i - 4 * k]);
                }
            }
        }
        k = k + 1;
    }
    assert(faithful::<A>() ==> out@ =~= want);
    out
}

/// Perspective-rectify the quadrilateral `src_quad` (corners ordered top left,
/// top right, bottom right, bottom left in input-pixel coordinates) into an
/// upright `out_w` by `out_h` RGBA image.
///
/// The image is blank where the frame is smaller than two by two pixels or
/// holds too few bytes, and where the corners are degenerate.
pub fn warp_perspective<A: Arithmetic>(
    rgba: &[u8],
    w: usize,
    h: usize,
    src_quad: &[Point; 4],
    out_w: usize,
    out_h: usize,
) -> (out: Vec<u8>)
    requires
        out_w * out_h * 4 <= isize::MAX,
    ensures
        out@.len() == out_w * out_h * 4,
        is_bad_frame(rgba@.len() as int, w as int, h as int) ==> out@ == blank(
            out_w as int,
            out_h as int,
        ),
        faithful::<A>() ==> out@ == upright::<A>(
            rgba@,
            w as int,
            h as int,
            src_quad@,
            out_w as int,
            out_h as int,
        ),
{
    assert(0 <= out_w * out_h) by (nonlinear_arith);
    let n: usize = out_w * out_h * 4;
    if out_w == 0 || out_h == 0 {
        proof {
            assert(out_w * out_h == 0) by (nonlinear_arith)
                requires
                    out_w == 0 || out_h == 0,
            ;
            lemma_empty_image::<A>(rgba@, w as int, h as int, src_quad@, out_w as int, out_h as int);
        }
        return Vec::new();
    }
    if w < 2 || h < 2 || !holds_frame(rgba.len(), w, h) {
        return zeros(n);
    }
    let zero: Single = Single::of(ZERO);
    let right: Single = diff::<A>(from_usize::<A>(out_w), Single::of(ONE));
    let bottom: Single = diff::<A>(from_usize::<A>(out_h), Single::of(ONE));
    let dst: [Point; 4] = [(zero, zero), (right, zero), (right, bottom), (zero, bottom)];
    assert(faithful::<A>() ==> dst@ =~= image_corners::<A>(out_w as int, out_h as int));
    match homography::<A>(&dst, src_quad) {
        Some(m) => render::<A>(rgba, w, h, &m, out_w, out_h),
        None => zeros(n),
    }
}

/// An image without a column or without a row has no pixel.
proof fn lemma_empty_image<A: Arithmetic>(
    rgba: Seq<u8>,
    w: int,
    h: int,
    quad: Seq<Point>,
    out_w: int,
    out_h: int,
)
    requires
        out_w * out_h == 0,
    ensures
        blank(out_w, out_h) == Seq::<u8>::empty(),
        upright::<A>(rgba, w, h, quad, out_w, out_h) == Seq::<u8>::empty(),
{
    assert(blank(out_w, out_h) =~= Seq::<u8>::empty());
    assert(upright::<A>(rgba, w, h, quad, out_w, out_h) =~= Seq::<u8>::empty());
}

/// The four points of a list of coordinates.
pub open spec fn points_of(corners: Seq<Single>) -> Seq<Point> {
    Seq::new(4, |k: int| (corners[2 * k], corners[2 * k + 1]))
}

/// Perspective-rectify a detected card quad into an upright `out_w` by `out_h`
/// RGBA image. `corners` is `[x0, y0, x1, y1, x2, y2, x3, y3]`, ordered top
/// left, top right, bottom right, bottom left.
///
/// Returns `out_w * out_h * 4` RGBA bytes, and none on bad input: where there
/// are fewer than eight coordinates, or where the frame is smaller than two by
/// two pixels or holds too few bytes.
pub fn warp_card<A: Arithmetic>(
    rgba: &[u8],
    width: usize,
    height: usize,
    corners: &[Single],
    out_w: usize,
    out_h: usize,
) -> (out: Vec<u8>)
    requires
        corners@.len() >= 8 ==> out_w * out_h * 4 <= isize::MAX,
    ensures
        ({
            let bad = corners@.len() < 8 || is_bad_frame(
                rgba@.len() as int,
                width as int,
                height as int,
            );
            &&& bad ==> out@.len() == 0
            &&& !bad ==> out@.len() == out_w * out_h * 4
            &&& !bad && faithful::<A>() ==> out@ == upright::<A>(
                rgba@,
                width as int,
                height as int,
                points_of(corners@),
                out_w as int,
                out_h as int,
            )
        }),
{
    if corners.len() < 8 || width < 2 || height < 2 || !holds_frame(rgba.len(), width, height) {
        return Vec::new();
    }
    let q: [Point; 4] = [
        (corners[0], corners[1]),
        (corners[2], corners[3]),
        (corners[4], corners[5]),
        (corners[6], corners[7]),
    ];
    assert(q@ =~= points_of(corners@));
    warp_perspective::<A>(rgba, width, height, &q, out_w, out_h)
}

/// Sampling is clamped to the edge: a point outside the frame has the colour of
/// the nearest point on the edge.
pub proof fn sampling_is_clamped<A: Arithmetic>(
    rgba: Seq<u8>,
    w: int,
    h: int,
    x: Single,
    y: Single,
)
    requires
        Single::of(ZERO).at_most(A::from_usize_of((w - 1) as usize)),
        Single::of(ZERO).at_most(A::from_usize_of((h - 1) as usize)),
    ensures
        sample::<A>(rgba, w, h, held::<A>(x, w), held::<A>(y, h)) == sample::<A>(rgba, w, h, x, y),
{
    assert(held::<A>(held::<A>(x, w), w) == held::<A>(x, w));
    assert(held::<A>(held::<A>(y, h), h) == held::<A>(y, h));
    assert(sample::<A>(rgba, w, h, held::<A>(x, w), held::<A>(y, h)) =~= sample::<A>(
        rgba,
        w,
        h,
        x,
        y,
    ));
}

proof fn lemma_level_within<A: Arithmetic>(
    a: Seq<u8>,
    b: Seq<u8>,
    w: int,
    h: int,
    x: int,
    y: int,
    c: int,
)
    requires
        0 <= x < w,
        0 <= y < h,
        0 <= c < 4,
        forall|k: int| 0 <= k < w * h * 4 ==> #[trigger] a[k] == b[k],
    ensures
        level::<A>(a, w, x, y, c) == level::<A>(b, w, x, y, c),
{
    assert(0 <= y * w + x < w * h) by (nonlinear_arith)
        requires
            0 <= x < w,
            0 <= y < h,
    ;
    let k: int = (y * w + x) * 4 + c;
    assert(a[k] == b[k]);
}

/// A colour rests on the pixels of the frame alone, not on what follows the last
/// one.
pub proof fn sampling_stays_within<A: Arithmetic>(
    a: Seq<u8>,
    b: Seq<u8>,
    w: int,
    h: int,
    x: Single,
    y: Single,
)
    requires
        1 <= w,
        1 <= h,
        forall|k: int| 0 <= k < w * h * 4 ==> #[trigger] a[k] == b[k],
    ensures
        sample::<A>(a, w, h, x, y) == sample::<A>(b, w, h, x, y),
{
    let (x0, y0) = (base_of::<A>(held::<A>(x, w), w), base_of::<A>(held::<A>(y, h), h));
    let (x1, y1) = (after(x0, w), after(y0, h));
    assert forall|c: int| 0 <= c < 4 implies #[trigger] sample::<A>(a, w, h, x, y)[c] == sample::<
        A,
    >(b, w, h, x, y)[c] by {
        lemma_level_within::<A>(a, b, w, h, x0, y0, c);
        lemma_level_within::<A>(a, b, w, h, x1, y0, c);
        lemma_level_within::<A>(a, b, w, h, x0, y1, c);
        lemma_level_within::<A>(a, b, w, h, x1, y1, c);
    }
    assert(sample::<A>(a, w, h, x, y) =~= sample::<A>(b, w, h, x, y));
}

/// The upright image rests on the pixels of the frame alone, not on what follows
/// the last one.
pub proof fn rectification_stays_within<A: Arithmetic>(
    a: Seq<u8>,
    b: Seq<u8>,
    w: int,
    h: int,
    quad: Seq<Point>,
    out_w: int,
    out_h: int,
)
    requires
        w * h * 4 <= a.len(),
        w * h * 4 <= b.len(),
        forall|k: int| 0 <= k < w * h * 4 ==> #[trigger] a[k] == b[k],
    ensures
        upright::<A>(a, w, h, quad, out_w, out_h) == upright::<A>(b, w, h, quad, out_w, out_h),
{
    if !is_bad_frame(a.len() as int, w, h) {
        match transform::<A>(image_corners::<A>(out_w, out_h), quad) {
            None => {},
            Some(m) => {
                let p: Seq<u8> = rendered::<A>(a, w, h, m, out_w, out_h);
                let q: Seq<u8> = rendered::<A>(b, w, h, m, out_w, out_h);
                assert forall|i: int| 0 <= i < p.len() implies #[trigger] p[i] == q[i] by {
                    let x = ((i / 4) % out_w) as usize;
                    let y = ((i / 4) / out_w) as usize;
                    let d = row_value::<A>(m[6], m[7], Double::of(WIDE_ONE), x, y);
                    sampling_stays_within::<A>(
                        a,
                        b,
                        w,
                        h,
                        A::narrow_of(A::wide_quot_of(row_value::<A>(m[0], m[1], m[2], x, y), d)),
                        A::narrow_of(A::wide_quot_of(row_value::<A>(m[3], m[4], m[5], x, y), d)),
                    );
                }
                assert(p =~= q);
            },
        }
    }
}

/// Byte `c` of the pixel in column `x` and row `y` of an upright image is that
/// channel of the colour at `(u / d, v / d)`, with `(u, v, d)` the transform applied
/// to `(x, y, 1)`, and 0 where `d` is within 1e-9 of 0.
pub proof fn each_pixel_is_a_sample<A: Arithmetic>(
    rgba: Seq<u8>,
    w: int,
    h: int,
    m: Seq<Double>,
    out_w: usize,
    out_h: usize,
    x: usize,
    y: usize,
    c: int,
)
    requires
        x < out_w,
        y < out_h,
        0 <= c < 4,
    ensures
        ({
            let image = rendered::<A>(rgba, w, h, m, out_w as int, out_h as int);
            let (s, t) = (A::wide_from_usize_of(x), A::wide_from_usize_of(y));
            let u = A::wide_sum_of(
                A::wide_sum_of(A::wide_prod_of(m[0], s), A::wide_prod_of(m[1], t)),
                m[2],
            );
            let v = A::wide_sum_of(
                A::wide_sum_of(A::wide_prod_of(m[3], s), A::wide_prod_of(m[4], t)),
                m[5],
            );
            let d = A::wide_sum_of(
                A::wide_sum_of(A::wide_prod_of(m[6], s), A::wide_prod_of(m[7], t)),
                Double::of(0x3ff0_0000_0000_0000),
            );
            let byte = image[(y * out_w + x) * 4 + c];
            &&& image.len() == out_w * out_h * 4
            &&& 0 <= (y * out_w + x) * 4 + c < image.len()
            &&& d.abs().less(Double::of(0x3e11_2e0b_e826_d695)) ==> byte == 0
            &&& !d.abs().less(Double::of(0x3e11_2e0b_e826_d695)) ==> byte == channel::<A>(
                rgba,
                w,
                h,
                A::narrow_of(A::wide_quot_of(u, d)),
                A::narrow_of(A::wide_quot_of(v, d)),
                c,
            )
        }),
{
    let p: int = y * out_w + x;
    let i: int = p * 4 + c;
    assert(0 <= p < out_w * out_h && p / (out_w as int) == y && p % (out_w as int) == x)
        by (nonlinear_arith)
        requires
            p == y * out_w + x,
            0 <= x < out_w,
            0 <= y < out_h,
    ;
    assert(i / 4 == p && i % 4 == c);
}

/// A frame with a side below 2 pixels, or with too few bytes, gives an image of
/// zeros; so do corners to which no transform leads.
pub proof fn no_transform_gives_zeros<A: Arithmetic>(
    rgba: Seq<u8>,
    w: int,
    h: int,
    quad: Seq<Point>,
    out_w: int,
    out_h: int,
    i: int,
)
    requires
        w < 2 || h < 2 || rgba.len() < w * h * 4 || transform::<A>(
            image_corners::<A>(out_w, out_h),
            quad,
        ) is None,
        0 <= i < out_w * out_h * 4,
    ensures
        upright::<A>(rgba, w, h, quad, out_w, out_h).len() == out_w * out_h * 4,
        upright::<A>(rgba, w, h, quad, out_w, out_h)[i] == 0,
{
}

/// In any other frame the transform leads from the corners of the image, clockwise
/// from the one at the origin, to those of the quadrilateral.
pub proof fn the_image_is_stretched_over_the_quad<A: Arithmetic>(
    rgba: Seq<u8>,
    w: int,
    h: int,
    quad: Seq<Point>,
    out_w: usize,
    out_h: usize,
)
    requires
        2 <= w,
        2 <= h,
        w * h * 4 <= rgba.len(),
    ensures
        ({
            let zero = Single::of(0);
            let right = A::diff_of(A::from_usize_of(out_w), Single::of(0x3f80_0000));
            let bottom = A::diff_of(A::from_usize_of(out_h), Single::of(0x3f80_0000));
            let corners = seq![(zero, zero), (right, zero), (right, bottom), (zero, bottom)];
            transform::<A>(corners, quad) matches Some(m) ==> upright::<A>(
                rgba,
                w,
                h,
                quad,
                out_w as int,
                out_h as int,
            ) == rendered::<A>(rgba, w, h, m, out_w as int, out_h as int)
        }),
{
}

/// Eight coordinates are four points, `x` before `y`.
pub proof fn coordinates_come_in_pairs(corners: Seq<Single>, k: int)
    requires
        0 <= k < 4,
    ensures
        points_of(corners).len() == 4,
        points_of(corners)[k] == (corners[2 * k], corners[2 * k + 1]),
{
}

} // verus!
