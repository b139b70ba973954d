//! The detection pipeline: from a frame to a classified quadrilateral.

use crate::component::{
    is_candidate, largest_component_points, largest_points, largest_points_are_set, point_of,
};
use crate::edge::{canny, canny_edges, flat_magnitude, flat_raster_has_no_edges};
use crate::filter::{
    blur_keeps_flatness, box_blur, box_blur3, brightness_rests_on_colours, flat_level, gray_levels,
    luma, to_gray,
};
use crate::frame::holds_frame;
use crate::grid::is_set;
use crate::hull::{convex_hull, every_point_set_has_a_hull, hull_of};
use crate::morphology::{dilate3, dilation, dilation_of_nothing, dilation_reaches_one_pixel};
use crate::number::{
    diff, faithful, from_i32, from_usize, prod, quot, sum, Arithmetic, Single, ONE, ZERO,
};
use crate::polygon::{
    corners_are_hull_points, corners_at, first_fitting_tolerance_decides, fits, hull_quad,
    quad_from_hull, Point,
};
use crate::quad::{
    area, extreme_corners, extremes, extremes_are_members, metrics, order_corners, quad_area,
    quad_metrics,
};
use crate::value::{is_near, lemma_scale_numbers, lemma_value_ratio};
use vstd::prelude::*;

verus! {

/// Bit pattern of 1.585: width to height of an ID-1 / CR80 card (85.6 mm by
/// 54 mm).
pub const ID1_ASPECT: u32 = 0x3fca_e148;

/// Bit pattern of 0.14: how far the ratio of a card may be off.
pub const ID1_TOL: u32 = 0x3e0f_5c29;

/// Bit pattern of 0.45, the weight of the angles in the confidence.
pub const ANGLE_WEIGHT: u32 = 0x3ee6_6666;

/// Bit pattern of 0.35, the weight of the sides in the confidence.
pub const SIDE_WEIGHT: u32 = 0x3eb3_3333;

/// Bit pattern of 0.20, the weight of the aspect ratio in the confidence.
pub const ASPECT_WEIGHT: u32 = 0x3e4c_cccd;

/// Bit pattern of 0.30.
pub const DEFAULT_STRONG_FRAC: u32 = 0x3e99_999a;

/// Bit pattern of 0.10.
pub const DEFAULT_MIN_AREA_FRAC: u32 = 0x3dcc_cccd;

/// Bit pattern of 0.97.
pub const DEFAULT_MAX_AREA_FRAC: u32 = 0x3f78_51ec;

/// Default of the least number of pixels of a component.
pub const DEFAULT_MIN_COMPONENT_PX: usize = 60;

/// Length of the packed result of [`detect_frame`].
pub const RESULT_LEN: usize = 11;

/// A detected quadrilateral plus a coarse classification.
#[derive(Debug, Clone, Copy)]
pub struct Detection {
    pub found: bool,
    /// Corners in input-pixel coordinates, ordered top left, top right, bottom
    /// right, bottom left.
    pub corners: [Point; 4],
    /// 0 = none or unknown, 1 = ID card (ID-1 / CR80 aspect), 2 = document.
    pub type_code: u8,
    /// Heuristic confidence from 0.0 to 1.0.
    pub confidence: Single,
}

/// What a [`Detection`] says.
pub struct Finding {
    pub found: bool,
    pub corners: Seq<Point>,
    pub type_code: u8,
    pub confidence: Single,
}

impl View for Detection {
    type V = Finding;

    open spec fn view(&self) -> Finding {
        Finding {
            found: self.found,
            corners: self.corners@,
            type_code: self.type_code,
            confidence: self.confidence,
        }
    }
}

/// Tunable parameters of the pipeline.
#[derive(Debug, Clone, Copy)]
pub struct Params {
    /// Part of the edge pixels treated as strong.
    pub strong_frac: Single,
    /// Least area of a quadrilateral as a part of the frame.
    pub min_area_frac: Single,
    /// Greatest area of a quadrilateral as a part of the frame.
    pub max_area_frac: Single,
    /// Least number of edge pixels of a component that is considered.
    pub min_component_px: usize,
}

/// The default parameters: 0.30, 0.10, 0.97 and 60 pixels.
pub open spec fn default_params() -> Params {
    Params {
        strong_frac: Single::of(DEFAULT_STRONG_FRAC),
        min_area_frac: Single::of(DEFAULT_MIN_AREA_FRAC),
        max_area_frac: Single::of(DEFAULT_MAX_AREA_FRAC),
        min_component_px: DEFAULT_MIN_COMPONENT_PX,
    }
}

impl Default for Params {
    fn default() -> (p: Self)
        ensures
            p == default_params(),
    {
        Params {
            strong_frac: Single::of(DEFAULT_STRONG_FRAC),
            min_area_frac: Single::of(DEFAULT_MIN_AREA_FRAC),
            max_area_frac: Single::of(DEFAULT_MAX_AREA_FRAC),
            min_component_px: DEFAULT_MIN_COMPONENT_PX,
        }
    }
}

/// The answer where nothing was found: all zero.
pub open spec fn nothing() -> Finding {
    let zero = Single::of(ZERO);
    Finding {
        found: false,
        corners: seq![(zero, zero), (zero, zero), (zero, zero), (zero, zero)],
        type_code: 0,
        confidence: zero,
    }
}

/// What holds of every answer: without a find all is zero; with one the type is
/// that of a card or of a document, and the confidence is not outside 0 to 1.
pub open spec fn is_consistent(f: Finding) -> bool {
    &&& f.corners.len() == 4
    &&& !f.found ==> f == nothing()
    &&& f.found ==> (f.type_code == 1 || f.type_code == 2)
    &&& !f.confidence.less(Single::of(ZERO))
    &&& !Single::of(ONE).less(f.confidence)
}

impl Detection {
    /// The answer where nothing was found.
    pub fn none() -> (d: Self)
        ensures
            d@ == nothing(),
    {
        let zero: Single = Single::of(ZERO);
        let d = Detection {
            found: false,
            corners: [(zero, zero), (zero, zero), (zero, zero), (zero, zero)],
            type_code: 0,
            confidence: zero,
        };
        assert(d@.corners =~= nothing().corners);
        d
    }
}

/// The frame is too small to be searched, or holds fewer pixels than it should.
pub open spec fn is_undersized(len: int, w: int, h: int) -> bool {
    w < 16 || h < 16 || len < w * h * 4
}

/// The edge map of a frame in which the outline is searched.
pub open spec fn outline_map<A: Arithmetic>(
    rgba: Seq<u8>,
    w: int,
    h: int,
    strong_frac: Single,
) -> Seq<bool> {
    let gray = gray_levels::<A>(rgba, (w * h) as nat);
    let edges = canny_edges::<A>(box_blur::<A>(gray, w, h), w, h, strong_frac);
    dilation(edges, w, h)
}

/// The point stands for a set pixel of the map.
pub open spec fn is_map_point(map: Seq<bool>, w: int, p: (i32, i32)) -> bool {
    exists|q: int| #[trigger] is_set(map, q) && p == point_of(q, w)
}

/// The corner stands for an edge pixel of the frame.
pub open spec fn is_edge_point<A: Arithmetic>(map: Seq<bool>, w: int, c: Point) -> bool {
    exists|p: (i32, i32)| #[trigger] is_map_point(map, w, p) && c == placed::<A>(p)
}

/// Hull of the dominant outline of a frame, if there is one.
#[verifier::opaque]
pub open spec fn outline_hull<A: Arithmetic>(rgba: Seq<u8>, w: int, h: int, p: Params) -> Option<
    Seq<(i32, i32)>,
> {
    let map = outline_map::<A>(rgba, w, h, p.strong_frac);
    match largest_points(map, w, h, p.min_component_px as int) {
        None => None,
        Some(points) => Some(hull_of(points)),
    }
}

/// An integer point as a point in the plane.
pub open spec fn placed<A: Arithmetic>(p: (i32, i32)) -> Point {
    (A::from_i32_of(p.0), A::from_i32_of(p.1))
}

/// The four ordered corners that stand for a hull.
pub open spec fn hull_corners<A: Arithmetic>(hull: Seq<(i32, i32)>) -> Seq<Point> {
    let points = hull.map_values(|p: (i32, i32)| placed::<A>(p));
    extremes::<A>(
        match hull_quad::<A>(points) {
            Some(quad) => quad,
            None => extremes::<A>(points),
        },
    )
}

/// How far an aspect ratio is from that of a card.
pub open spec fn aspect_error<A: Arithmetic>(aspect: Single) -> Single {
    A::diff_of(aspect, Single::of(ID1_ASPECT)).abs()
}

/// The aspect ratio is that of a card.
pub open spec fn is_card<A: Arithmetic>(aspect: Single) -> bool {
    aspect_error::<A>(aspect).at_most(Single::of(ID1_TOL))
}

/// 1 for the aspect ratio of a card, less the further it is off.
pub open spec fn aspect_match<A: Arithmetic>(aspect: Single) -> Single {
    if is_card::<A>(aspect) {
        Single::of(ONE)
    } else {
        A::diff_of(
            Single::of(ONE),
            A::diff_of(aspect_error::<A>(aspect), Single::of(ID1_TOL)),
        ).clamp(Single::of(ZERO), Single::of(ONE))
    }
}

/// Confidence in a quadrilateral with the given shape.
pub open spec fn confidence<A: Arithmetic>(
    angle_score: Single,
    side_score: Single,
    aspect: Single,
) -> Single {
    A::sum_of(
        A::sum_of(
            A::prod_of(Single::of(ANGLE_WEIGHT), angle_score),
            A::prod_of(Single::of(SIDE_WEIGHT), side_score),
        ),
        A::prod_of(Single::of(ASPECT_WEIGHT), aspect_match::<A>(aspect)),
    ).clamp(Single::of(ZERO), Single::of(ONE))
}

/// The part of the frame that a quadrilateral covers.
pub open spec fn coverage<A: Arithmetic>(corners: Seq<Point>, w: int, h: int) -> Single {
    A::quot_of(area::<A>(corners), A::from_usize_of((w * h) as usize))
}

/// A quadrilateral is accepted: its size is within the limits and neither score
/// is zero.
pub open spec fn is_accepted<A: Arithmetic>(corners: Seq<Point>, w: int, h: int, p: Params) -> bool {
    let part = coverage::<A>(corners, w, h);
    let (aspect, angle_score, side_score) = metrics::<A>(corners);
    &&& !part.less(p.min_area_frac)
    &&& !p.max_area_frac.less(part)
    &&& !angle_score.at_most(Single::of(ZERO))
    &&& !side_score.at_most(Single::of(ZERO))
}

/// The answer for a quadrilateral with the given ordered corners.
pub open spec fn assessment<A: Arithmetic>(
    corners: Seq<Point>,
    w: int,
    h: int,
    p: Params,
) -> Finding {
    if is_accepted::<A>(corners, w, h, p) {
        let (aspect, angle_score, side_score) = metrics::<A>(corners);
        Finding {
            found: true,
            corners,
            type_code: if is_card::<A>(aspect) {
                1
            } else {
                2
            },
            confidence: confidence::<A>(angle_score, side_score, aspect),
        }
    } else {
        nothing()
    }
}

/// The answer for a frame.
pub open spec fn finding<A: Arithmetic>(rgba: Seq<u8>, w: int, h: int, p: Params) -> Finding {
    if is_undersized(rgba.len() as int, w, h) {
        nothing()
    } else {
        match outline_hull::<A>(rgba, w, h, p) {
            None => nothing(),
            Some(hull) => if hull.len() < 4 {
                nothing()
            } else {
                assessment::<A>(hull_corners::<A>(hull), w, h, p)
            },
        }
    }
}

/// Judges a quadrilateral by size and shape and classifies it.
pub fn assess<A: Arithmetic>(corners: [Point; 4], w: usize, h: usize, p: &Params) -> (d: Detection)
    requires
        w * h <= usize::MAX,
    ensures
        is_consistent(d@),
        d.found ==> d.corners@ == corners@,
        faithful::<A>() ==> d@ == assessment::<A>(corners@, w as int, h as int, *p),
{
    let zero: Single = Single::of(ZERO);
    let one: Single = Single::of(ONE);
    assert(0 <= w * h) by (nonlinear_arith);
    let area_frac: Single = quot::<A>(quad_area::<A>(&corners), from_usize::<A>(w * h));
    if area_frac.less(p.min_area_frac) || p.max_area_frac.less(area_frac) {
        return Detection::none();
    }
    let (aspect, angle_score, side_score) = quad_metrics::<A>(&corners);
    if angle_score.at_most(zero) || side_score.at_most(zero) {
        return Detection::none();
    }
    let aspect_err: Single = diff::<A>(aspect, Single::of(ID1_ASPECT)).abs();
    let is_id: bool = aspect_err.at_most(Single::of(ID1_TOL));
    let aspect_score: Single = if is_id {
        one
    } else {
        diff::<A>(one, diff::<A>(aspect_err, Single::of(ID1_TOL))).clamp(zero, one)
    };
    let type_code: u8 = if is_id {
        1
    } else {
        2
    };
    let angle_part: Single = prod::<A>(Single::of(ANGLE_WEIGHT), angle_score);
    let side_part: Single = prod::<A>(Single::of(SIDE_WEIGHT), side_score);
    let aspect_part: Single = prod::<A>(Single::of(ASPECT_WEIGHT), aspect_score);
    let confidence: Single = sum::<A>(sum::<A>(angle_part, side_part), aspect_part).clamp(zero, one);
    Detection { found: true, corners, type_code, confidence }
}

/// Finds the edges of a frame in which the outline is searched.
fn map_outlines<A: Arithmetic>(rgba: &[u8], w: usize, h: usize, strong_frac: Single) -> (map: Vec<
    bool,
>)
    requires
        w * h * 4 <= rgba@.len(),
    ensures
        map@.len() == w * h,
        faithful::<A>() ==> map@ == outline_map::<A>(rgba@, w as int, h as int, strong_frac),
{
    assert(0 <= w * h) by (nonlinear_arith);
    let n: usize = rgba.len();
    let gray: Vec<Single> = to_gray::<A>(rgba, w, h);
    let blurred: Vec<Single> = box_blur3::<A>(gray.as_slice(), w, h);
    let edges: Vec<bool> = canny::<A>(blurred.as_slice(), w, h, strong_frac);
    dilate3(edges.as_slice(), w, h)
}

/// Finds the hull of the dominant outline of a frame.
fn find_hull<A: Arithmetic>(rgba: &[u8], w: usize, h: usize, p: &Params) -> (hull: Option<
    Vec<(i32, i32)>,
>)
    requires
        w * h * 4 <= rgba@.len(),
    ensures
        faithful::<A>() ==> match outline_hull::<A>(rgba@, w as int, h as int, *p) {
            None => hull is None,
            Some(outline) => hull matches Some(v) && v@ == outline,
        },
{
    let map: Vec<bool> = map_outlines::<A>(rgba, w, h, p.strong_frac);
    proof {
        reveal(outline_hull);
    }
    assert(map@.take(w * h) =~= map@);
    match largest_component_points(map.as_slice(), w, h, p.min_component_px) {
        Some(points) => Some(convex_hull(points.as_slice())),
        None => None,
    }
}

/// Fits four ordered corners to a hull.
fn fit_corners<A: Arithmetic>(outline: &[(i32, i32)]) -> (corners: [Point; 4])
    requires
        outline@.len() > 0,
    ensures
        faithful::<A>() ==> corners@ == hull_corners::<A>(outline@),
{
    let n: usize = outline.len();
    let mut hull: Vec<Point> = Vec::new();
    let mut i: usize = 0;
    while i < n
        invariant
            i <= n,
            n == outline@.len(),
            hull@.len() == i,
            faithful::<A>() ==> forall|k: int|
                0 <= k < i ==> #[trigger] hull@[k] == placed::<A>(outline@[k]),
        decreases n - i,
    {
        hull.push((from_i32::<A>(outline[i].0), from_i32::<A>(outline[i].1)));
        i = i + 1;
    }
    assert(faithful::<A>() ==> hull@ =~= outline@.map_values(
        |q: (i32, i32)| placed::<A>(q),
    ));
    let quad: [Point; 4] = match quad_from_hull::<A>(hull.as_slice()) {
        Some(q) => q,
        None => extreme_corners::<A>(hull.as_slice()),
    };
    order_corners::<A>(quad)
}

/// Runs the full detection pipeline over one RGBA frame.
pub fn detect<A: Arithmetic>(rgba: &[u8], w: usize, h: usize, p: &Params) -> (d: Detection)
    ensures
        is_consistent(d@),
        is_undersized(rgba@.len() as int, w as int, h as int) ==> d@ == nothing(),
        faithful::<A>() ==> d@ == finding::<A>(rgba@, w as int, h as int, *p),
        faithful::<A>() && d.found ==> forall|k: int|
            0 <= k < 4 ==> is_edge_point::<A>(
                outline_map::<A>(rgba@, w as int, h as int, p.strong_frac),
                w as int,
                #[trigger] d.corners@[k],
            ),
{
    if w < 16 || h < 16 || !holds_frame(rgba.len(), w, h) {
        return Detection::none();
    }
    let n: usize = rgba.len();
    match find_hull::<A>(rgba, w, h, p) {
        None => Detection::none(),
        Some(outline) => if outline.len() < 4 {
            Detection::none()
        } else {
            let d: Detection = assess::<A>(fit_corners::<A>(outline.as_slice()), w, h, p);
            proof {
                if faithful::<A>() && d.found {
                    let f: Finding = finding::<A>(rgba@, w as int, h as int, *p);
                    found_corners_are_edge_points::<A>(rgba@, w as int, h as int, *p);
                    assert(d@ == f);
                    assert forall|k: int| 0 <= k < 4 implies is_edge_point::<A>(
                        outline_map::<A>(rgba@, w as int, h as int, p.strong_frac),
                        w as int,
                        #[trigger] d.corners@[k],
                    ) by {
                        assert(d.corners@[k] == f.corners[k]);
                    }
                }
            }
            d
        },
    }
}

/// The packed form of an answer: found (1 or 0), the corners by x and y, the
/// type and the confidence.
pub open spec fn packed<A: Arithmetic>(f: Finding) -> Seq<Single> {
    seq![
        if f.found {
            Single::of(ONE)
        } else {
            Single::of(ZERO)
        },
        f.corners[0].0,
        f.corners[0].1,
        f.corners[1].0,
        f.corners[1].1,
        f.corners[2].0,
        f.corners[2].1,
        f.corners[3].0,
        f.corners[3].1,
        A::from_usize_of(f.type_code as usize),
        f.confidence,
    ]
}

/// Packs an answer into [`RESULT_LEN`] numbers.
pub fn pack<A: Arithmetic>(d: &Detection) -> (out: Vec<Single>)
    ensures
        out@.len() == RESULT_LEN,
        forall|k: int| 0 <= k < RESULT_LEN && k != 9 ==> #[trigger] out@[k] == packed::<A>(d@)[k],
        faithful::<A>() ==> out@ == packed::<A>(d@),
{
    let mut out: Vec<Single> = Vec::new();
    out.push(
        if d.found {
            Single::of(ONE)
        } else {
            Single::of(ZERO)
        },
    );
    let mut i: usize = 0;
    while i < 4
        invariant
            i <= 4,
            out@.len() == 1 + 2 * i,
            forall|k: int| 0 <= k < 1 + 2 * i ==> #[trigger] out@[k] == packed::<A>(d@)[k],
        decreases 4 - i,
    {
        out.push(d.corners[i].0);
        out.push(d.corners[i].1);
        i = i + 1;
    }
    out.push(from_usize::<A>(d.type_code as usize));
    out.push(d.confidence);
    assert(faithful::<A>() ==> out@ =~= packed::<A>(d@));
    out
}

/// Detects a document or ID card in an RGBA frame with the default parameters.
///
/// Returns [`RESULT_LEN`] numbers: found (1 or 0); the corners top left, top
/// right, bottom right and bottom left by x and y in input pixels; the type
/// (0 none, 1 ID card, 2 document); the confidence from 0 to 1.
pub fn detect_frame<A: Arithmetic>(rgba: &[u8], width: usize, height: usize) -> (out: Vec<Single>)
    ensures
        out@.len() == RESULT_LEN,
        faithful::<A>() ==> out@ == packed::<A>(
            finding::<A>(rgba@, width as int, height as int, default_params()),
        ),
{
    let d: Detection = detect::<A>(rgba, width, height, &Params::default());
    pack::<A>(&d)
}

/// Every answer is consistent.
pub proof fn findings_are_consistent<A: Arithmetic>(rgba: Seq<u8>, w: int, h: int, p: Params)
    ensures
        is_consistent(finding::<A>(rgba, w, h, p)),
{
}

/// A frame of one colour shows nothing, where the arithmetic gives equal levels
/// no gradient above 0.
pub proof fn flat_frame_shows_nothing<A: Arithmetic>(
    rgba: Seq<u8>,
    w: int,
    h: int,
    p: Params,
    r: u8,
    g: u8,
    b: u8,
)
    requires
        forall|i: int|
            #![trigger rgba[4 * i]]
            0 <= i < w * h ==> rgba[4 * i] == r && rgba[4 * i + 1] == g && rgba[4 * i + 2] == b,
        !Single::of(ZERO).less(flat_magnitude::<A>(flat_level::<A>(luma::<A>(r, g, b)))),
    ensures
        finding::<A>(rgba, w, h, p) == nothing(),
{
    if !is_undersized(rgba.len() as int, w, h) {
        reveal(outline_hull);
        let level: Single = luma::<A>(r, g, b);
        assert(0 <= w * h) by (nonlinear_arith)
            requires
                0 <= w,
                0 <= h,
        ;
        let gray: Seq<Single> = gray_levels::<A>(rgba, (w * h) as nat);
        assert forall|i: int| 0 <= i < w * h implies #[trigger] gray[i] == level by {
            assert(rgba[4 * i] == r);
        }
        let blurred: Seq<Single> = box_blur::<A>(gray, w, h);
        blur_keeps_flatness::<A>(gray, w, h, level);
        flat_raster_has_no_edges::<A>(blurred, w, h, p.strong_frac, flat_level::<A>(level));
        let edges: Seq<bool> = canny_edges::<A>(blurred, w, h, p.strong_frac);
        dilation_of_nothing(edges, w, h);
        let map: Seq<bool> = outline_map::<A>(rgba, w, h, p.strong_frac);
        assert(map == dilation(edges, w, h));
        assert forall|s: int| !is_candidate(map, w, p.min_component_px as int, s) by {
            assert(!is_set(map, s));
        }
    }
}

/// The answer rests on the colours of the pixels alone: neither their opacity
/// nor what follows the last pixel has a part in it.
pub proof fn answer_rests_on_colours<A: Arithmetic>(
    a: Seq<u8>,
    b: Seq<u8>,
    w: int,
    h: int,
    p: Params,
)
    requires
        0 <= w,
        0 <= h,
        w * h * 4 <= a.len(),
        w * h * 4 <= b.len(),
        forall|k: int| 0 <= k < w * h * 4 && k % 4 != 3 ==> #[trigger] a[k] == b[k],
    ensures
        finding::<A>(a, w, h, p) == finding::<A>(b, w, h, p),
{
    assert(0 <= w * h) by (nonlinear_arith)
        requires
            0 <= w,
            0 <= h,
    ;
    brightness_rests_on_colours::<A>(a, b, (w * h) as nat);
    reveal(outline_hull);
}

/// The area limits bound what is found: the part of the frame that the corners
/// cover is neither below the lower limit nor above the upper one. As numbers,
/// the three are in order.
pub proof fn found_area_is_within_limits<A: Arithmetic>(rgba: Seq<u8>, w: int, h: int, p: Params)
    requires
        finding::<A>(rgba, w, h, p).found,
    ensures
        ({
            let part = coverage::<A>(finding::<A>(rgba, w, h, p).corners, w, h);
            &&& !part.less(p.min_area_frac)
            &&& !p.max_area_frac.less(part)
            &&& !part.is_nan() && !p.min_area_frac.is_nan() ==> p.min_area_frac.at_most(part)
            &&& !part.is_nan() && !p.max_area_frac.is_nan() ==> part.at_most(p.max_area_frac)
        }),
{
}

/// Wider limits on the area keep an answer that was found.
pub proof fn wider_limits_keep_the_answer<A: Arithmetic>(
    rgba: Seq<u8>,
    w: int,
    h: int,
    p: Params,
    wider: Params,
)
    requires
        finding::<A>(rgba, w, h, p).found,
        wider.strong_frac == p.strong_frac,
        wider.min_component_px == p.min_component_px,
        wider.min_area_frac.at_most(p.min_area_frac),
        p.max_area_frac.at_most(wider.max_area_frac),
    ensures
        finding::<A>(rgba, w, h, wider) == finding::<A>(rgba, w, h, p),
{
    reveal(outline_hull);
}

/// The packed form tells all: two answers with the same packed form are the
/// same, where the arithmetic tells the two types apart.
pub proof fn packing_is_lossless<A: Arithmetic>(f: Finding, g: Finding)
    requires
        is_consistent(f),
        is_consistent(g),
        packed::<A>(f) == packed::<A>(g),
        A::from_usize_of(1) != A::from_usize_of(2),
    ensures
        f == g,
{
    let a: Seq<Single> = packed::<A>(f);
    let b: Seq<Single> = packed::<A>(g);
    assert(a[0] == b[0]);
    assert(f.found == g.found);
    if f.found {
        assert(a[9] == b[9]);
        assert(a[10] == b[10]);
        assert forall|k: int| 0 <= k < 4 implies #[trigger] f.corners[k] == g.corners[k] by {
            assert(a[1 + 2 * k] == b[1 + 2 * k]);
            assert(a[2 + 2 * k] == b[2 + 2 * k]);
            assert(a[1] == b[1] && a[2] == b[2] && a[3] == b[3] && a[4] == b[4]);
            assert(a[5] == b[5] && a[6] == b[6] && a[7] == b[7] && a[8] == b[8]);
        }
        assert(f.corners =~= g.corners);
    }
}

/// The points of the hull of the outline stand for set pixels of the map.
proof fn lemma_hull_points_are_set<A: Arithmetic>(
    rgba: Seq<u8>,
    w: int,
    h: int,
    p: Params,
    hull: Seq<(i32, i32)>,
    k: int,
)
    requires
        0 < w,
        0 <= h,
        outline_hull::<A>(rgba, w, h, p) == Some(hull),
        0 <= k < hull.len(),
    ensures
        is_map_point(outline_map::<A>(rgba, w, h, p.strong_frac), w, hull[k]),
{
    reveal(outline_hull);
    let map: Seq<bool> = outline_map::<A>(rgba, w, h, p.strong_frac);
    let min: int = p.min_component_px as int;
    let points: Seq<(i32, i32)> = largest_points(map, w, h, min)->0;
    assert(0 <= w * h) by (nonlinear_arith)
        requires
            0 < w,
            0 <= h,
    ;
    every_point_set_has_a_hull(points);
    assert(points.contains(hull[k]));
    let j: int = choose|j: int| 0 <= j < points.len() && points[j] == hull[k];
    largest_points_are_set(map, w, h, min, j);
}

/// The corners that stand for a hull are points of it.
proof fn lemma_corners_are_placed<A: Arithmetic>(hull: Seq<(i32, i32)>, i: int) -> (j: int)
    requires
        hull.len() >= 4,
        0 <= i < 4,
    ensures
        0 <= j < hull.len(),
        hull_corners::<A>(hull)[i] == placed::<A>(hull[j]),
{
    let points: Seq<Point> = hull.map_values(|p: (i32, i32)| placed::<A>(p));
    let quad: Seq<Point> = match hull_quad::<A>(points) {
        Some(quad) => quad,
        None => extremes::<A>(points),
    };
    let c: Point = hull_corners::<A>(hull)[i];
    assert(quad.len() == 4) by {
        first_fitting_tolerance_decides::<A>(points);
    }
    extremes_are_members::<A>(quad, i);
    let k: int = choose|k: int| 0 <= k < quad.len() && quad[k] == c;
    assert(points.contains(c)) by {
        match hull_quad::<A>(points) {
            Some(q) => {
                first_fitting_tolerance_decides::<A>(points);
                let t: int = choose|t: int|
                    0 <= t < 5 && #[trigger] fits::<A>(points, t) && q == corners_at::<A>(points, t);
                corners_are_hull_points::<A>(points, t, k);
            },
            None => {
                extremes_are_members::<A>(points, k);
            },
        }
    }
    choose|j: int| 0 <= j < points.len() && points[j] == c
}

/// The corners that are found stand for edge pixels of the frame.
pub proof fn found_corners_are_edge_points<A: Arithmetic>(
    rgba: Seq<u8>,
    w: int,
    h: int,
    p: Params,
)
    requires
        finding::<A>(rgba, w, h, p).found,
    ensures
        forall|k: int|
            0 <= k < 4 ==> is_edge_point::<A>(
                outline_map::<A>(rgba, w, h, p.strong_frac),
                w,
                #[trigger] finding::<A>(rgba, w, h, p).corners[k],
            ),
{
    let map: Seq<bool> = outline_map::<A>(rgba, w, h, p.strong_frac);
    let hull: Seq<(i32, i32)> = outline_hull::<A>(rgba, w, h, p)->0;
    assert forall|k: int| 0 <= k < 4 implies is_edge_point::<A>(
        map,
        w,
        #[trigger] finding::<A>(rgba, w, h, p).corners[k],
    ) by {
        let j: int = lemma_corners_are_placed::<A>(hull, k);
        lemma_hull_points_are_set::<A>(rgba, w, h, p, hull, j);
        assert(is_map_point(map, w, hull[j]));
    }
}

/// A frame with fewer than 16 columns or rows, or with too few bytes, shows
/// nothing.
pub proof fn small_frames_show_nothing<A: Arithmetic>(rgba: Seq<u8>, w: int, h: int, p: Params)
    requires
        w < 16 || h < 16 || rgba.len() < w * h * 4,
    ensures
        !finding::<A>(rgba, w, h, p).found,
{
}

/// In any other frame the answer is that to the corners of the hull of its
/// outline, if the hull has four corners or more; else nothing is found.
pub proof fn the_hull_of_the_outline_is_assessed<A: Arithmetic>(
    rgba: Seq<u8>,
    w: int,
    h: int,
    p: Params,
)
    requires
        16 <= w,
        16 <= h,
        w * h * 4 <= rgba.len(),
    ensures
        match largest_points(
            outline_map::<A>(rgba, w, h, p.strong_frac),
            w,
            h,
            p.min_component_px as int,
        ) {
            None => !finding::<A>(rgba, w, h, p).found,
            Some(points) => {
                let hull = hull_of(points);
                if hull.len() >= 4 {
                    finding::<A>(rgba, w, h, p) == assessment::<A>(hull_corners::<A>(hull), w, h, p)
                } else {
                    !finding::<A>(rgba, w, h, p).found
                }
            },
        },
{
    reveal(outline_hull);
}

/// The outline is searched among the pixels that lie no more than one column and
/// one row away from an edge of the blurred brightness.
pub proof fn the_outline_is_near_edges<A: Arithmetic>(
    rgba: Seq<u8>,
    w: int,
    h: int,
    strong_frac: Single,
    p: int,
)
    requires
        0 <= p < w * h,
    ensures
        outline_map::<A>(rgba, w, h, strong_frac)[p] <==> exists|q: int|
            0 <= q < w * h && #[trigger] canny_edges::<A>(
                box_blur::<A>(gray_levels::<A>(rgba, (w * h) as nat), w, h),
                w,
                h,
                strong_frac,
            )[q] && -1 <= p % w - q % w <= 1 && -1 <= p / w - q / w <= 1,
{
    let edges: Seq<bool> = canny_edges::<A>(
        box_blur::<A>(gray_levels::<A>(rgba, (w * h) as nat), w, h),
        w,
        h,
        strong_frac,
    );
    assert(edges.len() == w * h);
    dilation_reaches_one_pixel(edges, w, h, p);
}

/// The corners of a hull are the extremes of the quadrilateral to which it is
/// reduced, or else of its own extreme points.
pub proof fn corners_come_from_the_hull<A: Arithmetic>(hull: Seq<(i32, i32)>, points: Seq<Point>)
    requires
        points.len() == hull.len(),
        forall|k: int|
            0 <= k < hull.len() ==> #[trigger] points[k] == (
                A::from_i32_of(hull[k].0),
                A::from_i32_of(hull[k].1),
            ),
    ensures
        hull_quad::<A>(points) matches Some(q) ==> hull_corners::<A>(hull) == extremes::<A>(q),
        hull_quad::<A>(points) is None ==> hull_corners::<A>(hull) == extremes::<A>(
            extremes::<A>(points),
        ),
{
    assert(points =~= hull.map_values(|p: (i32, i32)| placed::<A>(p)));
}

/// The packed form: 1 or 0 for what was found, then x and y of the corners in
/// order, then the type, then the confidence.
pub proof fn packed_layout<A: Arithmetic>(f: Finding, k: int)
    requires
        0 <= k < 4,
    ensures
        packed::<A>(f).len() == 11,
        packed::<A>(f)[0] == Single::of(0x3f80_0000) <==> f.found,
        packed::<A>(f)[0] == Single::of(0) <==> !f.found,
        packed::<A>(f)[1 + 2 * k] == f.corners[k].0,
        packed::<A>(f)[2 + 2 * k] == f.corners[k].1,
        packed::<A>(f)[9] == A::from_usize_of(f.type_code as usize),
        packed::<A>(f)[10] == f.confidence,
{
    assert(k == 0 || k == 1 || k == 2 || k == 3);
}

/// Where nothing is found, the corners, the type and the confidence are 0.
pub proof fn empty_answers_are_all_zero<A: Arithmetic>(
    rgba: Seq<u8>,
    w: int,
    h: int,
    p: Params,
    k: int,
)
    requires
        !finding::<A>(rgba, w, h, p).found,
        0 <= k < 4,
    ensures
        finding::<A>(rgba, w, h, p).corners.len() == 4,
        finding::<A>(rgba, w, h, p).corners[k] == (Single::of(0), Single::of(0)),
        finding::<A>(rgba, w, h, p).type_code == 0,
        finding::<A>(rgba, w, h, p).confidence == Single::of(0),
{
    findings_are_consistent::<A>(rgba, w, h, p);
}

/// The default parameters keep 0.30 of the gradients, accept from 0.10 to 0.97 of
/// the frame, and consider components from 60 pixels on.
pub proof fn default_parameters_by_value()
    ensures
        is_near(default_params().strong_frac, 30real / 100real, 1real / 10000000real),
        is_near(default_params().min_area_frac, 10real / 100real, 1real / 10000000real),
        is_near(default_params().max_area_frac, 97real / 100real, 1real / 10000000real),
        default_params().min_component_px == 60,
{
    lemma_scale_numbers();
    lemma_value_ratio(DEFAULT_STRONG_FRAC, 125, 1677722, 33554432real);
    lemma_value_ratio(DEFAULT_MIN_AREA_FRAC, 123, 5033165, 134217728real);
    lemma_value_ratio(DEFAULT_MAX_AREA_FRAC, 126, 7885292, 16777216real);
    assert((0x0080_0000 + 1677722) as real == 10066330real);
    assert((0x0080_0000 + 5033165) as real == 13421773real);
    assert((0x0080_0000 + 7885292) as real == 16273900real);
}

} // verus!
