//! Corners, area and shape of a quadrilateral.

use crate::number::{
    acos, degrees, diff, faithful, prod, quot, sum, Arithmetic, Single, INFINITY, NEG_INFINITY,
    ONE, ZERO,
};
use crate::polygon::{dist, distance, length, length_of, Point};
use vstd::prelude::*;

verus! {

/// Bit pattern of 0.5.
pub const HALF: u32 = 0x3f00_0000;

/// Bit pattern of -1.0.
pub const MINUS_ONE: u32 = 0xbf80_0000;

/// Bit pattern of 1e-3: a shorter side has no direction.
pub const SHORT_SIDE: u32 = 0x3a83_126f;

/// Bit pattern of 4.0.
pub const FOUR: u32 = 0x4080_0000;

/// Bit pattern of 45.0.
pub const EIGHTH_TURN: u32 = 0x4234_0000;

/// Bit pattern of 90.0.
pub const QUARTER_TURN: u32 = 0x42b4_0000;

/// `k` is the first place of the least key. Keys that are positive infinity or
/// not a number do not count.
pub open spec fn is_first_least(keys: Seq<Single>, k: int) -> bool {
    &&& 0 <= k < keys.len()
    &&& keys[k].less(Single::of(INFINITY))
    &&& forall|j: int| 0 <= j < keys.len() ==> !(#[trigger] keys[j]).less(keys[k])
    &&& forall|j: int| 0 <= j < k ==> !(#[trigger] keys[j]).at_most(keys[k])
}

/// The first place of the least key, or 0 if no key counts.
pub open spec fn first_least(keys: Seq<Single>) -> int {
    if exists|k: int| is_first_least(keys, k) {
        choose|k: int| is_first_least(keys, k)
    } else {
        0
    }
}

/// `k` is the first place of the greatest key. Keys that are negative infinity
/// or not a number do not count.
pub open spec fn is_first_greatest(keys: Seq<Single>, k: int) -> bool {
    &&& 0 <= k < keys.len()
    &&& Single::of(NEG_INFINITY).less(keys[k])
    &&& forall|j: int| 0 <= j < keys.len() ==> !keys[k].less(#[trigger] keys[j])
    &&& forall|j: int| 0 <= j < k ==> !keys[k].at_most(#[trigger] keys[j])
}

/// The first place of the greatest key, or 0 if no key counts.
pub open spec fn first_greatest(keys: Seq<Single>) -> int {
    if exists|k: int| is_first_greatest(keys, k) {
        choose|k: int| is_first_greatest(keys, k)
    } else {
        0
    }
}

/// The running state of a search for the least key: `k` is the answer among the
/// keys so far, and `best` the key at `k`, or infinity if no key counted.
spec fn least_so_far(keys: Seq<Single>, k: int, best: Single) -> bool {
    if best == Single::of(INFINITY) {
        k == 0 && forall|j: int|
            0 <= j < keys.len() ==> !(#[trigger] keys[j]).less(Single::of(INFINITY))
    } else {
        is_first_least(keys, k) && best == keys[k]
    }
}

spec fn greatest_so_far(keys: Seq<Single>, k: int, best: Single) -> bool {
    if best == Single::of(NEG_INFINITY) {
        k == 0 && forall|j: int|
            0 <= j < keys.len() ==> !Single::of(NEG_INFINITY).less(#[trigger] keys[j])
    } else {
        is_first_greatest(keys, k) && best == keys[k]
    }
}

proof fn lemma_least_step(keys: Seq<Single>, k: int, best: Single, key: Single)
    requires
        least_so_far(keys, k, best),
    ensures
        key.less(best) ==> least_so_far(keys.push(key), keys.len() as int, key),
        !key.less(best) ==> least_so_far(keys.push(key), k, best),
{
    let more: Seq<Single> = keys.push(key);
    let n: int = keys.len() as int;
    if key.less(best) {
        assert(more[n] == key);
        assert forall|j: int| 0 <= j < more.len() implies !(#[trigger] more[j]).less(key) by {
            if j < n {
                assert(more[j] == keys[j]);
            }
        }
        assert forall|j: int| 0 <= j < n implies !(#[trigger] more[j]).at_most(key) by {
            assert(more[j] == keys[j]);
        }
    } else {
        if best == Single::of(INFINITY) {
            assert forall|j: int| 0 <= j < more.len() implies !(#[trigger] more[j]).less(
                Single::of(INFINITY),
            ) by {
                if j < n {
                    assert(more[j] == keys[j]);
                }
            }
        } else {
            assert(more[k] == keys[k]);
            assert forall|j: int| 0 <= j < more.len() implies !(#[trigger] more[j]).less(best) by {
                if j < n {
                    assert(more[j] == keys[j]);
                }
            }
            assert forall|j: int| 0 <= j < k implies !(#[trigger] more[j]).at_most(best) by {
                assert(more[j] == keys[j]);
            }
        }
    }
}

proof fn lemma_greatest_step(keys: Seq<Single>, k: int, best: Single, key: Single)
    requires
        greatest_so_far(keys, k, best),
    ensures
        best.less(key) ==> greatest_so_far(keys.push(key), keys.len() as int, key),
        !best.less(key) ==> greatest_so_far(keys.push(key), k, best),
{
    let more: Seq<Single> = keys.push(key);
    let n: int = keys.len() as int;
    if best.less(key) {
        assert(more[n] == key);
        assert forall|j: int| 0 <= j < more.len() implies !key.less(#[trigger] more[j]) by {
            if j < n {
                assert(more[j] == keys[j]);
            }
        }
        assert forall|j: int| 0 <= j < n implies !key.at_most(#[trigger] more[j]) by {
            assert(more[j] == keys[j]);
        }
    } else {
        if best == Single::of(NEG_INFINITY) {
            assert forall|j: int| 0 <= j < more.len() implies !Single::of(NEG_INFINITY).less(
                #[trigger] more[j],
            ) by {
                if j < n {
                    assert(more[j] == keys[j]);
                }
            }
        } else {
            assert(more[k] == keys[k]);
            assert forall|j: int| 0 <= j < more.len() implies !best.less(#[trigger] more[j]) by {
                if j < n {
                    assert(more[j] == keys[j]);
                }
            }
            assert forall|j: int| 0 <= j < k implies !best.at_most(#[trigger] more[j]) by {
                assert(more[j] == keys[j]);
            }
        }
    }
}

proof fn lemma_least_found(keys: Seq<Single>, k: int, best: Single)
    requires
        least_so_far(keys, k, best),
    ensures
        first_least(keys) == k,
{
    if best != Single::of(INFINITY) {
        let c: int = first_least(keys);
        assert(is_first_least(keys, k));
        assert(is_first_least(keys, c));
        assert(c == k) by {
            if c < k {
                assert(!keys[c].at_most(keys[k]));
                assert(!keys[k].less(keys[c]));
            }
            if k < c {
                assert(!keys[k].at_most(keys[c]));
                assert(!keys[c].less(keys[k]));
            }
        }
    }
}

proof fn lemma_greatest_found(keys: Seq<Single>, k: int, best: Single)
    requires
        greatest_so_far(keys, k, best),
    ensures
        first_greatest(keys) == k,
{
    if best != Single::of(NEG_INFINITY) {
        let c: int = first_greatest(keys);
        assert(is_first_greatest(keys, k));
        assert(is_first_greatest(keys, c));
        assert(c == k) by {
            if c < k {
                assert(!keys[k].at_most(keys[c]));
                assert(!keys[c].less(keys[k]));
            }
            if k < c {
                assert(!keys[c].at_most(keys[k]));
                assert(!keys[k].less(keys[c]));
            }
        }
    }
}

/// `x + y` of each point.
pub open spec fn sums<A: Arithmetic>(pts: Seq<Point>) -> Seq<Single> {
    pts.map_values(|p: Point| A::sum_of(p.0, p.1))
}

/// `x - y` of each point.
pub open spec fn differences<A: Arithmetic>(pts: Seq<Point>) -> Seq<Single> {
    pts.map_values(|p: Point| A::diff_of(p.0, p.1))
}

/// The extreme points in the order top left (least `x + y`), top right
/// (greatest `x - y`), bottom right (greatest `x + y`), bottom left (least
/// `x - y`).
pub open spec fn extremes<A: Arithmetic>(pts: Seq<Point>) -> Seq<Point> {
    seq![
        pts[first_least(sums::<A>(pts))],
        pts[first_greatest(differences::<A>(pts))],
        pts[first_greatest(sums::<A>(pts))],
        pts[first_least(differences::<A>(pts))],
    ]
}

/// The four extreme points (least and greatest `x + y` and `x - y`) of a point
/// set: a robust fallback where polygon approximation does not end with exactly
/// four corners.
pub fn extreme_corners<A: Arithmetic>(pts: &[Point]) -> (corners: [Point; 4])
    requires
        pts@.len() > 0,
    ensures
        forall|k: int| 0 <= k < 4 ==> pts@.contains(#[trigger] corners@[k]),
        faithful::<A>() ==> corners@ == extremes::<A>(pts@),
{
    let n: usize = pts.len();
    let mut tl: usize = 0;
    let mut tr: usize = 0;
    let mut br: usize = 0;
    let mut bl: usize = 0;
    let mut mnp: Single = Single::of(INFINITY);
    let mut mxp: Single = Single::of(NEG_INFINITY);
    let mut mnm: Single = Single::of(INFINITY);
    let mut mxm: Single = Single::of(NEG_INFINITY);
    let ghost mut pluses: Seq<Single> = Seq::empty();
    let ghost mut minuses: Seq<Single> = Seq::empty();
    let mut i: usize = 0;
    while i < n
        invariant
            i <= n,
            n == pts@.len(),
            n > 0,
            tl < n,
            tr < n,
            br < n,
            bl < n,
            pluses.len() == i,
            minuses.len() == i,
            least_so_far(pluses, tl as int, mnp),
            greatest_so_far(pluses, br as int, mxp),
            least_so_far(minuses, bl as int, mnm),
            greatest_so_far(minuses, tr as int, mxm),
            faithful::<A>() ==> forall|k: int|
                0 <= k < i ==> #[trigger] pluses[k] == A::sum_of(pts@[k].0, pts@[k].1),
            faithful::<A>() ==> forall|k: int|
                0 <= k < i ==> #[trigger] minuses[k] == A::diff_of(pts@[k].0, pts@[k].1),
        decreases n - i,
    {
        let p: Point = pts[i];
        let plus: Single = sum::<A>(p.0, p.1);
        let minus: Single = diff::<A>(p.0, p.1);
        proof {
            lemma_least_step(pluses, tl as int, mnp, plus);
            lemma_greatest_step(pluses, br as int, mxp, plus);
            lemma_least_step(minuses, bl as int, mnm, minus);
            lemma_greatest_step(minuses, tr as int, mxm, minus);
            pluses = pluses.push(plus);
            minuses = minuses.push(minus);
        }
        if plus.less(mnp) {
            mnp = plus;
            tl = i;
        }
        if mxp.less(plus) {
            mxp = plus;
            br = i;
        }
        if minus.less(mnm) {
            mnm = minus;
            bl = i;
        }
        if mxm.less(minus) {
            mxm = minus;
            tr = i;
        }
        i = i + 1;
    }
    let corners: [Point; 4] = [pts[tl], pts[tr], pts[br], pts[bl]];
    proof {
        assert(pts@.contains(pts@[tl as int]) && pts@.contains(pts@[tr as int]));
        assert(pts@.contains(pts@[br as int]) && pts@.contains(pts@[bl as int]));
        assert forall|k: int| 0 <= k < 4 implies pts@.contains(#[trigger] corners@[k]) by {
            assert(k == 0 || k == 1 || k == 2 || k == 3);
        }
        lemma_least_found(pluses, tl as int, mnp);
        lemma_greatest_found(pluses, br as int, mxp);
        lemma_least_found(minuses, bl as int, mnm);
        lemma_greatest_found(minuses, tr as int, mxm);
        if faithful::<A>() {
            assert(pluses =~= sums::<A>(pts@));
            assert(minuses =~= differences::<A>(pts@));
            assert(corners@ =~= extremes::<A>(pts@));
        }
    }
    corners
}

/// Orders four arbitrary corners as top left, top right, bottom right, bottom
/// left by their extremes of `x + y` and `x - y`.
pub fn order_corners<A: Arithmetic>(q: [Point; 4]) -> (corners: [Point; 4])
    ensures
        forall|k: int| 0 <= k < 4 ==> q@.contains(#[trigger] corners@[k]),
        faithful::<A>() ==> corners@ == extremes::<A>(q@),
{
    extreme_corners::<A>(q.as_slice())
}

/// `x1 y2 - x2 y1` of the side from corner `i` to the next.
pub open spec fn shoelace<A: Arithmetic>(c: Seq<Point>, i: int) -> Single {
    let p = c[i];
    let q = c[(i + 1) % 4];
    A::diff_of(A::prod_of(p.0, q.1), A::prod_of(q.0, p.1))
}

/// Sum of `shoelace` over the first `k` sides.
pub open spec fn shoelace_sum<A: Arithmetic>(c: Seq<Point>, k: int) -> Single
    decreases k,
{
    if k <= 0 {
        Single::of(ZERO)
    } else {
        A::sum_of(shoelace_sum::<A>(c, k - 1), shoelace::<A>(c, k - 1))
    }
}

/// Area of a quadrilateral.
pub open spec fn area<A: Arithmetic>(c: Seq<Point>) -> Single {
    A::prod_of(shoelace_sum::<A>(c, 4), Single::of(HALF)).abs()
}

/// Shoelace area of a quadrilateral.
pub fn quad_area<A: Arithmetic>(c: &[Point; 4]) -> (r: Single)
    ensures
        !r.less(Single::of(ZERO)),
        faithful::<A>() ==> r == area::<A>(c@),
{
    let mut a: Single = Single::of(ZERO);
    let mut i: usize = 0;
    while i < 4
        invariant
            i <= 4,
            faithful::<A>() ==> a == shoelace_sum::<A>(c@, i as int),
        decreases 4 - i,
    {
        let p: Point = c[i];
        let q: Point = c[(i + 1) % 4];
        let side: Single = diff::<A>(prod::<A>(p.0, q.1), prod::<A>(q.0, p.1));
        a = sum::<A>(a, side);
        i = i + 1;
    }
    prod::<A>(a, Single::of(HALF)).abs()
}

/// How far the angle at corner `i` is from a right angle, in degrees; `None` if
/// one of its sides is too short to have a direction.
pub open spec fn deviation<A: Arithmetic>(c: Seq<Point>, i: int) -> Option<Single> {
    let prev = c[(i + 3) % 4];
    let cur = c[i];
    let next = c[(i + 1) % 4];
    let v1x = A::diff_of(prev.0, cur.0);
    let v1y = A::diff_of(prev.1, cur.1);
    let v2x = A::diff_of(next.0, cur.0);
    let v2y = A::diff_of(next.1, cur.1);
    let m1 = length::<A>(v1x, v1y);
    let m2 = length::<A>(v2x, v2y);
    if m1.less(Single::of(SHORT_SIDE)) || m2.less(Single::of(SHORT_SIDE)) {
        None
    } else {
        let cosine = A::quot_of(
            A::sum_of(A::prod_of(v1x, v2x), A::prod_of(v1y, v2y)),
            A::prod_of(m1, m2),
        ).clamp(Single::of(MINUS_ONE), Single::of(ONE));
        Some(A::diff_of(A::degrees_of(A::acos_of(cosine)), Single::of(QUARTER_TURN)).abs())
    }
}

/// Sum of the deviations of the first `k` corners; `None` if one has none.
pub open spec fn deviation_sum<A: Arithmetic>(c: Seq<Point>, k: int) -> Option<Single>
    decreases k,
{
    if k <= 0 {
        Some(Single::of(ZERO))
    } else {
        match (deviation_sum::<A>(c, k - 1), deviation::<A>(c, k - 1)) {
            (Some(total), Some(d)) => Some(A::sum_of(total, d)),
            _ => None,
        }
    }
}

/// 1 if both lengths are equal, less the more they differ.
pub open spec fn symmetry<A: Arithmetic>(a: Single, b: Single) -> Single {
    A::diff_of(Single::of(ONE), A::quot_of(A::diff_of(a, b).abs(), A::sum_of(a, b)))
}

/// Mean of two lengths.
pub open spec fn mean2<A: Arithmetic>(a: Single, b: Single) -> Single {
    A::prod_of(A::sum_of(a, b), Single::of(HALF))
}

/// Aspect ratio, angle score and side score of a quadrilateral with the given
/// corners.
pub open spec fn metrics<A: Arithmetic>(c: Seq<Point>) -> (Single, Single, Single) {
    let zero = Single::of(ZERO);
    let one = Single::of(ONE);
    let top = distance::<A>(c[0], c[1]);
    let right = distance::<A>(c[1], c[2]);
    let bottom = distance::<A>(c[2], c[3]);
    let left = distance::<A>(c[3], c[0]);
    let width = mean2::<A>(top, bottom);
    let height = mean2::<A>(left, right);
    if width.at_most(one) || height.at_most(one) {
        (one, zero, zero)
    } else {
        let aspect = A::quot_of(width.larger(height), width.smaller(height));
        let side_score = A::prod_of(symmetry::<A>(top, bottom), symmetry::<A>(left, right)).clamp(
            zero,
            one,
        );
        let angle_score = match deviation_sum::<A>(c, 4) {
            None => zero,
            Some(total) => A::diff_of(
                one,
                A::quot_of(
                    A::quot_of(total, Single::of(FOUR)),
                    Single::of(EIGHTH_TURN),
                ),
            ).clamp(zero, one),
        };
        (aspect, angle_score, side_score)
    }
}

fn symmetry_of<A: Arithmetic>(a: Single, b: Single) -> (r: Single)
    ensures
        faithful::<A>() ==> r == symmetry::<A>(a, b),
{
    diff::<A>(Single::of(ONE), quot::<A>(diff::<A>(a, b).abs(), sum::<A>(a, b)))
}

fn deviation_of<A: Arithmetic>(c: &[Point; 4], i: usize) -> (r: Option<Single>)
    requires
        i < 4,
    ensures
        faithful::<A>() ==> r == deviation::<A>(c@, i as int),
{
    let prev: Point = c[(i + 3) % 4];
    let cur: Point = c[i];
    let next: Point = c[(i + 1) % 4];
    let v1x: Single = diff::<A>(prev.0, cur.0);
    let v1y: Single = diff::<A>(prev.1, cur.1);
    let v2x: Single = diff::<A>(next.0, cur.0);
    let v2y: Single = diff::<A>(next.1, cur.1);
    let m1: Single = length_of::<A>(v1x, v1y);
    let m2: Single = length_of::<A>(v2x, v2y);
    if m1.less(Single::of(SHORT_SIDE)) || m2.less(Single::of(SHORT_SIDE)) {
        return None;
    }
    let dot: Single = sum::<A>(prod::<A>(v1x, v2x), prod::<A>(v1y, v2y));
    let cosine: Single = quot::<A>(dot, prod::<A>(m1, m2)).clamp(
        Single::of(MINUS_ONE),
        Single::of(ONE),
    );
    Some(diff::<A>(degrees::<A>(acos::<A>(cosine)), Single::of(QUARTER_TURN)).abs())
}

/// Returns `(aspect_ratio, angle_score, side_score)`.
pub fn quad_metrics<A: Arithmetic>(c: &[Point; 4]) -> (r: (Single, Single, Single))
    ensures
        !r.1.less(Single::of(ZERO)) && !Single::of(ONE).less(r.1),
        !r.2.less(Single::of(ZERO)) && !Single::of(ONE).less(r.2),
        faithful::<A>() ==> r == metrics::<A>(c@),
{
    let zero: Single = Single::of(ZERO);
    let one: Single = Single::of(ONE);
    let top: Single = dist::<A>(c[0], c[1]);
    let right: Single = dist::<A>(c[1], c[2]);
    let bottom: Single = dist::<A>(c[2], c[3]);
    let left: Single = dist::<A>(c[3], c[0]);
    let width: Single = prod::<A>(sum::<A>(top, bottom), Single::of(HALF));
    let height: Single = prod::<A>(sum::<A>(left, right), Single::of(HALF));
    if width.at_most(one) || height.at_most(one) {
        return (one, zero, zero);
    }
    let aspect: Single = quot::<A>(width.larger(height), width.smaller(height));
    let s_h: Single = symmetry_of::<A>(top, bottom);
    let s_v: Single = symmetry_of::<A>(left, right);
    let side_score: Single = prod::<A>(s_h, s_v).clamp(zero, one);
    let mut ang_dev: Single = zero;
    let mut i: usize = 0;
    while i < 4
        invariant
            i <= 4,
            zero == Single::of(ZERO),
            one == Single::of(ONE),
            !side_score.less(zero) && !one.less(side_score),
            faithful::<A>() ==> deviation_sum::<A>(c@, i as int) == Some(ang_dev),
            faithful::<A>() ==> metrics::<A>(c@) == (
                aspect,
                match deviation_sum::<A>(c@, 4) {
                    None => zero,
                    Some(total) => A::diff_of(
                        one,
                        A::quot_of(
                            A::quot_of(total, Single::of(FOUR)),
                            Single::of(EIGHTH_TURN),
                        ),
                    ).clamp(zero, one),
                },
                side_score,
            ),
        decreases 4 - i,
    {
        match deviation_of::<A>(c, i) {
            None => {
                proof {
                    if faithful::<A>() {
                        lemma_deviation_stays_none::<A>(c@, i + 1, 4);
                    }
                }
                return (aspect, zero, side_score);
            },
            Some(d) => {
                ang_dev = sum::<A>(ang_dev, d);
            },
        }
        i = i + 1;
    }
    let mean: Single = quot::<A>(ang_dev, Single::of(FOUR));
    let angle_score: Single = diff::<A>(one, quot::<A>(mean, Single::of(EIGHTH_TURN))).clamp(
        zero,
        one,
    );
    (aspect, angle_score, side_score)
}

proof fn lemma_deviation_stays_none<A: Arithmetic>(c: Seq<Point>, j: int, k: int)
    requires
        0 <= j <= k,
        deviation_sum::<A>(c, j) is None,
    ensures
        deviation_sum::<A>(c, k) is None,
    decreases k - j,
{
    if j < k {
        lemma_deviation_stays_none::<A>(c, j, k - 1);
    }
}

/// The extremes are points of the given ones.
pub proof fn extremes_are_members<A: Arithmetic>(pts: Seq<Point>, i: int)
    requires
        pts.len() > 0,
        0 <= i < 4,
    ensures
        pts.contains(extremes::<A>(pts)[i]),
{
    let (s, d) = (sums::<A>(pts), differences::<A>(pts));
    assert(0 <= first_least(s) < pts.len() && 0 <= first_least(d) < pts.len());
    assert(0 <= first_greatest(s) < pts.len() && 0 <= first_greatest(d) < pts.len());
}

/// A key below all others is the first of the least.
pub proof fn lemma_strictly_least(keys: Seq<Single>, k: int)
    requires
        0 <= k < keys.len(),
        keys[k].less(Single::of(INFINITY)),
        forall|j: int| 0 <= j < keys.len() && j != k ==> keys[k].less(#[trigger] keys[j]),
    ensures
        first_least(keys) == k,
{
    assert(is_first_least(keys, k));
    let c: int = first_least(keys);
    assert(is_first_least(keys, c));
    assert(!keys[k].less(keys[c]));
}

/// A key above all others is the first of the greatest.
pub proof fn lemma_strictly_greatest(keys: Seq<Single>, k: int)
    requires
        0 <= k < keys.len(),
        Single::of(NEG_INFINITY).less(keys[k]),
        forall|j: int| 0 <= j < keys.len() && j != k ==> (#[trigger] keys[j]).less(keys[k]),
    ensures
        first_greatest(keys) == k,
{
    assert(is_first_greatest(keys, k));
    let c: int = first_greatest(keys);
    assert(is_first_greatest(keys, c));
    assert(!keys[c].less(keys[k]));
}

/// All keys are finite numbers.
pub open spec fn all_count(keys: Seq<Single>) -> bool {
    forall|k: int|
        0 <= k < keys.len() ==> (#[trigger] keys[k]).less(Single::of(INFINITY)) && Single::of(
            NEG_INFINITY,
        ).less(keys[k])
}

proof fn lemma_least_exists(keys: Seq<Single>) -> (k: int)
    requires
        keys.len() > 0,
        all_count(keys),
    ensures
        is_first_least(keys, k),
    decreases keys.len(),
{
    let last: int = keys.len() - 1;
    let rest: Seq<Single> = keys.drop_last();
    if last == 0 {
        0
    } else {
        assert forall|j: int| 0 <= j < rest.len() implies (#[trigger] rest[j]).less(
            Single::of(INFINITY),
        ) && Single::of(NEG_INFINITY).less(rest[j]) by {
            assert(rest[j] == keys[j]);
        }
        let k: int = lemma_least_exists(rest);
        assert(keys[last].less(Single::of(INFINITY)));
        assert forall|j: int| 0 <= j < last implies #[trigger] keys[j] == rest[j] by {}
        assert(rest[k] == keys[k]);
        if keys[last].less(keys[k]) {
            assert forall|j: int| 0 <= j < last implies !(#[trigger] keys[j]).at_most(
                keys[last],
            ) by {
                assert(!rest[j].less(rest[k]));
            }
            last
        } else {
            k
        }
    }
}

proof fn lemma_greatest_exists(keys: Seq<Single>) -> (k: int)
    requires
        keys.len() > 0,
        all_count(keys),
    ensures
        is_first_greatest(keys, k),
    decreases keys.len(),
{
    let last: int = keys.len() - 1;
    let rest: Seq<Single> = keys.drop_last();
    if last == 0 {
        0
    } else {
        assert forall|j: int| 0 <= j < rest.len() implies (#[trigger] rest[j]).less(
            Single::of(INFINITY),
        ) && Single::of(NEG_INFINITY).less(rest[j]) by {
            assert(rest[j] == keys[j]);
        }
        let k: int = lemma_greatest_exists(rest);
        assert(keys[last].less(Single::of(INFINITY)));
        assert forall|j: int| 0 <= j < last implies #[trigger] keys[j] == rest[j] by {}
        assert(rest[k] == keys[k]);
        if keys[k].less(keys[last]) {
            assert forall|j: int| 0 <= j < last implies !keys[last].at_most(
                #[trigger] keys[j],
            ) by {
                assert(!rest[k].less(rest[j]));
            }
            last
        } else {
            k
        }
    }
}

/// Sums and differences of all points are finite.
pub open spec fn all_finite<A: Arithmetic>(pts: Seq<Point>) -> bool {
    all_count(sums::<A>(pts)) && all_count(differences::<A>(pts))
}

/// Points taken from finite ones are finite.
proof fn lemma_finite_part<A: Arithmetic>(pts: Seq<Point>, part: Seq<Point>)
    requires
        all_finite::<A>(pts),
        forall|k: int| 0 <= k < part.len() ==> pts.contains(#[trigger] part[k]),
    ensures
        all_finite::<A>(part),
{
    assert forall|k: int| 0 <= k < part.len() implies (#[trigger] sums::<A>(part)[k]).less(
        Single::of(INFINITY),
    ) && Single::of(NEG_INFINITY).less(sums::<A>(part)[k]) by {
        assert(pts.contains(part[k]));
        let i: int = choose|i: int| 0 <= i < pts.len() && pts[i] == part[k];
        assert(sums::<A>(pts)[i] == sums::<A>(part)[k]);
    }
    assert forall|k: int| 0 <= k < part.len() implies (#[trigger] differences::<A>(part)[k]).less(
        Single::of(INFINITY),
    ) && Single::of(NEG_INFINITY).less(differences::<A>(part)[k]) by {
        assert(pts.contains(part[k]));
        let i: int = choose|i: int| 0 <= i < pts.len() && pts[i] == part[k];
        assert(differences::<A>(pts)[i] == differences::<A>(part)[k]);
    }
}

/// No other point ties with an extreme one. Points that are no extremes may tie
/// with each other.
pub open spec fn extremes_are_unique<A: Arithmetic>(pts: Seq<Point>) -> bool {
    let e = extremes::<A>(pts);
    forall|p: Point| #[trigger]
        pts.contains(p) ==> {
            let (s, d) = (A::sum_of(p.0, p.1), A::diff_of(p.0, p.1));
            &&& s.equals(A::sum_of(e[0].0, e[0].1)) ==> p == e[0]
            &&& d.equals(A::diff_of(e[1].0, e[1].1)) ==> p == e[1]
            &&& s.equals(A::sum_of(e[2].0, e[2].1)) ==> p == e[2]
            &&& d.equals(A::diff_of(e[3].0, e[3].1)) ==> p == e[3]
        }
}

/// The order in which points come does not matter to their extremes, where each
/// of these is unique.
pub proof fn extremes_ignore_order<A: Arithmetic>(pts: Seq<Point>, others: Seq<Point>)
    requires
        pts.len() > 0,
        forall|p: Point| #[trigger] pts.contains(p) <==> others.contains(p),
        all_finite::<A>(pts),
        extremes_are_unique::<A>(pts),
    ensures
        extremes::<A>(pts) == extremes::<A>(others),
{
    assert(others.len() > 0) by {
        assert(pts.contains(pts[0]));
        assert(others.contains(pts[0]));
    }
    let (s, t) = (sums::<A>(pts), sums::<A>(others));
    let (d, e) = (differences::<A>(pts), differences::<A>(others));
    assert forall|i: int| 0 <= i < pts.len() implies pts.contains(#[trigger] pts[i]) by {}
    assert forall|i: int| 0 <= i < others.len() implies pts.contains(#[trigger] others[i]) by {
        assert(others.contains(others[i]));
    }
    lemma_finite_part::<A>(pts, others);
    lemma_least_exists(s);
    lemma_least_exists(t);
    lemma_same_least(pts, others, s, t, first_least(s), first_least(t));
    lemma_least_exists(d);
    lemma_least_exists(e);
    lemma_same_least(pts, others, d, e, first_least(d), first_least(e));
    lemma_greatest_exists(s);
    lemma_greatest_exists(t);
    lemma_same_greatest(pts, others, s, t, first_greatest(s), first_greatest(t));
    lemma_greatest_exists(d);
    lemma_greatest_exists(e);
    lemma_same_greatest(pts, others, d, e, first_greatest(d), first_greatest(e));
}

/// The same points have the same least point, if no other ties with it.
proof fn lemma_same_least(
    pts: Seq<Point>,
    others: Seq<Point>,
    s: Seq<Single>,
    t: Seq<Single>,
    k: int,
    l: int,
)
    requires
        forall|p: Point| #[trigger] pts.contains(p) <==> others.contains(p),
        s.len() == pts.len(),
        t.len() == others.len(),
        forall|i: int, j: int|
            #![trigger s[i], t[j]]
            0 <= i < pts.len() && 0 <= j < others.len() && pts[i] == others[j] ==> s[i] == t[j],
        forall|i: int|
            0 <= i < pts.len() && (#[trigger] s[i]).equals(s[k]) ==> pts[i] == pts[k],
        is_first_least(s, k),
        is_first_least(t, l),
        all_count(s),
        all_count(t),
    ensures
        pts[k] == others[l],
{
    let (p, q) = (pts[k], others[l]);
    assert(pts.contains(p));
    assert(others.contains(q));
    assert(pts.contains(q));
    let i: int = choose|i: int| 0 <= i < others.len() && others[i] == p;
    let j: int = choose|j: int| 0 <= j < pts.len() && pts[j] == q;
    assert(s[k] == t[i] && s[j] == t[l]);
    assert(!s[j].less(s[k]));
    assert(!t[i].less(t[l]));
    assert(s[j].equals(s[k]));
}

/// The same points have the same greatest point, if no other ties with it.
proof fn lemma_same_greatest(
    pts: Seq<Point>,
    others: Seq<Point>,
    s: Seq<Single>,
    t: Seq<Single>,
    k: int,
    l: int,
)
    requires
        forall|p: Point| #[trigger] pts.contains(p) <==> others.contains(p),
        s.len() == pts.len(),
        t.len() == others.len(),
        forall|i: int, j: int|
            #![trigger s[i], t[j]]
            0 <= i < pts.len() && 0 <= j < others.len() && pts[i] == others[j] ==> s[i] == t[j],
        forall|i: int|
            0 <= i < pts.len() && (#[trigger] s[i]).equals(s[k]) ==> pts[i] == pts[k],
        is_first_greatest(s, k),
        is_first_greatest(t, l),
        all_count(s),
        all_count(t),
    ensures
        pts[k] == others[l],
{
    let (p, q) = (pts[k], others[l]);
    assert(pts.contains(p));
    assert(others.contains(q));
    assert(pts.contains(q));
    let i: int = choose|i: int| 0 <= i < others.len() && others[i] == p;
    let j: int = choose|j: int| 0 <= j < pts.len() && pts[j] == q;
    assert(s[k] == t[i] && s[j] == t[l]);
    assert(!s[k].less(s[j]));
    assert(!t[l].less(t[i]));
    assert(s[j].equals(s[k]));
}

/// The extremes bound all points: the first has the least sum of coordinates,
/// the second the greatest difference, the third the greatest sum, the fourth
/// the least difference.
pub proof fn extremes_bound_all_points<A: Arithmetic>(pts: Seq<Point>, k: int)
    requires
        all_finite::<A>(pts),
        0 <= k < pts.len(),
    ensures
        ({
            let e = extremes::<A>(pts);
            let p = pts[k];
            &&& A::sum_of(e[0].0, e[0].1).at_most(A::sum_of(p.0, p.1))
            &&& A::sum_of(p.0, p.1).at_most(A::sum_of(e[2].0, e[2].1))
            &&& A::diff_of(e[3].0, e[3].1).at_most(A::diff_of(p.0, p.1))
            &&& A::diff_of(p.0, p.1).at_most(A::diff_of(e[1].0, e[1].1))
        }),
        forall|i: int| 0 <= i < 4 ==> pts.contains(#[trigger] extremes::<A>(pts)[i]),
{
    let (s, d) = (sums::<A>(pts), differences::<A>(pts));
    lemma_least_exists(s);
    lemma_least_exists(d);
    lemma_greatest_exists(s);
    lemma_greatest_exists(d);
    let (a, b) = (first_least(s), first_greatest(s));
    let (m, n) = (first_least(d), first_greatest(d));
    assert(is_first_least(s, a) && is_first_greatest(s, b));
    assert(is_first_least(d, m) && is_first_greatest(d, n));
    assert(!s[k].less(s[a]) && !s[b].less(s[k]));
    assert(!d[k].less(d[m]) && !d[n].less(d[k]));
    assert(s[k].less(Single::of(INFINITY)) && d[k].less(Single::of(INFINITY)));
    assert(s[b].less(Single::of(INFINITY)) && d[n].less(Single::of(INFINITY)));
}

/// Ordering four corners loses none and repeats none, where four different
/// points are the extremes.
pub proof fn ordering_permutes_the_corners<A: Arithmetic>(q: Seq<Point>)
    requires
        q.len() == 4,
        all_finite::<A>(q),
        extremes::<A>(q).no_duplicates(),
    ensures
        extremes::<A>(q).to_multiset() == q.to_multiset(),
        forall|p: Point| #[trigger] q.contains(p) <==> extremes::<A>(q).contains(p),
{
    let e: Seq<Point> = extremes::<A>(q);
    extremes_bound_all_points::<A>(q, 0);
    let at = |p: Point| choose|i: int| 0 <= i < 4 && q[i] == p;
    let (a, b, c, d) = (at(e[0]), at(e[1]), at(e[2]), at(e[3]));
    assert(q.contains(e[0]) && q.contains(e[1]) && q.contains(e[2]) && q.contains(e[3]));
    assert(q[a] == e[0] && q[b] == e[1] && q[c] == e[2] && q[d] == e[3]);
    assert(a != b && a != c && a != d && b != c && b != d && c != d) by {
        assert(e[0] != e[1] && e[0] != e[2] && e[0] != e[3]);
        assert(e[1] != e[2] && e[1] != e[3] && e[2] != e[3]);
    }
    assert forall|i: int, j: int| 0 <= i < 4 && 0 <= j < 4 && i != j implies q[i] != q[j] by {
        assert(i == a || i == b || i == c || i == d);
        assert(j == a || j == b || j == c || j == d);
    }
    assert forall|p: Point| #[trigger] q.contains(p) <==> e.contains(p) by {
        if q.contains(p) {
            let i: int = choose|i: int| 0 <= i < 4 && q[i] == p;
            assert(i == a || i == b || i == c || i == d);
            assert(e.contains(e[0]) && e.contains(e[1]) && e.contains(e[2]) && e.contains(e[3]));
        }
        if e.contains(p) {
            let i: int = choose|i: int| 0 <= i < 4 && e[i] == p;
            assert(q.contains(e[i]));
        }
    }
    q.to_multiset_ensures();
    e.to_multiset_ensures();
    q.lemma_multiset_has_no_duplicates();
    e.lemma_multiset_has_no_duplicates();
    assert forall|p: Point| #[trigger] e.to_multiset().count(p) == q.to_multiset().count(p) by {
        assert(q.contains(p) <==> q.to_multiset().count(p) > 0);
        assert(e.contains(p) <==> e.to_multiset().count(p) > 0);
        assert(q.to_multiset().contains(p) ==> q.to_multiset().count(p) == 1);
        assert(e.to_multiset().contains(p) ==> e.to_multiset().count(p) == 1);
    }
    assert(e.to_multiset() =~= q.to_multiset());
}

/// Ordered corners stay as they are when they are ordered again, where four
/// different points are the extremes and each of them is unique.
pub proof fn ordering_again_changes_nothing<A: Arithmetic>(q: Seq<Point>)
    requires
        q.len() == 4,
        all_finite::<A>(q),
        extremes::<A>(q).no_duplicates(),
        extremes_are_unique::<A>(q),
    ensures
        extremes::<A>(extremes::<A>(q)) == extremes::<A>(q),
{
    let e: Seq<Point> = extremes::<A>(q);
    ordering_permutes_the_corners::<A>(q);
    extremes_ignore_order::<A>(q, e);
}

/// The area is never below 0, and no score is below 0 or above 1. Where a score
/// is a number it lies from 0 to 1.
pub proof fn measures_are_in_range<A: Arithmetic>(c: Seq<Point>)
    ensures
        ({
            let (aspect, angle, side) = metrics::<A>(c);
            let (zero, one) = (Single::of(ZERO), Single::of(ONE));
            &&& !area::<A>(c).less(zero)
            &&& !angle.less(zero) && !one.less(angle)
            &&& !side.less(zero) && !one.less(side)
            &&& !area::<A>(c).is_nan() ==> zero.at_most(area::<A>(c))
            &&& !angle.is_nan() ==> zero.at_most(angle) && angle.at_most(one)
            &&& !side.is_nan() ==> zero.at_most(side) && side.at_most(one)
        }),
{
}

/// A number divided by one that is not larger, and above 1, is at least 1.
pub open spec fn division_respects_order<A: Arithmetic>() -> bool {
    forall|a: Single, b: Single|
        Single::of(ONE).less(b) && b.at_most(a) && a.less(Single::of(INFINITY)) ==> Single::of(
            ONE,
        ).at_most(#[trigger] A::quot_of(a, b))
}

/// Mean length of the top and the bottom side, and of the left and the right
/// one.
pub open spec fn extents<A: Arithmetic>(c: Seq<Point>) -> (Single, Single) {
    (
        mean2::<A>(distance::<A>(c[0], c[1]), distance::<A>(c[2], c[3])),
        mean2::<A>(distance::<A>(c[3], c[0]), distance::<A>(c[1], c[2])),
    )
}

/// The aspect ratio is that of the long to the short side: at least 1, where
/// division respects order and both lengths are finite.
pub proof fn aspect_is_at_least_one<A: Arithmetic>(c: Seq<Point>)
    requires
        division_respects_order::<A>(),
        extents::<A>(c).0.less(Single::of(INFINITY)),
        extents::<A>(c).1.less(Single::of(INFINITY)),
    ensures
        Single::of(ONE).at_most(metrics::<A>(c).0),
{
}

/// Sums and products do not depend on the order of their operands, and
/// differences only by their sign.
pub open spec fn is_commutative<A: Arithmetic>() -> bool {
    &&& forall|a: Single, b: Single| #[trigger] A::sum_of(a, b) == A::sum_of(b, a)
    &&& forall|a: Single, b: Single| #[trigger] A::prod_of(a, b) == A::prod_of(b, a)
    &&& forall|a: Single, b: Single| (#[trigger] A::diff_of(a, b)).abs() == A::diff_of(b, a).abs()
}

/// The corners counted from the second one on.
pub open spec fn turned(c: Seq<Point>) -> Seq<Point> {
    seq![c[1], c[2], c[3], c[0]]
}

/// Each angle of turned corners deviates as much as it did before: the angle at
/// corner `i` is that at the next corner of the given ones.
pub proof fn turning_keeps_the_angles<A: Arithmetic>(c: Seq<Point>, i: int)
    requires
        c.len() == 4,
        0 <= i < 4,
    ensures
        deviation::<A>(turned(c), i) == deviation::<A>(c, (i + 1) % 4),
{
    assert(i == 0 || i == 1 || i == 2 || i == 3);
}

/// A landscape quadrilateral is measured as a portrait one: turned corners have
/// the same aspect ratio and side score, where sums and products commute. They
/// have the same angle score too, where the four deviations add up to the same
/// in turned order.
pub proof fn turning_keeps_the_metrics<A: Arithmetic>(c: Seq<Point>)
    requires
        c.len() == 4,
        is_commutative::<A>(),
        !extents::<A>(c).0.is_nan() || !extents::<A>(c).1.is_nan(),
    ensures
        metrics::<A>(turned(c)).0 == metrics::<A>(c).0,
        metrics::<A>(turned(c)).2 == metrics::<A>(c).2,
        deviation_sum::<A>(turned(c), 4) == deviation_sum::<A>(c, 4) ==> metrics::<A>(turned(c))
            == metrics::<A>(c),
        deviation_sum::<A>(turned(c), 4) is None <==> deviation_sum::<A>(c, 4) is None,
{
    let t: Seq<Point> = turned(c);
    let (width, height) = extents::<A>(c);
    assert(extents::<A>(t) == (height, width));
    if !width.at_most(Single::of(ONE)) && !height.at_most(Single::of(ONE)) {
        assert(width.larger(height) == height.larger(width));
        assert(width.smaller(height) == height.smaller(width));
    }
    let (top, right) = (distance::<A>(c[0], c[1]), distance::<A>(c[1], c[2]));
    let (bottom, left) = (distance::<A>(c[2], c[3]), distance::<A>(c[3], c[0]));
    assert(symmetry::<A>(right, left) == symmetry::<A>(left, right));
    turning_keeps_the_angles::<A>(c, 0);
    turning_keeps_the_angles::<A>(c, 1);
    turning_keeps_the_angles::<A>(c, 2);
    turning_keeps_the_angles::<A>(c, 3);
    reveal_with_fuel(deviation_sum, 5);
}

} // verus!
