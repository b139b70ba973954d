//! Simplification of a closed outline to a quadrilateral.

use crate::number::{
    diff, faithful, prod, quot, sqrt, sum, Arithmetic, Single, ZERO,
};
use vstd::prelude::*;

verus! {

/// Bit pattern of 1e-6: a shorter base line counts as a point.
pub const TINY_LENGTH: u32 = 0x3586_37bd;

/// Bit patterns of 0.02, 0.03, 0.05, 0.08 and 0.10: the tolerances that are
/// tried, as parts of the perimeter.
pub const TOLERANCE_1: u32 = 0x3ca3_d70a;

pub const TOLERANCE_2: u32 = 0x3cf5_c28f;

pub const TOLERANCE_3: u32 = 0x3d4c_cccd;

pub const TOLERANCE_4: u32 = 0x3da3_d70a;

pub const TOLERANCE_5: u32 = 0x3dcc_cccd;

/// A point in the plane.
pub type Point = (Single, Single);

/// Length of the vector with the given parts.
pub open spec fn length<A: Arithmetic>(dx: Single, dy: Single) -> Single {
    A::sqrt_of(A::sum_of(A::prod_of(dx, dx), A::prod_of(dy, dy)))
}

pub(crate) fn length_of<A: Arithmetic>(dx: Single, dy: Single) -> (r: Single)
    ensures
        faithful::<A>() ==> r == length::<A>(dx, dy),
{
    sqrt::<A>(sum::<A>(prod::<A>(dx, dx), prod::<A>(dy, dy)))
}

/// Distance of two points.
pub open spec fn distance<A: Arithmetic>(a: Point, b: Point) -> Single {
    length::<A>(A::diff_of(a.0, b.0), A::diff_of(a.1, b.1))
}

/// Distance of two points.
pub fn dist<A: Arithmetic>(a: Point, b: Point) -> (d: Single)
    ensures
        faithful::<A>() ==> d == distance::<A>(a, b),
{
    length_of::<A>(diff::<A>(a.0, b.0), diff::<A>(a.1, b.1))
}

/// Sum of the distances between successive points.
pub open spec fn polyline_length<A: Arithmetic>(p: Seq<Point>) -> Single
    decreases p.len(),
{
    if p.len() < 2 {
        Single::of(ZERO)
    } else {
        A::sum_of(
            polyline_length::<A>(p.drop_last()),
            distance::<A>(p[p.len() - 2], p[p.len() - 1]),
        )
    }
}

/// Length of a polyline.
pub fn polyline_len<A: Arithmetic>(p: &[Point]) -> (s: Single)
    ensures
        faithful::<A>() ==> s == polyline_length::<A>(p@),
{
    let n: usize = p.len();
    let mut s: Single = Single::of(ZERO);
    if n == 0 {
        return s;
    }
    let mut i: usize = 1;
    while i < n
        invariant
            1 <= i <= n,
            n == p@.len(),
            faithful::<A>() ==> s == polyline_length::<A>(p@.take(i as int)),
        decreases n - i,
    {
        s = sum::<A>(s, dist::<A>(p[i - 1], p[i]));
        proof {
            let next: Seq<Point> = p@.take(i + 1);
            assert(next.drop_last() =~= p@.take(i as int));
            assert(next[next.len() - 2] == p@[i - 1]);
            assert(next[next.len() - 1] == p@[i as int]);
        }
        i = i + 1;
    }
    assert(p@.take(n as int) =~= p@);
    s
}

/// Distance of `p` from the line through `a` and `b`.
pub open spec fn line_distance<A: Arithmetic>(p: Point, a: Point, b: Point) -> Single {
    let dx = A::diff_of(b.0, a.0);
    let dy = A::diff_of(b.1, a.1);
    let len = length::<A>(dx, dy);
    if len.less(Single::of(TINY_LENGTH)) {
        distance::<A>(p, a)
    } else {
        A::quot_of(
            A::diff_of(
                A::prod_of(dx, A::diff_of(a.1, p.1)),
                A::prod_of(A::diff_of(a.0, p.0), dy),
            ).abs(),
            len,
        )
    }
}

/// Perpendicular distance from `p` to the line through `a` and `b`.
pub fn perp_dist<A: Arithmetic>(p: Point, a: Point, b: Point) -> (d: Single)
    ensures
        faithful::<A>() ==> d == line_distance::<A>(p, a, b),
{
    let dx: Single = diff::<A>(b.0, a.0);
    let dy: Single = diff::<A>(b.1, a.1);
    let len: Single = length_of::<A>(dx, dy);
    if len.less(Single::of(TINY_LENGTH)) {
        return dist::<A>(p, a);
    }
    let area: Single = diff::<A>(
        prod::<A>(dx, diff::<A>(a.1, p.1)),
        prod::<A>(diff::<A>(a.0, p.0), dy),
    );
    quot::<A>(area.abs(), len)
}

/// Among the inner points before index `upto`, the first of those farthest
/// from the line through both ends: its distance and index. Index 0 with
/// distance 0 if none is off the line.
pub open spec fn farthest<A: Arithmetic>(p: Seq<Point>, upto: int) -> (Single, int)
    decreases upto,
{
    if upto <= 1 {
        (Single::of(ZERO), 0)
    } else {
        let (far, k) = farthest::<A>(p, upto - 1);
        let d = line_distance::<A>(p[upto - 1], p[0], p[p.len() - 1]);
        if far.less(d) {
            (d, upto - 1)
        } else {
            (far, k)
        }
    }
}

/// Douglas-Peucker simplification of a polyline with tolerance `eps`.
pub open spec fn simplified<A: Arithmetic>(p: Seq<Point>, eps: Single) -> Seq<Point>
    decreases p.len(),
{
    if p.len() < 2 {
        p
    } else {
        let (far, k) = farthest::<A>(p, p.len() - 1);
        if 0 < k < p.len() - 1 && eps.less(far) {
            simplified::<A>(p.take(k + 1), eps) + simplified::<A>(p.skip(k), eps).skip(1)
        } else {
            seq![p[0], p[p.len() - 1]]
        }
    }
}

/// `part` keeps the ends of `p` and consists of points of `p`.
pub open spec fn keeps_ends(p: Seq<Point>, part: Seq<Point>) -> bool {
    &&& p.len() >= 1 ==> part.len() >= 1 && part[0] == p[0] && part[part.len() - 1] == p[p.len()
        - 1]
    &&& p.len() >= 2 ==> part.len() >= 2
    &&& part.len() <= p.len()
    &&& forall|k: int| 0 <= k < part.len() ==> p.contains(#[trigger] part[k])
}

/// Appends the points of `more` from index `from` on.
fn append(out: &mut Vec<Point>, more: &Vec<Point>, from: usize)
    requires
        from <= more@.len(),
    ensures
        final(out)@ == old(out)@ + more@.skip(from as int),
{
    let n: usize = more.len();
    let mut i: usize = from;
    assert(out@ + more@.subrange(from as int, from as int) =~= out@);
    while i < n
        invariant
            from <= i <= n,
            n == more@.len(),
            out@ == old(out)@ + more@.subrange(from as int, i as int),
        decreases n - i,
    {
        out.push(more[i]);
        assert(old(out)@ + more@.subrange(from as int, i + 1) =~= (old(out)@ + more@.subrange(
            from as int,
            i as int,
        )).push(more@[i as int]));
        i = i + 1;
    }
    assert(more@.subrange(from as int, n as int) =~= more@.skip(from as int));
}

proof fn lemma_join_keeps_ends(p: Seq<Point>, k: int, left: Seq<Point>, right: Seq<Point>)
    requires
        0 < k < p.len() - 1,
        keeps_ends(p.take(k + 1), left),
        keeps_ends(p.skip(k), right),
    ensures
        keeps_ends(p, left + right.skip(1)),
{
    let all: Seq<Point> = left + right.skip(1);
    assert(p.take(k + 1)[0] == p[0]);
    assert(p.skip(k)[p.len() - k - 1] == p[p.len() - 1]);
    assert(all[all.len() - 1] == right[right.len() - 1]);
    assert forall|i: int| 0 <= i < all.len() implies p.contains(#[trigger] all[i]) by {
        if i < left.len() {
            let part: Seq<Point> = p.take(k + 1);
            assert(part.contains(left[i]));
            let j: int = choose|j: int| 0 <= j < part.len() && part[j] == left[i];
            assert(p[j] == all[i]);
        } else {
            let r: int = i - left.len() + 1;
            assert(all[i] == right[r]);
            let part: Seq<Point> = p.skip(k);
            assert(part.contains(right[r]));
            let j: int = choose|j: int| 0 <= j < part.len() && part[j] == right[r];
            assert(p[j + k] == all[i]);
        }
    }
}

/// Douglas-Peucker polyline simplification: appends to `out` the points that
/// remain. The first and the last point always do.
pub fn dp<A: Arithmetic>(pts: &[Point], eps: Single, out: &mut Vec<Point>)
    ensures
        final(out)@.len() >= old(out)@.len(),
        final(out)@.take(old(out)@.len() as int) == old(out)@,
        keeps_ends(pts@, final(out)@.skip(old(out)@.len() as int)),
        faithful::<A>() ==> final(out)@ == old(out)@ + simplified::<A>(pts@, eps),
    decreases pts@.len(),
{
    let n: usize = pts.len();
    let ghost start: Seq<Point> = out@;
    if n < 2 {
        if n == 1 {
            out.push(pts[0]);
        }
        proof {
            assert(out@ =~= start + pts@);
            assert(out@.skip(start.len() as int) =~= pts@);
            assert(out@.take(start.len() as int) =~= start);
            assert(pts@.len() == 1 ==> pts@.contains(pts@[0]));
        }
        return;
    }
    let a: Point = pts[0];
    let b: Point = pts[n - 1];
    let mut dmax: Single = Single::of(ZERO);
    let mut idx: usize = 0;
    let mut i: usize = 1;
    while i < n - 1
        invariant
            1 <= i <= n - 1,
            n == pts@.len(),
            n >= 2,
            a == pts@[0],
            b == pts@[n - 1],
            idx == 0 || idx < i,
            faithful::<A>() ==> (dmax, idx as int) == farthest::<A>(pts@, i as int),
        decreases n - i,
    {
        let d: Single = perp_dist::<A>(pts[i], a, b);
        if dmax.less(d) {
            dmax = d;
            idx = i;
        }
        i = i + 1;
    }
    if idx > 0 && eps.less(dmax) {
        let mut left: Vec<Point> = Vec::new();
        dp::<A>(vstd::slice::slice_subrange(pts, 0, idx + 1), eps, &mut left);
        let mut right: Vec<Point> = Vec::new();
        dp::<A>(vstd::slice::slice_subrange(pts, idx, n), eps, &mut right);
        proof {
            let k: int = idx as int;
            assert(pts@.subrange(0, k + 1) =~= pts@.take(k + 1));
            assert(pts@.subrange(k, n as int) =~= pts@.skip(k));
            assert(left@.skip(0) =~= left@);
            assert(right@.skip(0) =~= right@);
            assert(Seq::<Point>::empty() + simplified::<A>(pts@.take(k + 1), eps) =~= simplified::<
                A,
            >(pts@.take(k + 1), eps));
            assert(Seq::<Point>::empty() + simplified::<A>(pts@.skip(k), eps) =~= simplified::<A>(
                pts@.skip(k),
                eps,
            ));
            lemma_join_keeps_ends(pts@, k, left@, right@);
        }
        append(out, &left, 0);
        append(out, &right, 1);
        proof {
            let more: Seq<Point> = left@ + right@.skip(1);
            assert(left@.skip(0) =~= left@);
            assert(out@ =~= start + more);
            assert(out@.skip(start.len() as int) =~= more);
            assert(out@.take(start.len() as int) =~= start);
        }
    } else {
        out.push(a);
        out.push(b);
        proof {
            let more: Seq<Point> = seq![a, b];
            assert(out@ =~= start + more);
            assert(out@.skip(start.len() as int) =~= more);
            assert(out@.take(start.len() as int) =~= start);
            assert(pts@.contains(pts@[0]));
            assert(pts@.contains(pts@[n - 1]));
            assert(more[0] == pts@[0] && more[1] == pts@[n - 1]);
        }
    }
}

/// Two points with equal coordinates.
pub open spec fn coincide(p: Point, q: Point) -> bool {
    p.0.equals(q.0) && p.1.equals(q.1)
}

/// The sequence without the points that coincide with the one kept before.
pub open spec fn without_repeats(p: Seq<Point>) -> Seq<Point>
    decreases p.len(),
{
    if p.len() == 0 {
        p
    } else {
        let kept = without_repeats(p.drop_last());
        if kept.len() > 0 && coincide(p.last(), kept.last()) {
            kept
        } else {
            kept.push(p.last())
        }
    }
}

/// A closed polyline without its last point, where that coincides with the
/// first, and without repeated points.
pub open spec fn opened(p: Seq<Point>) -> Seq<Point> {
    without_repeats(
        if p.len() >= 2 && coincide(p[0], p[p.len() - 1]) {
            p.drop_last()
        } else {
            p
        },
    )
}

/// Drops the end of a closed polyline and its repeated points.
fn open_ring(ring: &Vec<Point>) -> (out: Vec<Point>)
    ensures
        out@ == opened(ring@),
        forall|k: int| 0 <= k < out@.len() ==> ring@.contains(#[trigger] out@[k]),
{
    let n: usize = ring.len();
    let m: usize = if n >= 2 && ring[0].0.equals(ring[n - 1].0) && ring[0].1.equals(ring[n - 1].1) {
        n - 1
    } else {
        n
    };
    let mut out: Vec<Point> = Vec::new();
    let mut i: usize = 0;
    assert(ring@.take(0) =~= Seq::empty());
    while i < m
        invariant
            i <= m <= n,
            n == ring@.len(),
            out@ == without_repeats(ring@.take(i as int)),
            forall|k: int| 0 <= k < out@.len() ==> ring@.contains(#[trigger] out@[k]),
        decreases m - i,
    {
        let p: Point = ring[i];
        proof {
            let next: Seq<Point> = ring@.take(i + 1);
            assert(next.drop_last() =~= ring@.take(i as int));
            assert(next.last() == p);
            assert(ring@.contains(ring@[i as int]));
        }
        let c: usize = out.len();
        let repeated: bool = c > 0 && p.0.equals(out[c - 1].0) && p.1.equals(out[c - 1].1);
        if !repeated {
            out.push(p);
        }
        i = i + 1;
    }
    proof {
        assert(m == n ==> ring@.take(m as int) =~= ring@);
        assert(m + 1 == n ==> ring@.take(m as int) =~= ring@.drop_last());
    }
    out
}

/// Turn of the closed polygon `p` at the corner after corner `i`.
pub open spec fn corner_turn<A: Arithmetic>(p: Seq<Point>, i: int) -> Single {
    let n = p.len() as int;
    let a = p[i];
    let b = p[(i + 1) % n];
    let c = p[(i + 2) % n];
    A::diff_of(
        A::prod_of(A::diff_of(b.0, a.0), A::diff_of(c.1, b.1)),
        A::prod_of(A::diff_of(b.1, a.1), A::diff_of(c.0, b.0)),
    )
}

/// The turns of all corners.
pub open spec fn corner_turns<A: Arithmetic>(p: Seq<Point>) -> Seq<Single> {
    Seq::new(p.len(), |i: int| corner_turn::<A>(p, i))
}

/// No two turns go in opposite directions.
pub open spec fn turns_agree(turns: Seq<Single>) -> bool {
    forall|i: int, j: int|
        #![trigger turns[i], turns[j]]
        0 <= i < turns.len() && 0 <= j < turns.len() ==> !(Single::of(ZERO).less(turns[i])
            && turns[j].less(Single::of(ZERO)))
}

/// A polygon of four corners or more that nowhere turns back.
pub open spec fn convex<A: Arithmetic>(p: Seq<Point>) -> bool {
    p.len() >= 4 && turns_agree(corner_turns::<A>(p))
}

/// Whether a polygon of at least four corners turns one way only.
pub fn is_convex<A: Arithmetic>(p: &[Point]) -> (r: bool)
    ensures
        p@.len() < 4 ==> !r,
        faithful::<A>() ==> r == convex::<A>(p@),
{
    let n: usize = p.len();
    if n < 4 {
        return false;
    }
    let ghost mut turns: Seq<Single> = Seq::empty();
    let mut sign: i32 = 0;
    let ghost mut first: int = 0;
    let mut i: usize = 0;
    while i < n
        invariant
            i <= n,
            n == p@.len(),
            n >= 4,
            turns.len() == i,
            faithful::<A>() ==> forall|k: int|
                0 <= k < i ==> #[trigger] turns[k] == corner_turn::<A>(p@, k),
            sign == 0 || sign == 1 || sign == -1,
            sign == 1 ==> 0 <= first < i && Single::of(ZERO).less(turns[first]),
            sign == -1 ==> 0 <= first < i && turns[first].less(Single::of(ZERO)),
            forall|k: int|
                0 <= k < i ==> {
                    &&& (Single::of(ZERO).less(#[trigger] turns[k]) ==> sign == 1)
                    &&& (turns[k].less(Single::of(ZERO)) ==> sign == -1)
                },
        decreases n - i,
    {
        let a: Point = p[i];
        let i1: usize = if i + 1 < n {
            i + 1
        } else {
            0
        };
        let i2: usize = if i1 + 1 < n {
            i1 + 1
        } else {
            0
        };
        proof {
            lemma_ring_index(i as int, n as int);
        }
        let b: Point = p[i1];
        let c: Point = p[i2];
        let cr: Single = diff::<A>(
            prod::<A>(diff::<A>(b.0, a.0), diff::<A>(c.1, b.1)),
            prod::<A>(diff::<A>(b.1, a.1), diff::<A>(c.0, b.0)),
        );
        let s: i32 = if Single::of(ZERO).less(cr) {
            1
        } else if cr.less(Single::of(ZERO)) {
            -1
        } else {
            0
        };
        proof {
            turns = turns.push(cr);
        }
        if s != 0 {
            if sign == 0 {
                sign = s;
                proof {
                    first = i as int;
                }
            } else if s != sign {
                proof {
                    if faithful::<A>() {
                        let all: Seq<Single> = corner_turns::<A>(p@);
                        assert(all[first] == turns[first]);
                        assert(all[i as int] == cr);
                        assert(!turns_agree(all));
                    }
                }
                return false;
            }
        }
        i = i + 1;
    }
    proof {
        if faithful::<A>() {
            assert(turns =~= corner_turns::<A>(p@));
        }
    }
    true
}

/// The indices after `i` in a ring of `n` places.
proof fn lemma_ring_index(i: int, n: int)
    requires
        0 <= i < n,
        2 <= n,
    ensures
        (i + 1) % n == if i + 1 < n {
            i + 1
        } else {
            0
        },
        (i + 2) % n == if i + 2 < n {
            i + 2
        } else {
            i + 2 - n
        },
{
    if i + 1 < n {
        vstd::arithmetic::div_mod::lemma_small_mod((i + 1) as nat, n as nat);
    } else {
        vstd::arithmetic::div_mod::lemma_mod_self_0(n);
    }
    if i + 2 < n {
        vstd::arithmetic::div_mod::lemma_small_mod((i + 2) as nat, n as nat);
    } else {
        vstd::arithmetic::div_mod::lemma_mod_add_multiples_vanish(i + 2 - n, n);
        vstd::arithmetic::div_mod::lemma_small_mod((i + 2 - n) as nat, n as nat);
    }
}

/// The tolerance parts in the order in which they are tried.
pub open spec fn tolerances() -> Seq<u32> {
    seq![TOLERANCE_1, TOLERANCE_2, TOLERANCE_3, TOLERANCE_4, TOLERANCE_5]
}

/// The hull as a closed polyline.
pub open spec fn closed_ring(hull: Seq<Point>) -> Seq<Point> {
    hull.push(hull[0])
}

/// The corners that remain of a hull at the tolerance with index `k`.
pub open spec fn corners_at<A: Arithmetic>(hull: Seq<Point>, k: int) -> Seq<Point> {
    let ring = closed_ring(hull);
    let eps = A::prod_of(Single::of(tolerances()[k]), polyline_length::<A>(ring));
    opened(simplified::<A>(ring, eps))
}

/// The tolerance with index `k` leaves a convex quadrilateral.
pub open spec fn fits<A: Arithmetic>(hull: Seq<Point>, k: int) -> bool {
    corners_at::<A>(hull, k).len() == 4 && convex::<A>(corners_at::<A>(hull, k))
}

/// The convex quadrilateral at the first tolerance from `k` on that leaves one.
pub open spec fn quad_from<A: Arithmetic>(hull: Seq<Point>, k: int) -> Option<Seq<Point>>
    decreases 5 - k,
{
    if k >= 5 {
        None
    } else if fits::<A>(hull, k) {
        Some(corners_at::<A>(hull, k))
    } else {
        quad_from::<A>(hull, k + 1)
    }
}

/// The quadrilateral that simplification makes of a hull, if there is one.
pub open spec fn hull_quad<A: Arithmetic>(hull: Seq<Point>) -> Option<Seq<Point>> {
    if hull.len() < 4 {
        None
    } else {
        quad_from::<A>(hull, 0)
    }
}

/// The bit pattern of the tolerance part with index `k`.
fn tolerance(k: usize) -> (bits: u32)
    requires
        k < 5,
    ensures
        bits == tolerances()[k as int],
{
    if k == 0 {
        TOLERANCE_1
    } else if k == 1 {
        TOLERANCE_2
    } else if k == 2 {
        TOLERANCE_3
    } else if k == 3 {
        TOLERANCE_4
    } else {
        TOLERANCE_5
    }
}

/// Reduces a convex hull to exactly four corners by Douglas-Peucker, with
/// growing tolerance. `None` if no tolerance leaves a convex quadrilateral.
pub fn quad_from_hull<A: Arithmetic>(hull: &[Point]) -> (quad: Option<[Point; 4]>)
    ensures
        hull@.len() < 4 ==> quad is None,
        quad matches Some(q) ==> forall|k: int| 0 <= k < 4 ==> hull@.contains(#[trigger] q@[k]),
        faithful::<A>() ==> match hull_quad::<A>(hull@) {
            None => quad is None,
            Some(corners) => quad matches Some(q) && q@ == corners,
        },
{
    let n: usize = hull.len();
    if n < 4 {
        return None;
    }
    let mut closed: Vec<Point> = Vec::new();
    let mut i: usize = 0;
    while i < n
        invariant
            i <= n,
            n == hull@.len(),
            closed@ == hull@.take(i as int),
        decreases n - i,
    {
        closed.push(hull[i]);
        assert(hull@.take(i as int).push(hull@[i as int]) =~= hull@.take(i + 1));
        i = i + 1;
    }
    assert(hull@.take(n as int) =~= hull@);
    closed.push(hull[0]);
    assert(closed@ == closed_ring(hull@));
    proof {
        assert forall|q: Point| closed@.contains(q) implies hull@.contains(q) by {
            let j: int = choose|j: int| 0 <= j < closed@.len() && closed@[j] == q;
            if j < hull@.len() {
                assert(hull@[j] == q);
            } else {
                assert(hull@[0] == q);
            }
        }
    }
    let perim: Single = polyline_len::<A>(closed.as_slice());
    let mut k: usize = 0;
    while k < 5
        invariant
            k <= 5,
            n == hull@.len(),
            n >= 4,
            closed@ == closed_ring(hull@),
            forall|q: Point| #[trigger] closed@.contains(q) ==> hull@.contains(q),
            faithful::<A>() ==> perim == polyline_length::<A>(closed@),
            faithful::<A>() ==> hull_quad::<A>(hull@) == quad_from::<A>(hull@, k as int),
        decreases 5 - k,
    {
        let eps: Single = prod::<A>(Single::of(tolerance(k)), perim);
        let mut simp: Vec<Point> = Vec::new();
        dp::<A>(closed.as_slice(), eps, &mut simp);
        proof {
            assert(simp@.skip(0) =~= simp@);
            assert(Seq::<Point>::empty() + simplified::<A>(closed@, eps) =~= simplified::<A>(
                closed@,
                eps,
            ));
        }
        let corners: Vec<Point> = open_ring(&simp);
        proof {
            assert forall|j: int| 0 <= j < corners@.len() implies hull@.contains(
                #[trigger] corners@[j],
            ) by {
                assert(simp@.contains(corners@[j]));
                let m: int = choose|m: int| 0 <= m < simp@.len() && simp@[m] == corners@[j];
                assert(closed@.contains(simp@[m]));
            }
        }
        if corners.len() == 4 && is_convex::<A>(corners.as_slice()) {
            let quad: [Point; 4] = [corners[0], corners[1], corners[2], corners[3]];
            assert(quad@ =~= corners@);
            return Some(quad);
        }
        k = k + 1;
    }
    None
}

/// `places` says where the points of `part` stand in `p`: in order, from the
/// first point to the last.
pub open spec fn is_selection(p: Seq<Point>, part: Seq<Point>, places: Seq<int>) -> bool {
    &&& places.len() == part.len()
    &&& places.len() >= 2
    &&& places[0] == 0
    &&& places[places.len() - 1] == p.len() - 1
    &&& forall|k: int, l: int| 0 <= k < l < places.len() ==> #[trigger] places[k] < #[trigger] places[l]
    &&& forall|k: int| 0 <= k < places.len() ==> #[trigger] part[k] == p[places[k]]
}

/// No point between two places is farther than `eps` from the line through the
/// points at these places.
pub open spec fn is_close_between<A: Arithmetic>(
    p: Seq<Point>,
    from: int,
    to: int,
    eps: Single,
) -> bool {
    forall|j: int|
        from < j < to ==> !eps.less(line_distance::<A>(#[trigger] p[j], p[from], p[to]))
}

/// The points after place `k`, up to the next place, are close.
pub open spec fn is_close_after<A: Arithmetic>(
    p: Seq<Point>,
    places: Seq<int>,
    k: int,
    eps: Single,
) -> bool {
    is_close_between::<A>(p, places[k], places[k + 1], eps)
}

/// No point between two neighbouring places is farther than `eps` from the line
/// through the points at these places.
pub open spec fn stays_close<A: Arithmetic>(p: Seq<Point>, places: Seq<int>, eps: Single) -> bool {
    forall|k: int| 0 <= k < places.len() - 1 ==> #[trigger] is_close_after::<A>(p, places, k, eps)
}

/// No inner point is farther from the line through both ends than the farthest.
pub proof fn farthest_is_farthest<A: Arithmetic>(p: Seq<Point>, upto: int)
    requires
        upto < p.len(),
    ensures
        !farthest::<A>(p, upto).0.is_nan(),
        Single::of(ZERO).at_most(farthest::<A>(p, upto).0),
        farthest::<A>(p, upto).1 == 0 ==> farthest::<A>(p, upto).0 == Single::of(ZERO),
        upto >= 1 ==> 0 <= farthest::<A>(p, upto).1 < upto,
        forall|j: int|
            0 < j < upto ==> !farthest::<A>(p, upto).0.less(
                line_distance::<A>(#[trigger] p[j], p[0], p[p.len() - 1]),
            ),
    decreases upto,
{
    if upto > 1 {
        farthest_is_farthest::<A>(p, upto - 1);
    }
}

/// The places of two selections that meet at place `m`, the second counted from
/// there.
spec fn joined(first: Seq<int>, second: Seq<int>, m: int) -> Seq<int> {
    Seq::new(
        (first.len() + second.len() - 1) as nat,
        |k: int|
            if k < first.len() {
                first[k]
            } else {
                m + second[k - first.len() + 1]
            },
    )
}

/// The places of a selection lie within the polyline.
proof fn lemma_places_within(p: Seq<Point>, part: Seq<Point>, places: Seq<int>, k: int)
    requires
        is_selection(p, part, places),
        0 <= k < places.len(),
    ensures
        0 <= places[k] < p.len(),
{
    let last: int = places.len() - 1;
    if 0 < k {
        assert(places[0] < places[k]);
    }
    if k < last {
        assert(places[k] < places[last]);
    }
}

/// Two selections that meet make one of the whole polyline.
proof fn lemma_joined_selection(
    p: Seq<Point>,
    m: int,
    part1: Seq<Point>,
    part2: Seq<Point>,
    first: Seq<int>,
    second: Seq<int>,
)
    requires
        0 < m < p.len() - 1,
        is_selection(p.take(m + 1), part1, first),
        is_selection(p.skip(m), part2, second),
    ensures
        is_selection(p, part1 + part2.skip(1), joined(first, second, m)),
{
    let a: int = first.len() as int;
    let places: Seq<int> = joined(first, second, m);
    let part: Seq<Point> = part1 + part2.skip(1);
    assert(first[a - 1] == m);
    assert forall|k: int| a - 1 <= k < places.len() implies #[trigger] places[k] == m + second[k - a
        + 1] by {}
    assert forall|k: int, l: int| 0 <= k < l < places.len() implies #[trigger] places[k]
        < #[trigger] places[l] by {
        if l < a {
            assert(first[k] < first[l]);
        } else if k >= a - 1 {
            assert(second[k - a + 1] < second[l - a + 1]);
        } else {
            assert(first[k] < first[a - 1]);
            assert(second[0] < second[l - a + 1]);
        }
    }
    assert forall|k: int| 0 <= k < places.len() implies #[trigger] part[k] == p[places[k]] by {
        if k < a {
            assert(part1[k] == p.take(m + 1)[first[k]]);
            lemma_places_within(p.take(m + 1), part1, first, k);
        } else {
            let l: int = k - a + 1;
            assert(part2[l] == p.skip(m)[second[l]]);
            lemma_places_within(p.skip(m), part2, second, l);
        }
    }
}

/// What is close in a part of a polyline is close in the whole.
proof fn lemma_close_in_part<A: Arithmetic>(
    p: Seq<Point>,
    start: int,
    end: int,
    from: int,
    to: int,
    eps: Single,
)
    requires
        0 <= start <= end <= p.len(),
        0 <= from < to < end - start,
        is_close_between::<A>(p.subrange(start, end), from, to, eps),
    ensures
        is_close_between::<A>(p, start + from, start + to, eps),
{
    let part: Seq<Point> = p.subrange(start, end);
    assert(part[from] == p[start + from] && part[to] == p[start + to]);
    assert forall|j: int| start + from < j < start + to implies !eps.less(
        line_distance::<A>(#[trigger] p[j], p[start + from], p[start + to]),
    ) by {
        assert(part[j - start] == p[j]);
    }
}

/// Where two selections that meet stay close, so does the joined one.
proof fn lemma_joined_close<A: Arithmetic>(
    p: Seq<Point>,
    m: int,
    part1: Seq<Point>,
    part2: Seq<Point>,
    first: Seq<int>,
    second: Seq<int>,
    eps: Single,
)
    requires
        0 < m < p.len() - 1,
        is_selection(p.take(m + 1), part1, first),
        is_selection(p.skip(m), part2, second),
        stays_close::<A>(p.take(m + 1), first, eps),
        stays_close::<A>(p.skip(m), second, eps),
    ensures
        stays_close::<A>(p, joined(first, second, m), eps),
{
    let (p1, p2) = (p.take(m + 1), p.skip(m));
    let a: int = first.len() as int;
    let places: Seq<int> = joined(first, second, m);
    assert(p1 =~= p.subrange(0, m + 1));
    assert(p2 =~= p.subrange(m, p.len() as int));
    assert forall|k: int| 0 <= k < places.len() - 1 implies #[trigger] is_close_after::<A>(
        p,
        places,
        k,
        eps,
    ) by {
        if k < a - 1 {
            assert(is_close_after::<A>(p1, first, k, eps));
            lemma_places_within(p1, part1, first, k);
            lemma_places_within(p1, part1, first, k + 1);
            assert(first[k] < first[k + 1]);
            lemma_close_in_part::<A>(p, 0, m + 1, first[k], first[k + 1], eps);
            assert(places[k] == first[k] && places[k + 1] == first[k + 1]);
        } else {
            let l: int = k - a + 1;
            assert(is_close_after::<A>(p2, second, l, eps));
            lemma_places_within(p2, part2, second, l);
            lemma_places_within(p2, part2, second, l + 1);
            assert(second[l] < second[l + 1]);
            lemma_close_in_part::<A>(p, m, p.len() as int, second[l], second[l + 1], eps);
            assert(places[k] == m + second[l] && places[k + 1] == m + second[l + 1]);
        }
    }
}

/// Where no inner point is farther than `eps` from the line through the ends, the
/// ends alone stay close.
proof fn lemma_ends_close<A: Arithmetic>(p: Seq<Point>, eps: Single)
    requires
        p.len() >= 2,
        !eps.less(farthest::<A>(p, p.len() - 1).0),
    ensures
        is_selection(p, seq![p[0], p[p.len() - 1]], seq![0, p.len() - 1]),
        stays_close::<A>(p, seq![0, p.len() - 1], eps),
{
    let n: int = p.len() as int;
    let places: Seq<int> = seq![0, n - 1];
    let far: Single = farthest::<A>(p, n - 1).0;
    farthest_is_farthest::<A>(p, n - 1);
    assert(is_close_between::<A>(p, 0, n - 1, eps)) by {
        assert forall|j: int| 0 < j < n - 1 implies !eps.less(
            line_distance::<A>(#[trigger] p[j], p[0], p[n - 1]),
        ) by {
            assert(!far.less(line_distance::<A>(p[j], p[0], p[n - 1])));
        }
    }
    assert(places[0] == 0 && places[1] == n - 1);
}

/// Simplification stays close to the polyline: the points that it drops between
/// two kept ones are no farther than `eps` from the line through these.
pub proof fn simplification_stays_close<A: Arithmetic>(p: Seq<Point>, eps: Single) -> (places: Seq<
    int,
>)
    requires
        p.len() >= 2,
        !eps.less(Single::of(ZERO)),
    ensures
        is_selection(p, simplified::<A>(p, eps), places),
        stays_close::<A>(p, places, eps),
    decreases p.len(),
{
    let n: int = p.len() as int;
    let (far, m) = farthest::<A>(p, n - 1);
    farthest_is_farthest::<A>(p, n - 1);
    if 0 < m < n - 1 && eps.less(far) {
        let (p1, p2) = (p.take(m + 1), p.skip(m));
        let part1: Seq<Point> = simplified::<A>(p1, eps);
        let part2: Seq<Point> = simplified::<A>(p2, eps);
        let first: Seq<int> = simplification_stays_close::<A>(p1, eps);
        let second: Seq<int> = simplification_stays_close::<A>(p2, eps);
        lemma_joined_selection(p, m, part1, part2, first, second);
        lemma_joined_close::<A>(p, m, part1, part2, first, second, eps);
        joined(first, second, m)
    } else {
        lemma_ends_close::<A>(p, eps);
        seq![0, n - 1]
    }
}

/// What simplification leaves consists of points of the polyline, its ends among
/// them.
pub proof fn simplification_keeps_ends<A: Arithmetic>(p: Seq<Point>, eps: Single)
    ensures
        keeps_ends(p, simplified::<A>(p, eps)),
    decreases p.len(),
{
    let part: Seq<Point> = simplified::<A>(p, eps);
    let n: int = p.len() as int;
    assert forall|k: int| 0 <= k < n implies p.contains(#[trigger] p[k]) by {}
    if n >= 2 {
        let (far, m) = farthest::<A>(p, n - 1);
        if 0 < m < n - 1 && eps.less(far) {
            simplification_keeps_ends::<A>(p.take(m + 1), eps);
            simplification_keeps_ends::<A>(p.skip(m), eps);
            lemma_join_keeps_ends(
                p,
                m,
                simplified::<A>(p.take(m + 1), eps),
                simplified::<A>(p.skip(m), eps),
            );
        } else {
            assert(part == seq![p[0], p[n - 1]]);
        }
    }
}

proof fn lemma_without_repeats_members(p: Seq<Point>, k: int)
    requires
        0 <= k < without_repeats(p).len(),
    ensures
        p.contains(without_repeats(p)[k]),
    decreases p.len(),
{
    let rest: Seq<Point> = p.drop_last();
    let kept: Seq<Point> = without_repeats(rest);
    if k < kept.len() {
        lemma_without_repeats_members(rest, k);
        let j: int = choose|j: int| 0 <= j < rest.len() && rest[j] == kept[k];
        assert(p[j] == kept[k]);
    } else {
        assert(p[p.len() - 1] == p.last());
    }
}

/// The corners that are left of a hull are points of it.
pub proof fn corners_are_hull_points<A: Arithmetic>(hull: Seq<Point>, k: int, i: int)
    requires
        hull.len() > 0,
        0 <= i < corners_at::<A>(hull, k).len(),
    ensures
        hull.contains(corners_at::<A>(hull, k)[i]),
{
    let ring: Seq<Point> = closed_ring(hull);
    let eps: Single = A::prod_of(Single::of(tolerances()[k]), polyline_length::<A>(ring));
    let part: Seq<Point> = simplified::<A>(ring, eps);
    simplification_keeps_ends::<A>(ring, eps);
    let open: Seq<Point> = if part.len() >= 2 && coincide(part[0], part[part.len() - 1]) {
        part.drop_last()
    } else {
        part
    };
    let c: Point = corners_at::<A>(hull, k)[i];
    lemma_without_repeats_members(open, i);
    let j: int = choose|j: int| 0 <= j < open.len() && open[j] == c;
    assert(part[j] == c);
    assert(ring.contains(part[j]));
    let l: int = choose|l: int| 0 <= l < ring.len() && ring[l] == c;
    if l < hull.len() {
        assert(hull[l] == c);
    } else {
        assert(hull[0] == c);
    }
}

proof fn lemma_quad_from<A: Arithmetic>(hull: Seq<Point>, k: int)
    requires
        0 <= k <= 5,
    ensures
        quad_from::<A>(hull, k) is None <==> forall|j: int| k <= j < 5 ==> !#[trigger] fits::<A>(
            hull,
            j,
        ),
        quad_from::<A>(hull, k) matches Some(q) ==> exists|j: int|
            k <= j < 5 && #[trigger] fits::<A>(hull, j) && q == corners_at::<A>(hull, j) && (forall|
                i: int,
            |
                k <= i < j ==> !#[trigger] fits::<A>(hull, i)),
    decreases 5 - k,
{
    if k < 5 {
        lemma_quad_from::<A>(hull, k + 1);
    }
}

/// A hull is reduced to a convex quadrilateral wherever one of the tolerances
/// leaves one, and the first such tolerance decides.
pub proof fn first_fitting_tolerance_decides<A: Arithmetic>(hull: Seq<Point>)
    requires
        hull.len() >= 4,
    ensures
        hull_quad::<A>(hull) is None <==> forall|k: int| 0 <= k < 5 ==> !#[trigger] fits::<A>(
            hull,
            k,
        ),
        hull_quad::<A>(hull) matches Some(q) ==> q.len() == 4 && convex::<A>(q),
        hull_quad::<A>(hull) matches Some(q) ==> exists|k: int|
            0 <= k < 5 && #[trigger] fits::<A>(hull, k) && q == corners_at::<A>(hull, k) && (forall|
                i: int,
            |
                0 <= i < k ==> !#[trigger] fits::<A>(hull, i)),
{
    lemma_quad_from::<A>(hull, 0);
}

/// Two points are the same, or their coordinates are equal numbers.
pub open spec fn is_same(p: Point, q: Point) -> bool {
    p == q || coincide(p, q)
}

/// Removing repeats keeps each point, up to equal coordinates.
proof fn lemma_repeats_keep(p: Seq<Point>, j: int) -> (i: int)
    requires
        0 <= j < p.len(),
    ensures
        0 <= i < without_repeats(p).len(),
        is_same(p[j], without_repeats(p)[i]),
    decreases p.len(),
{
    let rest: Seq<Point> = p.drop_last();
    let kept: Seq<Point> = without_repeats(rest);
    if j < rest.len() {
        let i: int = lemma_repeats_keep(rest, j);
        assert(rest[j] == p[j]);
        i
    } else {
        if kept.len() > 0 && coincide(p.last(), kept.last()) {
            kept.len() - 1
        } else {
            kept.len() as int
        }
    }
}

/// Opening a closed polyline keeps every point of it, up to equal coordinates.
pub proof fn opening_keeps_every_point(p: Seq<Point>, j: int)
    requires
        0 <= j < p.len(),
    ensures
        exists|i: int| 0 <= i < opened(p).len() && is_same(p[j], #[trigger] opened(p)[i]),
{
    let n: int = p.len() as int;
    if n >= 2 && coincide(p[0], p[n - 1]) {
        let open: Seq<Point> = p.drop_last();
        let l: int = if j == n - 1 {
            0
        } else {
            j
        };
        let i: int = lemma_repeats_keep(open, l);
        assert(open[l] == p[l]);
        let k: Point = opened(p)[i];
        assert(is_same(p[l], k));
        assert(is_same(p[j], k));
    } else {
        let i: int = lemma_repeats_keep(p, j);
        assert(is_same(p[j], opened(p)[i]));
    }
}

/// A sequence in which no point has the coordinates of the one before it has no
/// repeats to remove.
proof fn lemma_no_repeats(p: Seq<Point>)
    requires
        forall|i: int, j: int|
            0 <= i < j < p.len() ==> !coincide(#[trigger] p[j], #[trigger] p[i]),
    ensures
        without_repeats(p) == p,
    decreases p.len(),
{
    if p.len() > 0 {
        let rest: Seq<Point> = p.drop_last();
        assert forall|i: int, j: int| 0 <= i < j < rest.len() implies !coincide(
            #[trigger] rest[j],
            #[trigger] rest[i],
        ) by {
            assert(!coincide(p[j], p[i]));
        }
        lemma_no_repeats(rest);
        if rest.len() > 0 {
            assert(!coincide(p[p.len() - 1], p[p.len() - 2]));
        }
        assert(rest.push(p.last()) =~= p);
    }
}

/// All points have coordinates that are numbers, and no two have the same.
pub open spec fn are_distinct(hull: Seq<Point>) -> bool {
    &&& forall|i: int|
        0 <= i < hull.len() ==> !(#[trigger] hull[i]).0.is_nan() && !hull[i].1.is_nan()
    &&& forall|i: int, j: int|
        0 <= i < hull.len() && 0 <= j < hull.len() && i != j ==> !coincide(
            #[trigger] hull[i],
            #[trigger] hull[j],
        )
}

/// What is left of the ring of a hull with distinct points: the simplified ring
/// without its end.
proof fn lemma_open_ring(hull: Seq<Point>, part: Seq<Point>, places: Seq<int>)
    requires
        hull.len() >= 2,
        are_distinct(hull),
        is_selection(closed_ring(hull), part, places),
    ensures
        opened(part) == part.drop_last(),
        forall|k: int| 0 <= k < places.len() - 1 ==> #[trigger] part[k] == hull[places[k]] && 0
            <= places[k] < hull.len(),
        part[part.len() - 1] == hull[0],
        part[0] == hull[0],
{
    let ring: Seq<Point> = closed_ring(hull);
    let last: int = places.len() - 1;
    assert forall|k: int| 0 <= k < last implies #[trigger] part[k] == hull[places[k]] && 0
        <= places[k] < hull.len() by {
        lemma_places_within(ring, part, places, k);
        assert(places[k] < places[last]);
        assert(part[k] == ring[places[k]]);
    }
    assert(part[last] == ring[places[last]]);
    assert(coincide(part[0], part[last]));
    let open: Seq<Point> = part.drop_last();
    assert forall|i: int, j: int| 0 <= i < j < open.len() implies !coincide(
        #[trigger] open[j],
        #[trigger] open[i],
    ) by {
        assert(part[i] == hull[places[i]] && part[j] == hull[places[j]]);
        assert(places[i] < places[j]);
        assert(!coincide(hull[places[j]], hull[places[i]]));
    }
    lemma_no_repeats(open);
}

/// The place before which a point of the ring stands.
proof fn lemma_gap(places: Seq<int>, j: int, k: int) -> (g: int)
    requires
        places.len() >= 2,
        0 <= k < places.len() - 1,
        places[k] <= j,
        j < places[places.len() - 1],
    ensures
        0 <= g < places.len() - 1,
        places[g] <= j < places[g + 1],
    decreases places.len() - k,
{
    if j < places[k + 1] {
        k
    } else {
        lemma_gap(places, j, k + 1)
    }
}

/// The corners that are left of a hull at a tolerance stand for all of it: each
/// point of the hull is a corner or no farther than the tolerance from the line
/// through two neighbouring corners, the last and the first among these.
pub proof fn corners_stay_close_to_the_hull<A: Arithmetic>(hull: Seq<Point>, k: int, j: int)
    requires
        hull.len() >= 2,
        are_distinct(hull),
        0 <= k < 5,
        0 <= j < hull.len(),
        !A::prod_of(
            Single::of(tolerances()[k]),
            polyline_length::<A>(hull.push(hull[0])),
        ).less(Single::of(0)),
    ensures
        ({
            let q = corners_at::<A>(hull, k);
            let eps = A::prod_of(
                Single::of(tolerances()[k]),
                polyline_length::<A>(hull.push(hull[0])),
            );
            exists|i: int|
                0 <= i < q.len() && (hull[j] == #[trigger] q[i] || !eps.less(
                    line_distance::<A>(
                        hull[j],
                        q[i],
                        q[if i + 1 == q.len() {
                            0
                        } else {
                            i + 1
                        }],
                    ),
                ))
        }),
{
    let ring: Seq<Point> = closed_ring(hull);
    let eps: Single = A::prod_of(Single::of(tolerances()[k]), polyline_length::<A>(ring));
    let part: Seq<Point> = simplified::<A>(ring, eps);
    let places: Seq<int> = simplification_stays_close::<A>(ring, eps);
    lemma_open_ring(hull, part, places);
    let q: Seq<Point> = corners_at::<A>(hull, k);
    assert(q == part.drop_last());
    let g: int = lemma_gap(places, j, 0);
    assert(is_close_after::<A>(ring, places, g, eps));
    assert(ring[j] == hull[j]);
    assert(part[g] == ring[places[g]] && part[g + 1] == ring[places[g + 1]]);
    assert(q[g] == part[g]);
    let h: int = if g + 1 == q.len() {
        0
    } else {
        g + 1
    };
    assert(q[h] == part[g + 1]);
    if places[g] == j {
        assert(hull[j] == q[g]);
    } else {
        assert(!eps.less(line_distance::<A>(ring[j], ring[places[g]], ring[places[g + 1]])));
    }
}

/// The tolerances are 0.02, 0.03, 0.05, 0.08 and 0.10 of the length of the ring,
/// by their patterns. Where one of them leaves four corners that nowhere turn
/// back, the hull is reduced to the corners at the first such one.
pub proof fn tolerances_are_tried_in_turn<A: Arithmetic>(hull: Seq<Point>, k: int)
    requires
        hull.len() >= 4,
        0 <= k < 5,
    ensures
        ({
            let bits = seq![0x3ca3_d70au32, 0x3cf5_c28f, 0x3d4c_cccd, 0x3da3_d70a, 0x3dcc_cccd];
            let ring = hull.push(hull[0]);
            let eps = A::prod_of(Single::of(bits[k]), polyline_length::<A>(ring));
            let left = opened(simplified::<A>(ring, eps));
            &&& left == corners_at::<A>(hull, k)
            &&& left.len() == 4 && convex::<A>(left) && (forall|i: int|
                0 <= i < k ==> !(#[trigger] corners_at::<A>(hull, i).len() == 4 && convex::<A>(
                    corners_at::<A>(hull, i),
                ))) ==> hull_quad::<A>(hull) == Some(left)
        }),
{
    let bits = seq![0x3ca3_d70au32, 0x3cf5_c28f, 0x3d4c_cccd, 0x3da3_d70a, 0x3dcc_cccd];
    assert(tolerances() =~= bits);
    lemma_quad_from::<A>(hull, 0);
    let left: Seq<Point> = corners_at::<A>(hull, k);
    if left.len() == 4 && convex::<A>(left) && (forall|i: int|
        0 <= i < k ==> !(#[trigger] corners_at::<A>(hull, i).len() == 4 && convex::<A>(
            corners_at::<A>(hull, i),
        ))) {
        assert(fits::<A>(hull, k));
        let q: Seq<Point> = quad_from::<A>(hull, 0)->0;
        let t: int = choose|t: int|
            0 <= t < 5 && #[trigger] fits::<A>(hull, t) && q == corners_at::<A>(hull, t) && (forall|
                i: int,
            |
                0 <= i < t ==> !#[trigger] fits::<A>(hull, i));
        if t < k {
            assert(corners_at::<A>(hull, t).len() == 4);
        }
        if k < t {
            assert(!fits::<A>(hull, k));
        }
    }
}

/// Where no inner point is farther than the tolerance from the line through both
/// ends, only the ends are left.
pub proof fn close_points_are_dropped<A: Arithmetic>(p: Seq<Point>, eps: Single)
    requires
        p.len() >= 2,
        forall|j: int|
            0 < j < p.len() - 1 ==> !eps.less(
                line_distance::<A>(#[trigger] p[j], p[0], p[p.len() - 1]),
            ),
    ensures
        simplified::<A>(p, eps) == seq![p[0], p[p.len() - 1]],
{
    let n: int = p.len() as int;
    lemma_farthest_is_one::<A>(p, n - 1);
}

/// The farthest distance is that of the point at its place.
proof fn lemma_farthest_is_one<A: Arithmetic>(p: Seq<Point>, upto: int)
    ensures
        ({
            let (far, k) = farthest::<A>(p, upto);
            k > 0 ==> k < upto && far == line_distance::<A>(p[k], p[0], p[p.len() - 1])
        }),
    decreases upto,
{
    if upto > 1 {
        lemma_farthest_is_one::<A>(p, upto - 1);
    }
}

/// A point that is farther than the tolerance from the line through both ends, and
/// farther than every other one, is kept.
pub proof fn the_farthest_point_is_kept<A: Arithmetic>(p: Seq<Point>, eps: Single, k: int)
    requires
        0 < k < p.len() - 1,
        !eps.less(Single::of(0)),
        eps.less(line_distance::<A>(p[k], p[0], p[p.len() - 1])),
        forall|j: int|
            0 < j < p.len() - 1 && j != k ==> (line_distance::<A>(
                #[trigger] p[j],
                p[0],
                p[p.len() - 1],
            )).less(line_distance::<A>(p[k], p[0], p[p.len() - 1])),
    ensures
        simplified::<A>(p, eps).contains(p[k]),
{
    let n: int = p.len() as int;
    let (far, m) = farthest::<A>(p, n - 1);
    farthest_is_farthest::<A>(p, n - 1);
    lemma_farthest_is_one::<A>(p, n - 1);
    assert(!far.less(line_distance::<A>(p[k], p[0], p[n - 1])));
    if m != k && m > 0 {
        assert(line_distance::<A>(p[m], p[0], p[n - 1]).less(
            line_distance::<A>(p[k], p[0], p[n - 1]),
        ));
    }
    assert(m == k);
    let left: Seq<Point> = simplified::<A>(p.take(k + 1), eps);
    simplification_keeps_ends::<A>(p.take(k + 1), eps);
    let l: int = left.len() - 1;
    assert(left[l] == p[k]);
    assert(simplified::<A>(p, eps)[l] == p[k]);
}

/// The quadrilateral to which a hull is reduced stands for all of it: at one of
/// the tolerances each point of the hull is a corner or no farther than it from
/// the line through two neighbouring corners, the last and the first among these.
pub proof fn quad_stays_close_to_the_hull<A: Arithmetic>(hull: Seq<Point>, q: Seq<Point>) -> (k:
    int)
    requires
        hull.len() >= 4,
        are_distinct(hull),
        hull_quad::<A>(hull) == Some(q),
        forall|k: int|
            0 <= k < 5 ==> !A::prod_of(
                Single::of(#[trigger] tolerances()[k]),
                polyline_length::<A>(hull.push(hull[0])),
            ).less(Single::of(0)),
    ensures
        0 <= k < 5,
        q.len() == 4,
        forall|j: int| #![trigger hull[j]]
            0 <= j < hull.len() ==> exists|i: int|
                0 <= i < 4 && (hull[j] == #[trigger] q[i] || !A::prod_of(
                    Single::of(tolerances()[k]),
                    polyline_length::<A>(hull.push(hull[0])),
                ).less(
                    line_distance::<A>(
                        hull[j],
                        q[i],
                        q[if i + 1 == 4 {
                            0
                        } else {
                            i + 1
                        }],
                    ),
                )),
{
    first_fitting_tolerance_decides::<A>(hull);
    let k: int = choose|k: int|
        0 <= k < 5 && #[trigger] fits::<A>(hull, k) && q == corners_at::<A>(hull, k);
    assert(tolerances()[k] == tolerances()[k]);
    assert forall|j: int| #![trigger hull[j]]
        0 <= j < hull.len() implies exists|i: int|
        0 <= i < 4 && (hull[j] == #[trigger] q[i] || !A::prod_of(
            Single::of(tolerances()[k]),
            polyline_length::<A>(hull.push(hull[0])),
        ).less(
            line_distance::<A>(
                hull[j],
                q[i],
                q[if i + 1 == 4 {
                    0
                } else {
                    i + 1
                }],
            ),
        )) by {
        corners_stay_close_to_the_hull::<A>(hull, k, j);
    }
    k
}

/// Where the points stand that are left without repeats.
proof fn lemma_kept_places(p: Seq<Point>) -> (places: Seq<int>)
    ensures
        places.len() == without_repeats(p).len(),
        p.len() > 0 ==> places.len() > 0 && places[0] == 0,
        forall|k: int|
            0 <= k < places.len() ==> 0 <= #[trigger] places[k] < p.len() && without_repeats(p)[k]
                == p[places[k]],
        forall|k: int, l: int|
            0 <= k < l < places.len() ==> #[trigger] places[k] < #[trigger] places[l],
        forall|k: int, l: int|
            #![trigger without_repeats(p)[k], without_repeats(p)[l]]
            0 <= k && l == k + 1 && l < places.len() ==> !coincide(
                without_repeats(p)[l],
                without_repeats(p)[k],
            ),
    decreases p.len(),
{
    if p.len() == 0 {
        Seq::empty()
    } else {
        let rest: Seq<Point> = p.drop_last();
        let before: Seq<int> = lemma_kept_places(rest);
        let kept: Seq<Point> = without_repeats(rest);
        let places: Seq<int> = if kept.len() > 0 && coincide(p.last(), kept.last()) {
            before
        } else {
            before.push(p.len() - 1)
        };
        let all: Seq<Point> = without_repeats(p);
        assert forall|k: int| 0 <= k < places.len() implies 0 <= #[trigger] places[k] < p.len()
            && all[k] == p[places[k]] by {
            if k < before.len() {
                assert(0 <= before[k] < rest.len() && kept[k] == rest[before[k]]);
                assert(all[k] == kept[k]);
            }
        }
        assert forall|k: int, l: int| 0 <= k < l < places.len() implies #[trigger] places[k]
            < #[trigger] places[l] by {
            assert(places[k] == before[k]);
            assert(0 <= before[k] < rest.len());
            if l < before.len() {
                assert(places[l] == before[l]);
            }
        }
        assert forall|k: int, l: int|
            #![trigger all[k], all[l]]
            0 <= k && l == k + 1 && l < places.len() implies !coincide(all[l], all[k]) by {
            assert(all[k] == kept[k]);
            if l < before.len() {
                assert(all[l] == kept[l]);
            }
        }
        places
    }
}

/// Opening a polyline leaves a part of its points, in their order and from the
/// first on, and no two neighbours among them have equal coordinates.
pub proof fn opening_leaves_distinct_neighbours(p: Seq<Point>) -> (places: Seq<int>)
    requires
        p.len() > 0,
    ensures
        places.len() == opened(p).len(),
        places.len() > 0 && places[0] == 0,
        forall|k: int|
            0 <= k < places.len() ==> 0 <= #[trigger] places[k] < p.len() && opened(p)[k]
                == p[places[k]],
        forall|k: int, l: int|
            0 <= k < l < places.len() ==> #[trigger] places[k] < #[trigger] places[l],
        forall|k: int, l: int|
            #![trigger opened(p)[k], opened(p)[l]]
            0 <= k && l == k + 1 && l < places.len() ==> !(opened(p)[l].0.equals(opened(p)[k].0)
                && opened(p)[l].1.equals(opened(p)[k].1)),
{
    if p.len() >= 2 && coincide(p[0], p[p.len() - 1]) {
        let open: Seq<Point> = p.drop_last();
        let places: Seq<int> = lemma_kept_places(open);
        assert forall|k: int| 0 <= k < places.len() implies 0 <= #[trigger] places[k] < p.len()
            && opened(p)[k] == p[places[k]] by {
            assert(open[places[k]] == p[places[k]]);
        }
        places
    } else {
        lemma_kept_places(p)
    }
}

/// No inner point before the farthest is as far.
proof fn lemma_farthest_is_first<A: Arithmetic>(p: Seq<Point>, upto: int, j: int)
    requires
        upto < p.len(),
        0 < j < farthest::<A>(p, upto).1,
    ensures
        !farthest::<A>(p, upto).0.at_most(line_distance::<A>(p[j], p[0], p[p.len() - 1])),
    decreases upto,
{
    if upto > 1 {
        farthest_is_farthest::<A>(p, upto - 1);
        let (far, k) = farthest::<A>(p, upto - 1);
        let d: Single = line_distance::<A>(p[upto - 1], p[0], p[p.len() - 1]);
        if far.less(d) {
            assert(!far.less(line_distance::<A>(p[j], p[0], p[p.len() - 1])));
        } else {
            lemma_farthest_is_first::<A>(p, upto - 1, j);
        }
    }
}

/// A polyline with points farther than the tolerance from the line through both
/// ends is simplified in two parts, up to the first of those that are farthest and
/// from there on.
pub proof fn the_farthest_point_splits<A: Arithmetic>(p: Seq<Point>, eps: Single, k: int)
    requires
        0 < k < p.len() - 1,
        !eps.less(Single::of(0)),
        eps.less(line_distance::<A>(p[k], p[0], p[p.len() - 1])),
        forall|j: int|
            0 < j < k ==> (line_distance::<A>(#[trigger] p[j], p[0], p[p.len() - 1])).less(
                line_distance::<A>(p[k], p[0], p[p.len() - 1]),
            ),
        forall|j: int|
            k < j < p.len() - 1 ==> (line_distance::<A>(
                #[trigger] p[j],
                p[0],
                p[p.len() - 1],
            )).at_most(line_distance::<A>(p[k], p[0], p[p.len() - 1])),
    ensures
        simplified::<A>(p, eps) == simplified::<A>(p.take(k + 1), eps) + simplified::<A>(
            p.skip(k),
            eps,
        ).skip(1),
{
    let n: int = p.len() as int;
    let (far, m) = farthest::<A>(p, n - 1);
    farthest_is_farthest::<A>(p, n - 1);
    lemma_farthest_is_one::<A>(p, n - 1);
    assert(!far.less(line_distance::<A>(p[k], p[0], p[n - 1])));
    if m > k {
        lemma_farthest_is_first::<A>(p, n - 1, k);
        assert(line_distance::<A>(p[m], p[0], p[n - 1]).at_most(
            line_distance::<A>(p[k], p[0], p[n - 1]),
        ));
    }
    if 0 < m < k {
        assert(line_distance::<A>(p[m], p[0], p[n - 1]).less(
            line_distance::<A>(p[k], p[0], p[n - 1]),
        ));
    }
    assert(m == k);
}

} // verus!
