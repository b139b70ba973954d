//! Convex hull of a set of integer points.

use vstd::prelude::*;

verus! {

/// Twice the signed area of the triangle `o`, `a`, `b`: positive if the turn
/// from `o` over `a` to `b` goes from the x axis towards the y axis.
pub open spec fn cross(o: (i32, i32), a: (i32, i32), b: (i32, i32)) -> int {
    (a.0 - o.0) * (b.1 - o.1) - (a.1 - o.1) * (b.0 - o.0)
}

/// Order of points by column, then by row.
pub open spec fn precedes(a: (i32, i32), b: (i32, i32)) -> bool {
    a.0 < b.0 || (a.0 == b.0 && a.1 < b.1)
}

/// The index after `k` in a ring of `n` places.
pub open spec fn next(k: int, n: int) -> int {
    if k + 1 == n {
        0
    } else {
        k + 1
    }
}

/// The hull turns at the corner after `k`, from the x axis towards the y axis.
pub open spec fn turns_after(hull: Seq<(i32, i32)>, k: int) -> bool {
    let n: int = hull.len() as int;
    cross(hull[k], hull[next(k, n)], hull[next(next(k, n), n)]) > 0
}

/// `p` lies on the edge from corner `k` to the next, or on its inner side.
pub open spec fn lies_within(hull: Seq<(i32, i32)>, k: int, p: (i32, i32)) -> bool {
    cross(hull[k], hull[next(k, hull.len() as int)], p) >= 0
}

/// `hull` lists the corners of the convex hull of `points`, each once and in
/// turning order, from the first point on. No corner lies on a line between two
/// others.
pub open spec fn is_hull(points: Seq<(i32, i32)>, hull: Seq<(i32, i32)>) -> bool {
    let n: int = hull.len() as int;
    &&& hull.no_duplicates()
    &&& forall|k: int| 0 <= k < n ==> points.contains(#[trigger] hull[k])
    &&& points.len() > 0 ==> n > 0
    &&& forall|p: (i32, i32)| #[trigger] points.contains(p) ==> p == hull[0] || precedes(hull[0], p)
    &&& points.len() > 0 ==> exists|k: int|
        0 <= k < n && is_last(points, #[trigger] hull[k])
    &&& n >= 3 ==> forall|k: int| 0 <= k < n ==> #[trigger] turns_after(hull, k)
    &&& forall|k: int, p: (i32, i32)|
        0 <= k < n && points.contains(p) ==> #[trigger] lies_within(hull, k, p)
}

/// No point comes after `last`.
pub open spec fn is_last(points: Seq<(i32, i32)>, last: (i32, i32)) -> bool {
    forall|p: (i32, i32)| #[trigger] points.contains(p) ==> p == last || precedes(p, last)
}

/// [`is_hull`] with the turns and sides written out.
spec fn is_boundary(points: Seq<(i32, i32)>, hull: Seq<(i32, i32)>) -> bool {
    let n: int = hull.len() as int;
    &&& hull.no_duplicates()
    &&& forall|k: int| 0 <= k < n ==> points.contains(#[trigger] hull[k])
    &&& points.len() > 0 ==> n > 0
    &&& forall|p: (i32, i32)| #[trigger] points.contains(p) ==> p == hull[0] || precedes(hull[0], p)
    &&& points.len() > 0 ==> exists|k: int|
        0 <= k < n && is_last(points, #[trigger] hull[k])
    &&& n >= 3 ==> forall|k: int|
        #![trigger hull[k]]
        0 <= k < n ==> cross(hull[k], hull[next(k, n)], hull[next(next(k, n), n)]) > 0
    &&& forall|k: int, p: (i32, i32)|
        #![trigger hull[k], points.contains(p)]
        0 <= k < n && points.contains(p) ==> cross(hull[k], hull[next(k, n)], p) >= 0
}

proof fn lemma_hull_is_boundary(points: Seq<(i32, i32)>, hull: Seq<(i32, i32)>)
    ensures
        is_hull(points, hull) <==> is_boundary(points, hull),
{
    let n: int = hull.len() as int;
    if is_hull(points, hull) {
        assert(n >= 3 ==> forall|k: int|
            #![trigger hull[k]]
            0 <= k < n ==> turns_after(hull, k));
        assert forall|k: int, p: (i32, i32)|
            #![trigger hull[k], points.contains(p)]
            0 <= k < n && points.contains(p) implies cross(hull[k], hull[next(k, n)], p) >= 0 by {
            assert(lies_within(hull, k, p));
        }
    }
    if is_boundary(points, hull) {
        assert forall|k: int, p: (i32, i32)| 0 <= k < n && points.contains(p) implies
            #[trigger] lies_within(hull, k, p) by {
            assert(cross(hull[k], hull[next(k, n)], p) >= 0);
        }
        if n >= 3 {
            assert forall|k: int| 0 <= k < n implies #[trigger] turns_after(hull, k) by {
                assert(points.contains(hull[k]));
            }
        }
    }
}

spec fn vcross(ux: int, uy: int, vx: int, vy: int) -> int {
    ux * vy - uy * vx
}

spec fn positive(x: int, y: int) -> bool {
    x > 0 || (x == 0 && y > 0)
}

/// Among vectors of one half plane, turning one way is transitive.
proof fn lemma_turns_add(ux: int, uy: int, vx: int, vy: int, wx: int, wy: int)
    requires
        positive(ux, uy),
        positive(vx, vy),
        positive(wx, wy),
        vcross(ux, uy, vx, vy) >= 0,
        vcross(vx, vy, wx, wy) >= 0,
    ensures
        vcross(ux, uy, wx, wy) >= 0,
        vcross(ux, uy, vx, vy) > 0 || vcross(vx, vy, wx, wy) > 0 ==> vcross(ux, uy, wx, wy) > 0,
{
    let uv: int = vcross(ux, uy, vx, vy);
    let vw: int = vcross(vx, vy, wx, wy);
    let uw: int = vcross(ux, uy, wx, wy);
    assert(uw * vx == uv * wx + vw * ux) by (nonlinear_arith)
        requires
            uv == ux * vy - uy * vx,
            vw == vx * wy - vy * wx,
            uw == ux * wy - uy * wx,
    ;
    if vx > 0 {
        assert(uv * wx >= 0) by (nonlinear_arith)
            requires
                uv >= 0,
                wx >= 0,
        ;
        assert(vw * ux >= 0) by (nonlinear_arith)
            requires
                vw >= 0,
                ux >= 0,
        ;
        assert(uw >= 0) by (nonlinear_arith)
            requires
                uw * vx >= 0,
                vx > 0,
        ;
        if uv > 0 || vw > 0 {
            if wx == 0 {
                assert(vw > 0) by (nonlinear_arith)
                    requires
                        vw == vx * wy - vy * wx,
                        wx == 0,
                        wy > 0,
                        vx > 0,
                ;
            }
            if ux == 0 {
                assert(uv < 0) by (nonlinear_arith)
                    requires
                        uv == ux * vy - uy * vx,
                        ux == 0,
                        uy > 0,
                        vx > 0,
                ;
            }
            assert(uv * wx + vw * ux > 0) by (nonlinear_arith)
                requires
                    uv >= 0,
                    vw >= 0,
                    wx >= 0,
                    ux > 0,
                    uv > 0 || vw > 0,
                    wx == 0 ==> vw > 0,
            ;
            assert(uw > 0) by (nonlinear_arith)
                requires
                    uw * vx > 0,
                    vx > 0,
            ;
        }
    } else {
        assert(uv == ux * vy) by (nonlinear_arith)
            requires
                uv == ux * vy - uy * vx,
                vx == 0,
        ;
        assert(vw == -(vy * wx)) by (nonlinear_arith)
            requires
                vw == vx * wy - vy * wx,
                vx == 0,
        ;
        assert(wx == 0) by (nonlinear_arith)
            requires
                vw == -(vy * wx),
                vw >= 0,
                vy > 0,
                wx >= 0,
        ;
        assert(vw == 0) by (nonlinear_arith)
            requires
                vw == -(vy * wx),
                wx == 0,
        ;
        assert(uw == ux * wy) by (nonlinear_arith)
            requires
                uw == ux * wy - uy * wx,
                wx == 0,
        ;
        assert(uw >= 0) by (nonlinear_arith)
            requires
                uw == ux * wy,
                ux >= 0,
                wy > 0,
        ;
        if uv > 0 {
            assert(uw > 0) by (nonlinear_arith)
                requires
                    uw == ux * wy,
                    uv == ux * vy,
                    uv > 0,
                    ux >= 0,
                    vy > 0,
                    wy > 0,
            ;
        }
    }
}

/// `cross` by the vectors between its points.
proof fn lemma_cross_vectors(o: (i32, i32), a: (i32, i32), b: (i32, i32))
    ensures
        cross(o, a, b) == vcross(a.0 - o.0, a.1 - o.1, b.0 - o.0, b.1 - o.1),
        cross(o, a, b) == vcross(a.0 - o.0, a.1 - o.1, b.0 - a.0, b.1 - a.1),
        cross(o, a, b) == vcross(o.0 - a.0, o.1 - a.1, a.0 - b.0, a.1 - b.1),
        cross(o, a, b) == vcross(a.0 - b.0, a.1 - b.1, o.0 - a.0, o.1 - a.1) * -1,
        cross(o, a, b) == cross(a, b, o),
        cross(o, a, b) == -cross(o, b, a),
        cross(o, a, a) == 0,
        cross(o, a, o) == 0,
        cross(o, o, b) == 0,
{
    let ox: int = o.0 as int;
    let oy: int = o.1 as int;
    let ax: int = a.0 as int;
    let ay: int = a.1 as int;
    let bx: int = b.0 as int;
    let by_: int = b.1 as int;
    assert((ax - ox) * (by_ - oy) - (ay - oy) * (bx - ox) == (ax - ox) * (by_ - ay) - (ay - oy) * (bx
        - ax)) by (nonlinear_arith);
    assert((ax - ox) * (by_ - oy) - (ay - oy) * (bx - ox) == (ox - ax) * (ay - by_) - (oy - ay) * (ax
        - bx)) by (nonlinear_arith);
    assert((ax - ox) * (by_ - oy) - (ay - oy) * (bx - ox) == ((ax - bx) * (oy - ay) - (ay - by_) * (
    ox - ax)) * -1) by (nonlinear_arith);
    assert((ax - ox) * (by_ - oy) - (ay - oy) * (bx - ox) == (bx - ax) * (oy - ay) - (by_ - ay) * (ox
        - ax)) by (nonlinear_arith);
    assert((ax - ox) * (by_ - oy) - (ay - oy) * (bx - ox) == -((bx - ox) * (ay - oy) - (by_ - oy) * (
    ax - ox))) by (nonlinear_arith);
    assert((ax - ox) * (ay - oy) - (ay - oy) * (ax - ox) == 0) by (nonlinear_arith);
    assert((ax - ox) * (oy - oy) - (ay - oy) * (ox - ox) == 0) by (nonlinear_arith);
    assert((ox - ox) * (by_ - oy) - (oy - oy) * (bx - ox) == 0) by (nonlinear_arith);
}

/// `b` comes after `a` in the walking direction.
spec fn ahead(forward: bool, a: (i32, i32), b: (i32, i32)) -> bool {
    if forward {
        precedes(a, b)
    } else {
        precedes(b, a)
    }
}

/// Seen from `o`, turns between points ahead of it add up.
proof fn lemma_fan(forward: bool, o: (i32, i32), a: (i32, i32), b: (i32, i32), c: (i32, i32))
    requires
        ahead(forward, o, a),
        ahead(forward, o, b),
        ahead(forward, o, c),
        cross(o, a, b) >= 0,
        cross(o, b, c) >= 0,
    ensures
        cross(o, a, c) >= 0,
{
    lemma_cross_vectors(o, a, b);
    lemma_cross_vectors(o, b, c);
    lemma_cross_vectors(o, a, c);
    if forward {
        lemma_turns_add(
            a.0 - o.0,
            a.1 - o.1,
            b.0 - o.0,
            b.1 - o.1,
            c.0 - o.0,
            c.1 - o.1,
        );
    } else {
        lemma_vcross_negate(a.0 - o.0, a.1 - o.1, b.0 - o.0, b.1 - o.1);
        lemma_vcross_negate(b.0 - o.0, b.1 - o.1, c.0 - o.0, c.1 - o.1);
        lemma_vcross_negate(a.0 - o.0, a.1 - o.1, c.0 - o.0, c.1 - o.1);
        lemma_turns_add(
            o.0 - a.0,
            o.1 - a.1,
            o.0 - b.0,
            o.1 - b.1,
            o.0 - c.0,
            o.1 - c.1,
        );
    }
}

proof fn lemma_vcross_negate(ux: int, uy: int, vx: int, vy: int)
    ensures
        vcross(-ux, -uy, -vx, -vy) == vcross(ux, uy, vx, vy),
        vcross(-ux, -uy, vx, vy) == -vcross(ux, uy, vx, vy),
        vcross(ux, uy, -vx, -vy) == -vcross(ux, uy, vx, vy),
        vcross(vx, vy, ux, uy) == -vcross(ux, uy, vx, vy),
{
    assert((-ux) * (-vy) - (-uy) * (-vx) == ux * vy - uy * vx) by (nonlinear_arith);
    assert((-ux) * vy - (-uy) * vx == -(ux * vy - uy * vx)) by (nonlinear_arith);
    assert(ux * (-vy) - uy * (-vx) == -(ux * vy - uy * vx)) by (nonlinear_arith);
    assert(vx * uy - vy * ux == -(ux * vy - uy * vx)) by (nonlinear_arith);
}

/// Two successive strict turns over steps ahead: the last point lies strictly
/// on the inner side of the first edge too.
proof fn lemma_turn_holds(
    forward: bool,
    a: (i32, i32),
    b: (i32, i32),
    c: (i32, i32),
    p: (i32, i32),
)
    requires
        ahead(forward, a, b),
        ahead(forward, b, c),
        ahead(forward, b, p),
        cross(a, b, c) > 0,
        cross(b, c, p) > 0,
    ensures
        cross(a, b, p) > 0,
{
    lemma_cross_vectors(a, b, c);
    lemma_cross_vectors(b, c, p);
    lemma_cross_vectors(a, b, p);
    if forward {
        lemma_turns_add(b.0 - a.0, b.1 - a.1, c.0 - b.0, c.1 - b.1, p.0 - b.0, p.1 - b.1);
    } else {
        lemma_vcross_negate(b.0 - a.0, b.1 - a.1, c.0 - b.0, c.1 - b.1);
        lemma_vcross_negate(c.0 - b.0, c.1 - b.1, p.0 - b.0, p.1 - b.1);
        lemma_vcross_negate(b.0 - a.0, b.1 - a.1, p.0 - b.0, p.1 - b.1);
        lemma_turns_add(a.0 - b.0, a.1 - b.1, b.0 - c.0, b.1 - c.1, b.0 - p.0, b.1 - p.1);
    }
}

/// A point behind the end of an edge, on its inner side, lies on the inner side
/// of the next edge as well.
proof fn lemma_behind_holds(
    forward: bool,
    a: (i32, i32),
    m: (i32, i32),
    p: (i32, i32),
    q: (i32, i32),
)
    requires
        ahead(forward, a, m),
        ahead(forward, m, p),
        ahead(forward, q, m),
        cross(a, m, q) >= 0,
        cross(a, m, p) > 0,
    ensures
        cross(m, p, q) >= 0,
{
    lemma_cross_vectors(a, m, q);
    lemma_cross_vectors(a, m, p);
    lemma_cross_vectors(m, p, q);
    // Vectors: u = m - a, t = m - q, v = p - m.
    let ux: int = m.0 - a.0;
    let uy: int = m.1 - a.1;
    let tx: int = m.0 - q.0;
    let ty: int = m.1 - q.1;
    let vx: int = p.0 - m.0;
    let vy: int = p.1 - m.1;
    lemma_vcross_negate(ux, uy, tx, ty);
    lemma_vcross_negate(ux, uy, vx, vy);
    lemma_vcross_negate(vx, vy, tx, ty);
    lemma_vcross_negate(tx, ty, ux, uy);
    lemma_vcross_negate(tx, ty, vx, vy);
    assert(q.0 - m.0 == -tx && q.1 - m.1 == -ty);
    assert(cross(a, m, q) == vcross(ux, uy, -tx, -ty));
    assert(vcross(tx, ty, ux, uy) >= 0);
    assert(vcross(ux, uy, vx, vy) > 0);
    assert(cross(m, p, q) == vcross(vx, vy, -tx, -ty)) by {
        lemma_cross_vectors(m, p, q);
    }
    if forward {
        lemma_turns_add(tx, ty, ux, uy, vx, vy);
    } else {
        lemma_turns_add(-tx, -ty, -ux, -uy, -vx, -vy);
    }
}

spec fn turn(c: Seq<(i32, i32)>, i: int) -> int {
    cross(c[i], c[i + 1], c[i + 2])
}

spec fn side(c: Seq<(i32, i32)>, i: int, q: (i32, i32)) -> int {
    cross(c[i], c[i + 1], q)
}

/// `c` is the part of the hull of `seen` that a walk in one direction passes:
/// it turns strictly one way and has all points on its inner side.
spec fn is_chain(forward: bool, c: Seq<(i32, i32)>, seen: Seq<(i32, i32)>) -> bool {
    &&& c.len() > 0
    &&& forall|i: int, j: int| 0 <= i < j < c.len() ==> ahead(forward, #[trigger] c[i], #[trigger] c[j])
    &&& forall|i: int| 0 <= i && i + 2 < c.len() ==> #[trigger] turn(c, i) > 0
    &&& forall|i: int, q: (i32, i32)|
        0 <= i && i + 1 < c.len() && seen.contains(q) ==> #[trigger] side(c, i, q) >= 0
    &&& forall|i: int| 0 <= i < c.len() ==> seen.contains(#[trigger] c[i])
    &&& forall|q: (i32, i32)| #[trigger] seen.contains(q) ==> q == c[0] || ahead(forward, c[0], q)
}

/// The edge from the end of `c` to `pt` has the points beyond that end on its
/// inner side.
spec fn clears(forward: bool, c: Seq<(i32, i32)>, seen: Seq<(i32, i32)>, pt: (i32, i32)) -> bool {
    forall|q: (i32, i32)| #[trigger]
        seen.contains(q) && ahead(forward, c.last(), q) ==> cross(c.last(), pt, q) >= 0
}

proof fn lemma_pop(forward: bool, c: Seq<(i32, i32)>, seen: Seq<(i32, i32)>, pt: (i32, i32))
    requires
        is_chain(forward, c, seen),
        c.len() >= 2,
        forall|q: (i32, i32)| #[trigger] seen.contains(q) ==> ahead(forward, q, pt),
        cross(c[c.len() - 2], c[c.len() - 1], pt) <= 0,
    ensures
        is_chain(forward, c.drop_last(), seen),
        clears(forward, c.drop_last(), seen, pt),
{
    let d: Seq<(i32, i32)> = c.drop_last();
    let n: int = c.len() as int;
    let m: (i32, i32) = c[n - 2];
    let k: (i32, i32) = c[n - 1];
    assert forall|i: int| 0 <= i && i + 2 < d.len() implies #[trigger] turn(d, i) > 0 by {
        assert(turn(c, i) > 0);
    }
    assert forall|i: int, q: (i32, i32)|
        0 <= i && i + 1 < d.len() && seen.contains(q) implies #[trigger] side(d, i, q) >= 0 by {
        assert(side(c, i, q) >= 0);
    }
    assert(d.last() == m);
    assert(seen.contains(c[n - 2]));
    assert forall|q: (i32, i32)| #[trigger]
        seen.contains(q) && ahead(forward, m, q) implies cross(m, pt, q) >= 0 by {
        lemma_cross_vectors(m, k, pt);
        assert(ahead(forward, c[n - 2], c[n - 1]));
        assert(side(c, n - 2, q) >= 0);
        lemma_fan(forward, m, pt, k, q);
    }
}

/// A point that turns strictly at the end of a chain lies on the inner side of
/// each of its edges.
proof fn lemma_inside_all(
    forward: bool,
    c: Seq<(i32, i32)>,
    seen: Seq<(i32, i32)>,
    pt: (i32, i32),
    i: int,
)
    requires
        is_chain(forward, c, seen),
        forall|q: (i32, i32)| #[trigger] seen.contains(q) ==> ahead(forward, q, pt),
        c.len() >= 2,
        cross(c[c.len() - 2], c[c.len() - 1], pt) > 0,
        0 <= i && i + 1 < c.len(),
    ensures
        side(c, i, pt) > 0,
    decreases c.len() - i,
{
    if i + 2 < c.len() {
        lemma_inside_all(forward, c, seen, pt, i + 1);
        assert(turn(c, i) > 0);
        assert(seen.contains(c[i + 1]));
        assert(ahead(forward, c[i], c[i + 1]));
        assert(ahead(forward, c[i + 1], c[i + 2]));
        lemma_turn_holds(forward, c[i], c[i + 1], c[i + 2], pt);
    }
}

proof fn lemma_contains_push(s: Seq<(i32, i32)>, v: (i32, i32), q: (i32, i32))
    ensures
        s.push(v).contains(q) <==> s.contains(q) || q == v,
{
    if s.contains(q) {
        let k: int = choose|k: int| 0 <= k < s.len() && s[k] == q;
        assert(s.push(v)[k] == q);
    }
    if q == v {
        assert(s.push(v)[s.len() as int] == q);
    }
    if s.push(v).contains(q) {
        let k: int = choose|k: int| 0 <= k < s.push(v).len() && s.push(v)[k] == q;
        if k < s.len() {
            assert(s[k] == q);
        }
    }
}

proof fn lemma_push(forward: bool, c: Seq<(i32, i32)>, seen: Seq<(i32, i32)>, pt: (i32, i32))
    requires
        is_chain(forward, c, seen),
        clears(forward, c, seen, pt),
        forall|q: (i32, i32)| #[trigger] seen.contains(q) ==> ahead(forward, q, pt),
        c.len() >= 2 ==> cross(c[c.len() - 2], c[c.len() - 1], pt) > 0,
    ensures
        is_chain(forward, c.push(pt), seen.push(pt)),
{
    let d: Seq<(i32, i32)> = c.push(pt);
    let all: Seq<(i32, i32)> = seen.push(pt);
    let n: int = c.len() as int;
    let m: (i32, i32) = c[n - 1];
    assert(seen.contains(c[n - 1]));
    assert forall|i: int, j: int| 0 <= i < j < d.len() implies ahead(
        forward,
        #[trigger] d[i],
        #[trigger] d[j],
    ) by {
        assert(seen.contains(c[i]));
        if j < n {
            assert(ahead(forward, c[i], c[j]));
        }
    }
    assert forall|i: int| 0 <= i && i + 2 < d.len() implies #[trigger] turn(d, i) > 0 by {
        if i + 2 < n {
            assert(turn(c, i) > 0);
        }
    }
    assert forall|i: int, q: (i32, i32)|
        0 <= i && i + 1 < d.len() && all.contains(q) implies #[trigger] side(d, i, q) >= 0 by {
        lemma_contains_push(seen, pt, q);
        if i + 1 < n {
            assert(side(d, i, q) == side(c, i, q));
            if !seen.contains(q) {
                lemma_inside_all(forward, c, seen, pt, i);
            }
        } else {
            assert(d[i] == m && d[i + 1] == pt);
            lemma_cross_vectors(m, pt, q);
            lemma_cross_vectors(m, pt, pt);
            if q != pt && q != m && !ahead(forward, m, q) {
                assert(ahead(forward, q, m));
                assert(n >= 2);
                assert(ahead(forward, c[n - 2], c[n - 1]));
                assert(side(c, n - 2, q) >= 0);
                lemma_behind_holds(forward, c[n - 2], m, pt, q);
            }
        }
    }
    assert forall|i: int| 0 <= i < d.len() implies all.contains(#[trigger] d[i]) by {
        lemma_contains_push(seen, pt, d[i]);
        if i < n {
            assert(seen.contains(c[i]));
        }
    }
    assert forall|q: (i32, i32)| #[trigger] all.contains(q) implies q == d[0] || ahead(
        forward,
        d[0],
        q,
    ) by {
        lemma_contains_push(seen, pt, q);
        assert(seen.contains(c[0]));
    }
}

/// Executable form of `cross`, wide enough for any points.
fn cross_of(o: (i32, i32), a: (i32, i32), b: (i32, i32)) -> (r: i128)
    ensures
        r == cross(o, a, b),
{
    let ax: i128 = a.0 as i128 - o.0 as i128;
    let ay: i128 = a.1 as i128 - o.1 as i128;
    let bx: i128 = b.0 as i128 - o.0 as i128;
    let by_: i128 = b.1 as i128 - o.1 as i128;
    assert(-0x1_0000_0000_0000_0000 <= ax * by_ <= 0x1_0000_0000_0000_0000) by (nonlinear_arith)
        requires
            -0x1_0000_0000 <= ax <= 0x1_0000_0000,
            -0x1_0000_0000 <= by_ <= 0x1_0000_0000,
    ;
    assert(-0x1_0000_0000_0000_0000 <= ay * bx <= 0x1_0000_0000_0000_0000) by (nonlinear_arith)
        requires
            -0x1_0000_0000 <= ay <= 0x1_0000_0000,
            -0x1_0000_0000 <= bx <= 0x1_0000_0000,
    ;
    ax * by_ - ay * bx
}

/// Prolongs the chain that starts at `base` by `pt`: drops the corners that no
/// longer turn strictly, then appends the point.
fn extend(
    hull: &mut Vec<(i32, i32)>,
    base: usize,
    pt: (i32, i32),
    Ghost(forward): Ghost<bool>,
    Ghost(seen): Ghost<Seq<(i32, i32)>>,
)
    requires
        base < old(hull)@.len(),
        is_chain(forward, old(hull)@.skip(base as int), seen),
        forall|q: (i32, i32)| #[trigger] seen.contains(q) ==> ahead(forward, q, pt),
        old(hull)@.last() == seen.last(),
        forall|q: (i32, i32)| #[trigger]
            seen.contains(q) ==> q == seen.last() || ahead(forward, q, seen.last()),
    ensures
        base + 1 < final(hull)@.len(),
        final(hull)@.take(base as int) == old(hull)@.take(base as int),
        is_chain(forward, final(hull)@.skip(base as int), seen.push(pt)),
        final(hull)@.last() == pt,
{
    let ghost head: Seq<(i32, i32)> = hull@.take(base as int);
    proof {
        let c: Seq<(i32, i32)> = hull@.skip(base as int);
        assert(c.last() == hull@.last());
        assert(clears(forward, c, seen, pt));
    }
    while hull.len() - base >= 2 && cross_of(hull[hull.len() - 2], hull[hull.len() - 1], pt) <= 0
        invariant
            base < hull@.len(),
            hull@.take(base as int) == head,
            is_chain(forward, hull@.skip(base as int), seen),
            clears(forward, hull@.skip(base as int), seen, pt),
            forall|q: (i32, i32)| #[trigger] seen.contains(q) ==> ahead(forward, q, pt),
        decreases hull@.len(),
    {
        let ghost c: Seq<(i32, i32)> = hull@.skip(base as int);
        proof {
            assert(c[c.len() - 2] == hull@[hull@.len() - 2]);
            assert(c[c.len() - 1] == hull@[hull@.len() - 1]);
            lemma_pop(forward, c, seen, pt);
        }
        hull.pop();
        proof {
            assert(hull@.skip(base as int) =~= c.drop_last());
            assert(hull@.take(base as int) =~= head);
        }
    }
    proof {
        let c: Seq<(i32, i32)> = hull@.skip(base as int);
        if c.len() >= 2 {
            assert(c[c.len() - 2] == hull@[hull@.len() - 2]);
            assert(c[c.len() - 1] == hull@[hull@.len() - 1]);
        }
        lemma_push(forward, c, seen, pt);
        assert(hull@.push(pt).skip(base as int) =~= c.push(pt));
        assert(hull@.push(pt).take(base as int) =~= head);
    }
    hull.push(pt);
}

/// Where two opposite chains meet without a strict turn, a point lies on both
/// lines.
proof fn lemma_flat_meeting(
    forward: bool,
    a: (i32, i32),
    x: (i32, i32),
    b: (i32, i32),
    q: (i32, i32),
)
    requires
        ahead(forward, a, x),
        ahead(forward, b, x),
        q == x || ahead(forward, q, x),
        cross(a, x, b) == 0,
        cross(a, x, q) >= 0,
        cross(x, b, q) >= 0,
    ensures
        cross(a, x, q) == 0,
        cross(x, b, q) == 0,
{
    lemma_cross_vectors(a, x, b);
    lemma_cross_vectors(a, x, q);
    lemma_cross_vectors(x, b, q);
    if q != x {
        let ux: int = x.0 - a.0;
        let uy: int = x.1 - a.1;
        let vx: int = x.0 - b.0;
        let vy: int = x.1 - b.1;
        let tx: int = x.0 - q.0;
        let ty: int = x.1 - q.1;
        lemma_vcross_negate(ux, uy, vx, vy);
        lemma_vcross_negate(ux, uy, tx, ty);
        lemma_vcross_negate(vx, vy, tx, ty);
        assert(cross(a, x, b) == vcross(ux, uy, -vx, -vy));
        assert(cross(a, x, q) == vcross(ux, uy, -tx, -ty));
        assert(cross(x, b, q) == vcross(-vx, -vy, -tx, -ty));
        lemma_vcross_negate(tx, ty, ux, uy);
        lemma_vcross_negate(tx, ty, vx, vy);
        if forward {
            lemma_turns_add(ux, uy, vx, vy, tx, ty);
            lemma_turns_add(tx, ty, ux, uy, vx, vy);
        } else {
            lemma_turns_add(-ux, -uy, -vx, -vy, -tx, -ty);
            lemma_turns_add(-tx, -ty, -ux, -uy, -vx, -vy);
        }
    }
}

/// Two opposite chains that meet without a strict turn are single edges.
proof fn lemma_meeting(
    forward: bool,
    there: Seq<(i32, i32)>,
    back: Seq<(i32, i32)>,
    points: Seq<(i32, i32)>,
)
    requires
        is_chain(forward, there, points),
        is_chain(!forward, back, points),
        there.len() >= 2,
        back.len() >= 2,
        there.last() == back[0],
    ensures
        cross(there[there.len() - 2], there.last(), back[1]) >= 0,
        cross(there[there.len() - 2], there.last(), back[1]) == 0 ==> there.len() == 2
            && back.len() == 2,
{
    let n: int = there.len() as int;
    let a: (i32, i32) = there[n - 2];
    let x: (i32, i32) = there[n - 1];
    let b: (i32, i32) = back[1];
    assert(points.contains(back[1]));
    assert(side(there, n - 2, b) >= 0);
    assert(ahead(forward, there[n - 2], there[n - 1]));
    assert(ahead(!forward, back[0], back[1]));
    if cross(a, x, b) == 0 {
        if n >= 3 {
            let q: (i32, i32) = there[n - 3];
            assert(points.contains(there[n - 3]));
            assert(turn(there, n - 3) > 0);
            assert(side(there, n - 2, q) >= 0);
            assert(side(back, 0, q) >= 0);
            lemma_flat_meeting(forward, a, x, b, q);
            lemma_cross_vectors(q, a, x);
        }
        if back.len() >= 3 {
            let q: (i32, i32) = back[2];
            assert(points.contains(back[2]));
            assert(turn(back, 0) > 0);
            assert(side(there, n - 2, q) >= 0);
            assert(side(back, 0, q) >= 0);
            lemma_flat_meeting(forward, a, x, b, q);
        }
    }
}

/// Two opposite chains share no inner corner.
proof fn lemma_disjoint(
    there: Seq<(i32, i32)>,
    back: Seq<(i32, i32)>,
    points: Seq<(i32, i32)>,
    i: int,
    j: int,
)
    requires
        is_chain(true, there, points),
        is_chain(false, back, points),
        0 < i && i + 1 < there.len(),
        0 < j && j + 1 < back.len(),
    ensures
        there[i] != back[j],
{
    if there[i] == back[j] {
        let q: (i32, i32) = there[i];
        let a: (i32, i32) = there[i - 1];
        let b: (i32, i32) = there[i + 1];
        let g: (i32, i32) = back[j - 1];
        let d: (i32, i32) = back[j + 1];
        assert(turn(there, i - 1) > 0);
        assert(turn(back, j - 1) > 0);
        assert(points.contains(back[j - 1]));
        assert(points.contains(back[j + 1]));
        assert(side(there, i, g) >= 0);
        assert(side(there, i - 1, d) >= 0);
        assert(precedes(there[i - 1], there[i]));
        assert(precedes(there[i], there[i + 1]));
        assert(ahead(false, back[j - 1], back[j]));
        assert(ahead(false, back[j], back[j + 1]));
        lemma_cross_vectors(a, q, b);
        lemma_cross_vectors(g, q, d);
        lemma_cross_vectors(q, b, g);
        lemma_cross_vectors(a, q, d);
        let ax: int = q.0 - a.0;
        let ay: int = q.1 - a.1;
        let bx: int = b.0 - q.0;
        let by_: int = b.1 - q.1;
        let gx: int = g.0 - q.0;
        let gy: int = g.1 - q.1;
        let dx: int = q.0 - d.0;
        let dy: int = q.1 - d.1;
        assert(cross(a, q, b) == vcross(ax, ay, bx, by_));
        assert(cross(q, b, g) == vcross(bx, by_, gx, gy));
        assert(cross(a, q, d) == vcross(ax, ay, -dx, -dy));
        assert(cross(g, q, d) == vcross(gx, gy, dx, dy));
        lemma_vcross_negate(ax, ay, dx, dy);
        lemma_vcross_negate(gx, gy, dx, dy);
        lemma_turns_add(dx, dy, ax, ay, bx, by_);
        lemma_turns_add(dx, dy, bx, by_, gx, gy);
    }
}

/// The ring of the corners of two opposite chains.
spec fn ring(there: Seq<(i32, i32)>, back: Seq<(i32, i32)>) -> Seq<(i32, i32)> {
    there + back.subrange(1, back.len() - 1)
}

/// Two opposite chains with common ends.
spec fn is_ring(there: Seq<(i32, i32)>, back: Seq<(i32, i32)>, points: Seq<(i32, i32)>) -> bool {
    &&& is_chain(true, there, points)
    &&& is_chain(false, back, points)
    &&& there.len() >= 2
    &&& back.len() >= 2
    &&& there.last() == back[0]
    &&& back.last() == there[0]
}

/// Each edge of the ring is an edge of one of the chains.
proof fn lemma_ring_edge(there: Seq<(i32, i32)>, back: Seq<(i32, i32)>, k: int)
    requires
        there.len() >= 2,
        back.len() >= 2,
        there.last() == back[0],
        back.last() == there[0],
        0 <= k < there.len() + back.len() - 2,
    ensures
        ring(there, back).len() == there.len() + back.len() - 2,
        k + 1 < there.len() ==> ring(there, back)[k] == there[k] && ring(there, back)[next(
            k,
            there.len() + back.len() - 2,
        )] == there[k + 1],
        k + 1 >= there.len() ==> ring(there, back)[k] == back[k - there.len() + 1] && ring(
            there,
            back,
        )[next(k, there.len() + back.len() - 2)] == back[k - there.len() + 2],
{
}

proof fn lemma_ring_distinct(
    there: Seq<(i32, i32)>,
    back: Seq<(i32, i32)>,
    points: Seq<(i32, i32)>,
    k: int,
    l: int,
)
    requires
        is_ring(there, back, points),
        0 <= k < l < there.len() + back.len() - 2,
    ensures
        ring(there, back)[k] != ring(there, back)[l],
{
    let a: int = there.len() as int;
    let b: int = back.len() as int;
    lemma_ring_edge(there, back, k);
    lemma_ring_edge(there, back, l);
    if l < a {
        assert(ahead(true, there[k], there[l]));
        assert(ring(there, back)[l] == there[l]);
    } else {
        let j: int = l - a + 1;
        assert(ahead(false, back[0], back[j]));
        assert(ahead(false, back[j], back[b - 1]));
        if k >= a {
            assert(ahead(false, back[k - a + 1], back[j]));
        } else if 0 < k && k + 1 < a {
            lemma_disjoint(there, back, points, k, j);
        }
    }
}

proof fn lemma_ring_turn(
    there: Seq<(i32, i32)>,
    back: Seq<(i32, i32)>,
    points: Seq<(i32, i32)>,
    k: int,
)
    requires
        is_ring(there, back, points),
        there.len() + back.len() >= 5,
        0 <= k < there.len() + back.len() - 2,
    ensures
        ({
            let n: int = there.len() + back.len() - 2;
            cross(
                ring(there, back)[k],
                ring(there, back)[next(k, n)],
                ring(there, back)[next(next(k, n), n)],
            ) > 0
        }),
{
    let n: int = there.len() + back.len() - 2;
    let a: int = there.len() as int;
    lemma_ring_edge(there, back, k);
    lemma_ring_edge(there, back, next(k, n));
    if k + 2 < a {
        assert(turn(there, k) > 0);
    } else if k + 2 == a {
        lemma_meeting(true, there, back, points);
    } else if k + 1 < n {
        assert(turn(back, k - a + 1) > 0);
    } else {
        lemma_meeting(false, back, there, points);
    }
}

proof fn lemma_ring_side(
    there: Seq<(i32, i32)>,
    back: Seq<(i32, i32)>,
    points: Seq<(i32, i32)>,
    k: int,
    p: (i32, i32),
)
    requires
        is_ring(there, back, points),
        0 <= k < there.len() + back.len() - 2,
        points.contains(p),
    ensures
        points.contains(ring(there, back)[k]),
        cross(
            ring(there, back)[k],
            ring(there, back)[next(k, there.len() + back.len() - 2)],
            p,
        ) >= 0,
{
    let a: int = there.len() as int;
    lemma_ring_edge(there, back, k);
    if k + 1 < a {
        assert(side(there, k, p) >= 0);
        assert(points.contains(there[k]));
    } else {
        assert(side(back, k - a + 1, p) >= 0);
        assert(points.contains(back[k - a + 1]));
    }
}

/// Two opposite chains between the first and the last point form the hull.
proof fn lemma_ring_is_hull(
    there: Seq<(i32, i32)>,
    back: Seq<(i32, i32)>,
    points: Seq<(i32, i32)>,
)
    requires
        is_ring(there, back, points),
    ensures
        is_boundary(points, ring(there, back)),
{
    let hull: Seq<(i32, i32)> = ring(there, back);
    let n: int = there.len() + back.len() - 2;
    assert(points.contains(there[0]));
    assert forall|k: int, l: int| 0 <= k < l < n implies hull[k] != hull[l] by {
        lemma_ring_distinct(there, back, points, k, l);
    }
    assert forall|k: int| 0 <= k < n implies points.contains(#[trigger] hull[k]) by {
        lemma_ring_side(there, back, points, k, there[0]);
    }
    assert(hull[there.len() - 1] == back[0]);
    assert(is_last(points, hull[there.len() - 1]));
    assert(hull[0] == there[0]);
    assert forall|k: int, p: (i32, i32)|
        #![trigger hull[k], points.contains(p)]
        0 <= k < n && points.contains(p) implies cross(hull[k], hull[next(k, n)], p) >= 0 by {
        lemma_ring_side(there, back, points, k, p);
    }
    if n >= 3 {
        assert forall|k: int|
            #![trigger hull[k]]
            0 <= k < n implies cross(hull[k], hull[next(k, n)], hull[next(next(k, n), n)]) > 0 by {
            lemma_ring_turn(there, back, points, k);
        }
    }
}

/// A chain depends only on which points there are.
proof fn lemma_chain_same(
    forward: bool,
    c: Seq<(i32, i32)>,
    s: Seq<(i32, i32)>,
    t: Seq<(i32, i32)>,
)
    requires
        is_chain(forward, c, s),
        forall|q: (i32, i32)| #[trigger] s.contains(q) <==> t.contains(q),
    ensures
        is_chain(forward, c, t),
{
    assert forall|i: int| 0 <= i < c.len() implies t.contains(#[trigger] c[i]) by {
        assert(s.contains(c[i]));
    }
    assert forall|i: int, q: (i32, i32)|
        0 <= i && i + 1 < c.len() && t.contains(q) implies #[trigger] side(c, i, q) >= 0 by {
        assert(s.contains(q));
    }
    assert forall|q: (i32, i32)| #[trigger] t.contains(q) implies q == c[0] || ahead(
        forward,
        c[0],
        q,
    ) by {
        assert(s.contains(q));
    }
}

/// Sorts points by column, then by row, with the standard library's
/// `sort_unstable` on slices: it permutes the elements into ascending order,
/// which for pairs is lexicographic.
#[verifier::external_body]
fn sort_points(points: &mut Vec<(i32, i32)>)
    ensures
        final(points)@.to_multiset() == old(points)@.to_multiset(),
        forall|i: int, j: int|
            0 <= i < j < final(points)@.len() ==> #[trigger] final(points)@[i]
                == #[trigger] final(points)@[j] || precedes(final(points)@[i], final(points)@[j]),
{
    points.sort_unstable();
}

/// The distinct points in ascending order.
fn sorted_distinct(pts: &[(i32, i32)]) -> (distinct: Vec<(i32, i32)>)
    ensures
        forall|i: int, j: int|
            0 <= i < j < distinct@.len() ==> precedes(
                #[trigger] distinct@[i],
                #[trigger] distinct@[j],
            ),
        forall|q: (i32, i32)| #[trigger] distinct@.contains(q) <==> pts@.contains(q),
{
    let n: usize = pts.len();
    let mut sorted: Vec<(i32, i32)> = Vec::new();
    let mut i: usize = 0;
    while i < n
        invariant
            n == pts@.len(),
            i <= n,
            sorted@ == pts@.take(i as int),
        decreases n - i,
    {
        sorted.push(pts[i]);
        assert(pts@.take(i as int).push(pts@[i as int]) =~= pts@.take(i + 1));
        i = i + 1;
    }
    assert(sorted@ =~= pts@);
    sort_points(&mut sorted);
    proof {
        pts@.to_multiset_ensures();
        sorted@.to_multiset_ensures();
        assert forall|q: (i32, i32)| #[trigger] sorted@.contains(q) <==> pts@.contains(q) by {
            assert(sorted@.to_multiset().count(q) == pts@.to_multiset().count(q));
        }
    }
    let mut distinct: Vec<(i32, i32)> = Vec::new();
    let mut k: usize = 0;
    while k < sorted.len()
        invariant
            k <= sorted@.len(),
            forall|i: int, j: int|
                0 <= i < j < sorted@.len() ==> #[trigger] sorted@[i] == #[trigger] sorted@[j]
                    || precedes(sorted@[i], sorted@[j]),
            forall|i: int, j: int|
                0 <= i < j < distinct@.len() ==> precedes(
                    #[trigger] distinct@[i],
                    #[trigger] distinct@[j],
                ),
            forall|q: (i32, i32)| #[trigger]
                distinct@.contains(q) <==> sorted@.take(k as int).contains(q),
            k > 0 ==> distinct@.len() > 0 && distinct@.last() == sorted@[k - 1],
            k == 0 ==> distinct@.len() == 0,
        decreases sorted@.len() - k,
    {
        let p: (i32, i32) = sorted[k];
        let ghost before: Seq<(i32, i32)> = distinct@;
        let fresh: bool = if distinct.len() == 0 {
            true
        } else {
            let l: (i32, i32) = distinct[distinct.len() - 1];
            l.0 != p.0 || l.1 != p.1
        };
        if fresh {
            distinct.push(p);
            proof {
                assert forall|i: int, j: int| 0 <= i < j < distinct@.len() implies precedes(
                    #[trigger] distinct@[i],
                    #[trigger] distinct@[j],
                ) by {
                    assert(distinct@[i] == before[i]);
                    if j < before.len() {
                        assert(distinct@[j] == before[j]);
                    } else {
                        assert(sorted@[k - 1] == p || precedes(sorted@[k - 1], sorted@[k as int]));
                        if i + 1 < before.len() {
                            assert(precedes(before[i], before[before.len() - 1]));
                        }
                    }
                }
            }
        }
        proof {
            assert(sorted@.take(k + 1) =~= sorted@.take(k as int).push(p));
            assert forall|q: (i32, i32)| #[trigger] distinct@.contains(q) <==> sorted@.take(
                k + 1,
            ).contains(q) by {
                lemma_contains_push(sorted@.take(k as int), p, q);
                lemma_contains_push(before, p, q);
                if !fresh {
                    assert(before[before.len() - 1] == p);
                    assert(before.contains(p));
                }
            }
        }
        k = k + 1;
    }
    assert(sorted@.take(k as int) =~= sorted@);
    distinct
}

spec fn dot(ux: int, uy: int, vx: int, vy: int) -> int {
    ux * vx + uy * vy
}

proof fn lemma_expand(a: int, b: int, c: int, d: int)
    ensures
        (a + b) * (c - d) == a * c - a * d + b * c - b * d,
{
    assert((a + b) * (c - d) == a * c - a * d + b * c - b * d) by (nonlinear_arith);
}

proof fn lemma_regroup(a: int, b: int, c: int, d: int)
    ensures
        (a * b) * (c * d) == (a * c) * (b * d),
        (a * b) * (c * d) == (c * a) * (d * b),
        (a * b) * (c * d) == (a * c) * (d * b),
        (a * b) * (c * d) == (c * a) * (b * d),
{
    assert((a * b) * (c * d) == (a * c) * (b * d)) by (nonlinear_arith);
    assert(a * c == c * a && b * d == d * b) by (nonlinear_arith);
}

/// The product of two vectors by their parts along and across a third.
proof fn lemma_parts(ux: int, uy: int, sx: int, sy: int, tx: int, ty: int)
    ensures
        dot(ux, uy, ux, uy) * vcross(sx, sy, tx, ty) == dot(ux, uy, sx, sy) * vcross(ux, uy, tx, ty)
            - dot(ux, uy, tx, ty) * vcross(ux, uy, sx, sy),
        (ux != 0 || uy != 0) ==> dot(ux, uy, ux, uy) > 0,
{
    lemma_expand(ux * ux, uy * uy, sx * ty, sy * tx);
    lemma_expand(ux * sx, uy * sy, ux * ty, uy * tx);
    lemma_expand(ux * tx, uy * ty, ux * sy, uy * sx);
    lemma_regroup(ux, sx, ux, ty);
    lemma_regroup(ux, sx, uy, tx);
    lemma_regroup(uy, sy, ux, ty);
    lemma_regroup(uy, sy, uy, tx);
    lemma_regroup(ux, tx, ux, sy);
    lemma_regroup(ux, tx, uy, sx);
    lemma_regroup(uy, ty, ux, sy);
    lemma_regroup(uy, ty, uy, sx);
    assert((ux != 0 || uy != 0) ==> ux * ux + uy * uy > 0) by (nonlinear_arith);
}

/// Points on one line through two different points make no turns.
proof fn lemma_flat(h: (i32, i32), a: (i32, i32), p: (i32, i32), q: (i32, i32), r: (i32, i32))
    requires
        h != a,
        cross(h, a, p) == 0,
        cross(h, a, q) == 0,
        cross(h, a, r) == 0,
    ensures
        cross(p, q, r) == 0,
{
    let ux: int = a.0 - h.0;
    let uy: int = a.1 - h.1;
    let sx: int = q.0 - p.0;
    let sy: int = q.1 - p.1;
    let tx: int = r.0 - p.0;
    let ty: int = r.1 - p.1;
    lemma_parts(ux, uy, sx, sy, tx, ty);
    assert(vcross(ux, uy, sx, sy) == 0) by (nonlinear_arith)
        requires
            ux * (q.1 - h.1) - uy * (q.0 - h.0) == 0,
            ux * (p.1 - h.1) - uy * (p.0 - h.0) == 0,
            sx == q.0 - p.0,
            sy == q.1 - p.1,
    {
        assert(vcross(ux, uy, sx, sy) == ux * sy - uy * sx);
    }
    assert(vcross(ux, uy, tx, ty) == 0) by (nonlinear_arith)
        requires
            ux * (r.1 - h.1) - uy * (r.0 - h.0) == 0,
            ux * (p.1 - h.1) - uy * (p.0 - h.0) == 0,
            tx == r.0 - p.0,
            ty == r.1 - p.1,
    {
        assert(vcross(ux, uy, tx, ty) == ux * ty - uy * tx);
    }
    let uu: int = dot(ux, uy, ux, uy);
    let st: int = vcross(sx, sy, tx, ty);
    let us: int = dot(ux, uy, sx, sy);
    let ut: int = dot(ux, uy, tx, ty);
    assert(uu * st == us * 0 - ut * 0);
    assert(st == 0) by (nonlinear_arith)
        requires
            uu * st == us * 0 - ut * 0,
            uu > 0,
    ;
}

/// Two edges from one corner that both have all points on one side lead the
/// same way, and the nearer end is no corner.
proof fn lemma_same_edge(
    h: (i32, i32),
    a: (i32, i32),
    b: (i32, i32),
    c: (i32, i32),
    d: (i32, i32),
)
    requires
        a != h,
        b != h,
        cross(h, a, b) == 0,
        cross(h, a, c) > 0,
        cross(h, b, c) >= 0,
        cross(h, b, d) > 0,
        cross(a, c, b) >= 0,
        cross(b, d, a) >= 0,
    ensures
        a == b,
{
    let ux: int = a.0 - h.0;
    let uy: int = a.1 - h.1;
    let vx: int = b.0 - h.0;
    let vy: int = b.1 - h.1;
    let wx: int = c.0 - a.0;
    let wy: int = c.1 - a.1;
    let zx: int = d.0 - b.0;
    let zy: int = d.1 - b.1;
    let uu: int = dot(ux, uy, ux, uy);
    let vv: int = dot(vx, vy, vx, vy);
    let uv: int = dot(ux, uy, vx, vy);
    let uw: int = vcross(ux, uy, wx, wy);
    let vz: int = vcross(vx, vy, zx, zy);
    lemma_cross_vectors(h, a, c);
    lemma_cross_vectors(h, b, d);
    lemma_cross_vectors(h, a, b);
    assert(uw > 0 && vz > 0);
    lemma_parts(ux, uy, vx, vy, c.0 - h.0, c.1 - h.1);
    lemma_parts(ux, uy, wx, wy, vx - ux, vy - uy);
    lemma_parts(vx, vy, zx, zy, ux - vx, uy - vy);
    assert(vcross(ux, uy, vx, vy) == 0);
    assert(vcross(ux, uy, vx - ux, vy - uy) == 0) by (nonlinear_arith)
        requires
            ux * vy - uy * vx == 0,
    {
        assert(vcross(ux, uy, vx - ux, vy - uy) == ux * (vy - uy) - uy * (vx - ux));
    }
    assert(vcross(vx, vy, ux - vx, uy - vy) == 0) by (nonlinear_arith)
        requires
            ux * vy - uy * vx == 0,
    {
        assert(vcross(vx, vy, ux - vx, uy - vy) == vx * (uy - vy) - vy * (ux - vx));
    }
    // Both edges lead to the same side of `h`: else no point could lie
    // strictly on the inner side of the first.
    let uc: int = vcross(ux, uy, c.0 - h.0, c.1 - h.1);
    let vc: int = vcross(vx, vy, c.0 - h.0, c.1 - h.1);
    let cu: int = dot(ux, uy, c.0 - h.0, c.1 - h.1);
    lemma_cross_vectors(h, b, c);
    assert(uc > 0 && vc >= 0);
    assert(uu * vc == uv * uc - cu * 0);
    assert(uv >= 0) by (nonlinear_arith)
        requires
            uu * vc == uv * uc - cu * 0,
            uu > 0,
            vc >= 0,
            uc > 0,
    ;
    // The farther end lies behind the edge that leaves the nearer one.
    let ab: int = vcross(wx, wy, vx - ux, vy - uy);
    let ba: int = vcross(zx, zy, ux - vx, uy - vy);
    lemma_cross_vectors(a, c, b);
    lemma_cross_vectors(b, d, a);
    assert(ab >= 0 && ba >= 0);
    let ud: int = dot(ux, uy, vx - ux, vy - uy);
    let vd: int = dot(vx, vy, ux - vx, uy - vy);
    let dw: int = dot(ux, uy, wx, wy);
    let dz: int = dot(vx, vy, zx, zy);
    assert(uu * ab == dw * 0 - ud * uw);
    assert(vv * ba == dz * 0 - vd * vz);
    assert(ud <= 0) by (nonlinear_arith)
        requires
            uu * ab == dw * 0 - ud * uw,
            uu > 0,
            ab >= 0,
            uw > 0,
    ;
    assert(vd <= 0) by (nonlinear_arith)
        requires
            vv * ba == dz * 0 - vd * vz,
            vv > 0,
            ba >= 0,
            vz > 0,
    ;
    // Hence both ends are equally far.
    assert(ud == uv - uu) by (nonlinear_arith)
        requires
            ud == ux * (vx - ux) + uy * (vy - uy),
            uv == ux * vx + uy * vy,
            uu == ux * ux + uy * uy,
    ;
    assert(vd == uv - vv) by (nonlinear_arith)
        requires
            vd == vx * (ux - vx) + vy * (uy - vy),
            uv == ux * vx + uy * vy,
            vv == vx * vx + vy * vy,
    ;
    lemma_parts(ux, uy, vx, vy, -vy, vx);
    assert(vcross(vx, vy, -vy, vx) == vv) by (nonlinear_arith)
        requires
            vv == vx * vx + vy * vy,
    {
        assert(vcross(vx, vy, -vy, vx) == vx * vx - vy * (-vy));
    }
    assert(vcross(ux, uy, -vy, vx) == uv) by (nonlinear_arith)
        requires
            uv == ux * vx + uy * vy,
    {
        assert(vcross(ux, uy, -vy, vx) == ux * vx - uy * (-vy));
    }
    let across: int = dot(ux, uy, -vy, vx);
    assert(uu * vv == uv * uv - across * 0);
    assert(uv * uv == uu * vv);
    assert(uv == uu && uv == vv) by (nonlinear_arith)
        requires
            uv * uv == uu * vv,
            uv <= uu,
            uv <= vv,
            uv >= 0,
            uu > 0,
            vv > 0,
    ;
    assert((vx - ux) * (vx - ux) + (vy - uy) * (vy - uy) == 0) by (nonlinear_arith)
        requires
            uv == ux * vx + uy * vy,
            uu == ux * ux + uy * uy,
            vv == vx * vx + vy * vy,
            uv == uu,
            uv == vv,
    ;
    assert(vx == ux && vy == uy) by (nonlinear_arith)
        requires
            (vx - ux) * (vx - ux) + (vy - uy) * (vy - uy) == 0,
    ;
}

/// A hull of two corners leaves no other point than those on its line, so that
/// there is no other hull.
proof fn lemma_flat_hull(points: Seq<(i32, i32)>, g: Seq<(i32, i32)>, h: Seq<(i32, i32)>)
    requires
        is_boundary(points, g),
        is_boundary(points, h),
        g.len() == 2,
    ensures
        h == g,
{
    let n: int = h.len() as int;
    assert(points.contains(g[0]) && points.contains(g[1]));
    assert forall|p: (i32, i32)| #[trigger] points.contains(p) implies cross(g[0], g[1], p) == 0 by {
        assert(cross(g[0], g[next(0, 2)], p) >= 0);
        assert(cross(g[1], g[next(1, 2)], p) >= 0);
        lemma_cross_vectors(g[0], g[1], p);
        lemma_cross_vectors(g[1], p, g[0]);
    }
    if n >= 3 {
        assert(points.contains(h[0]) && points.contains(h[1]) && points.contains(h[2]));
        assert(cross(h[0], h[next(0, n)], h[next(next(0, n), n)]) > 0);
        lemma_flat(g[0], g[1], h[0], h[1], h[2]);
    }
    lemma_first_and_last(points, g, h);
}

/// Hulls of one or two corners are alike.
proof fn lemma_first_and_last(points: Seq<(i32, i32)>, g: Seq<(i32, i32)>, h: Seq<(i32, i32)>)
    requires
        is_boundary(points, g),
        is_boundary(points, h),
        g.len() <= 2,
        h.len() <= 2,
    ensures
        h == g,
{
    if points.len() == 0 {
        if g.len() > 0 {
            assert(points.contains(g[0]));
        }
        if h.len() > 0 {
            assert(points.contains(h[0]));
        }
        assert(g =~= h);
    } else {
        let a: int = choose|k: int| 0 <= k < g.len() && is_last(points, #[trigger] g[k]);
        let b: int = choose|k: int| 0 <= k < h.len() && is_last(points, #[trigger] h[k]);
        assert(points.contains(g[a]) && points.contains(h[b]));
        assert(points.contains(g[0]) && points.contains(h[0]));
        assert(g[a] == h[b]);
        assert(g[0] == h[0]);
        if g.len() == 2 {
            assert(points.contains(g[1]));
        }
        if h.len() == 2 {
            assert(points.contains(h[1]));
        }
        assert(g =~= h);
    }
}

/// Points with a hull of less than two corners are all equal.
proof fn lemma_single_hull(points: Seq<(i32, i32)>, g: Seq<(i32, i32)>, h: Seq<(i32, i32)>)
    requires
        is_boundary(points, g),
        is_boundary(points, h),
        g.len() < 2,
    ensures
        h == g,
{
    if h.len() >= 2 {
        assert(points.contains(h[0]) && points.contains(h[1]));
        assert(points.len() > 0);
        let a: int = choose|k: int| 0 <= k < g.len() && is_last(points, #[trigger] g[k]);
        assert(a == 0);
        assert(h[0] == g[0] && h[1] == g[0]);
    }
    lemma_first_and_last(points, g, h);
}

/// Two hulls of the same points go on alike from a common corner.
proof fn lemma_hulls_go_on(
    points: Seq<(i32, i32)>,
    g: Seq<(i32, i32)>,
    h: Seq<(i32, i32)>,
    k: int,
)
    requires
        is_boundary(points, g),
        is_boundary(points, h),
        g.len() >= 3,
        h.len() >= 3,
        0 <= k < g.len(),
        k < h.len(),
        g[k] == h[k],
    ensures
        g[next(k, g.len() as int)] == h[next(k, h.len() as int)],
{
    let n: int = g.len() as int;
    let m: int = h.len() as int;
    let g1: int = next(k, n);
    let g2: int = next(g1, n);
    let h1: int = next(k, m);
    let h2: int = next(h1, m);
    let o: (i32, i32) = g[k];
    let a: (i32, i32) = g[g1];
    let c: (i32, i32) = g[g2];
    let b: (i32, i32) = h[h1];
    let d: (i32, i32) = h[h2];
    assert(points.contains(a) && points.contains(b) && points.contains(c) && points.contains(d));
    assert(cross(g[k], g[next(k, n)], b) >= 0);
    assert(cross(h[k], h[next(k, m)], a) >= 0);
    lemma_cross_vectors(o, a, b);
    assert(cross(g[k], g[next(k, n)], g[next(next(k, n), n)]) > 0);
    assert(cross(h[k], h[next(k, m)], h[next(next(k, m), m)]) > 0);
    assert(cross(h[k], h[next(k, m)], c) >= 0);
    assert(cross(g[g1], g[next(g1, n)], b) >= 0);
    assert(cross(h[h1], h[next(h1, m)], a) >= 0);
    assert(a != o && b != o);
    lemma_same_edge(o, a, b, c, d);
}

proof fn lemma_hulls_agree(
    points: Seq<(i32, i32)>,
    g: Seq<(i32, i32)>,
    h: Seq<(i32, i32)>,
    k: int,
)
    requires
        is_boundary(points, g),
        is_boundary(points, h),
        g.len() >= 3,
        h.len() >= 3,
        0 <= k < g.len(),
        k < h.len(),
    ensures
        g[k] == h[k],
    decreases k,
{
    if k == 0 {
        assert(points.contains(g[0]) && points.contains(h[0]));
    } else {
        lemma_hulls_agree(points, g, h, k - 1);
        lemma_hulls_go_on(points, g, h, k - 1);
    }
}

/// A hull has no more corners than another hull of the same points.
proof fn lemma_hulls_as_long(points: Seq<(i32, i32)>, g: Seq<(i32, i32)>, h: Seq<(i32, i32)>)
    requires
        is_boundary(points, g),
        is_boundary(points, h),
        g.len() >= 3,
        h.len() >= 3,
    ensures
        h.len() <= g.len(),
{
    let n: int = g.len() as int;
    if h.len() > n {
        lemma_hulls_agree(points, g, h, 0);
        lemma_hulls_agree(points, g, h, n - 1);
        lemma_hulls_go_on(points, g, h, n - 1);
        assert(h[n] == h[0]);
    }
}

/// A hull depends only on which points there are.
proof fn lemma_hull_same_points(
    points: Seq<(i32, i32)>,
    others: Seq<(i32, i32)>,
    h: Seq<(i32, i32)>,
)
    requires
        forall|p: (i32, i32)| #[trigger] points.contains(p) <==> others.contains(p),
        is_boundary(others, h),
    ensures
        is_boundary(points, h),
{
    assert(points.len() > 0 ==> others.len() > 0) by {
        if points.len() > 0 {
            assert(points.contains(points[0]));
        }
    }
    if points.len() > 0 {
        let k: int = choose|k: int| 0 <= k < h.len() && is_last(others, #[trigger] h[k]);
        assert(is_last(points, h[k])) by {
            assert forall|p: (i32, i32)| #[trigger] points.contains(p) implies p == h[k]
                || precedes(p, h[k]) by {
                assert(others.contains(p));
            }
        }
    }
    assert forall|k: int| 0 <= k < h.len() implies points.contains(#[trigger] h[k]) by {
        assert(others.contains(h[k]));
    }
    assert forall|k: int, p: (i32, i32)|
        #![trigger h[k], points.contains(p)]
        0 <= k < h.len() && points.contains(p) implies cross(
        h[k],
        h[next(k, h.len() as int)],
        p,
    ) >= 0 by {
        assert(others.contains(p));
    }
    assert forall|p: (i32, i32)| #[trigger] points.contains(p) implies p == h[0] || precedes(
        h[0],
        p,
    ) by {
        assert(others.contains(p));
    }
}

/// A sequence of points has one hull only.
proof fn lemma_one_hull(points: Seq<(i32, i32)>, g: Seq<(i32, i32)>, h: Seq<(i32, i32)>)
    requires
        is_boundary(points, g),
        is_boundary(points, h),
    ensures
        g == h,
{
    if g.len() == 2 {
        lemma_flat_hull(points, g, h);
    } else if h.len() == 2 {
        lemma_flat_hull(points, h, g);
    } else if g.len() < 2 {
        lemma_single_hull(points, g, h);
    } else if h.len() < 2 {
        lemma_single_hull(points, h, g);
    } else {
        lemma_hulls_as_long(points, g, h);
        lemma_hulls_as_long(points, h, g);
        assert forall|k: int| 0 <= k < g.len() implies g[k] == h[k] by {
            lemma_hulls_agree(points, g, h, k);
        }
        assert(g =~= h);
    }
}

/// A set of points has one hull only. It does not matter in which order the
/// points come or how often each of them occurs.
pub proof fn hull_is_unique(
    points: Seq<(i32, i32)>,
    others: Seq<(i32, i32)>,
    g: Seq<(i32, i32)>,
    h: Seq<(i32, i32)>,
)
    requires
        forall|p: (i32, i32)| #[trigger] points.contains(p) <==> others.contains(p),
        is_hull(points, g),
        is_hull(others, h),
    ensures
        g == h,
{
    lemma_hull_is_boundary(points, g);
    lemma_hull_is_boundary(others, h);
    lemma_hull_same_points(points, others, h);
    lemma_one_hull(points, g, h);
}

/// The convex hull of a sequence of points.
pub open spec fn hull_of(points: Seq<(i32, i32)>) -> Seq<(i32, i32)> {
    choose|hull: Seq<(i32, i32)>| is_hull(points, hull)
}

/// One or two distinct points are their own hull.
proof fn lemma_small_hull(points: Seq<(i32, i32)>, p: Seq<(i32, i32)>)
    requires
        p.len() < 3,
        forall|i: int, j: int|
            0 <= i < j < p.len() ==> precedes(#[trigger] p[i], #[trigger] p[j]),
        forall|q: (i32, i32)| #[trigger] p.contains(q) <==> points.contains(q),
    ensures
        is_boundary(points, p),
{
    let n: int = p.len() as int;
    assert forall|k: int| 0 <= k < n implies points.contains(#[trigger] p[k]) by {
        assert(p.contains(p[k]));
    }
    assert forall|q: (i32, i32)| #[trigger] points.contains(q) implies n > 0 && (q == p[0] || q
        == p[n - 1]) by {
        assert(p.contains(q));
    }
    if points.len() > 0 {
        assert(points.contains(points[0]));
        assert(is_last(points, p[n - 1]));
    }
    assert forall|k: int, q: (i32, i32)|
        #![trigger p[k], points.contains(q)]
        0 <= k < n && points.contains(q) implies cross(p[k], p[next(k, n)], q) >= 0 by {
        lemma_cross_vectors(p[k], p[next(k, n)], q);
        lemma_cross_vectors(p[k], p[next(k, n)], p[next(k, n)]);
    }
}

/// The lower chain of points in ascending order.
fn lower_chain(p: &Vec<(i32, i32)>) -> (hull: Vec<(i32, i32)>)
    requires
        p@.len() >= 2,
        forall|i: int, j: int|
            0 <= i < j < p@.len() ==> precedes(#[trigger] p@[i], #[trigger] p@[j]),
    ensures
        is_chain(true, hull@, p@),
        hull@.len() >= 2,
        hull@[0] == p@[0],
        hull@.last() == p@.last(),
{
    let n: usize = p.len();
    let mut hull: Vec<(i32, i32)> = Vec::new();
    hull.push(p[0]);
    let ghost mut seen: Seq<(i32, i32)> = seq![p@[0]];
    proof {
        assert(hull@.skip(0) =~= seen);
        assert(seen =~= p@.take(1));
        assert(seen[0] == p@[0]);
        assert(seen.contains(seen[0]));
        assert(is_chain(true, hull@.skip(0), seen));
    }
    let mut i: usize = 1;
    while i < n
        invariant
            n == p@.len(),
            1 <= i <= n,
            forall|a: int, b: int|
                0 <= a < b < p@.len() ==> precedes(#[trigger] p@[a], #[trigger] p@[b]),
            seen == p@.take(i as int),
            hull@.len() > 0,
            i > 1 ==> hull@.len() > 1,
            hull@[0] == p@[0],
            hull@.last() == seen.last(),
            is_chain(true, hull@.skip(0), seen),
        decreases n - i,
    {
        proof {
            assert(seen.last() == p@[i - 1]);
            assert forall|q: (i32, i32)| #[trigger] seen.contains(q) implies ahead(
                true,
                q,
                p@[i as int],
            ) && (q == seen.last() || ahead(true, q, seen.last())) by {
                let k: int = choose|k: int| 0 <= k < seen.len() && seen[k] == q;
                assert(p@[k] == q);
                assert(precedes(p@[k], p@[i as int]));
                if k < i - 1 {
                    assert(precedes(p@[k], p@[i - 1]));
                }
            }
        }
        extend(&mut hull, 0, p[i], Ghost(true), Ghost(seen));
        proof {
            seen = seen.push(p@[i as int]);
            assert(seen =~= p@.take(i + 1));
            let c: Seq<(i32, i32)> = hull@.skip(0);
            assert(c =~= hull@);
            assert(seen.contains(c[0]));
            let k: int = choose|k: int| 0 <= k < seen.len() && seen[k] == c[0];
            if k > 0 {
                assert(seen.contains(seen[0]));
                assert(precedes(p@[0], p@[k]));
            }
        }
        i = i + 1;
    }
    proof {
        assert(seen =~= p@);
        assert(hull@.skip(0) =~= hull@);
    }
    hull
}

/// Appends the upper chain of points in ascending order to their lower chain.
fn add_upper_chain(p: &Vec<(i32, i32)>, hull: &mut Vec<(i32, i32)>)
    requires
        p@.len() >= 2,
        forall|i: int, j: int|
            0 <= i < j < p@.len() ==> precedes(#[trigger] p@[i], #[trigger] p@[j]),
        old(hull)@.len() > 0,
        old(hull)@.last() == p@.last(),
    ensures
        final(hull)@.len() > old(hull)@.len(),
        final(hull)@.take(old(hull)@.len() as int) == old(hull)@,
        is_chain(false, final(hull)@.skip(old(hull)@.len() - 1), p@),
        final(hull)@.last() == p@[0],
{
    let n: usize = p.len();
    let lower: usize = hull.len() - 1;
    let ghost there: Seq<(i32, i32)> = hull@;
    let ghost last: (i32, i32) = p@[n - 1];
    let ghost mut gone: Seq<(i32, i32)> = seq![last];
    proof {
        let c: Seq<(i32, i32)> = hull@.skip(lower as int);
        assert(c =~= gone);
        assert(gone[0] == last);
        assert(gone.contains(gone[0]));
        assert(is_chain(false, c, gone));
        assert(hull@.take(lower as int) =~= there.drop_last());
    }
    let mut j: usize = n - 1;
    while j > 0
        invariant
            n == p@.len(),
            j < n,
            forall|a: int, b: int|
                0 <= a < b < p@.len() ==> precedes(#[trigger] p@[a], #[trigger] p@[b]),
            gone.len() == n - j,
            forall|k: int| 0 <= k < gone.len() ==> #[trigger] gone[k] == p@[n - 1 - k],
            lower + 1 == there.len(),
            lower < hull@.len(),
            j < n - 1 ==> lower + 1 < hull@.len(),
            hull@.take(lower as int) == there.drop_last(),
            hull@[lower as int] == last,
            last == p@[n - 1],
            hull@.last() == gone.last(),
            is_chain(false, hull@.skip(lower as int), gone),
        decreases j,
    {
        j = j - 1;
        let ghost pt: (i32, i32) = p@[j as int];
        proof {
            assert(gone.last() == p@[j + 1]);
            assert forall|q: (i32, i32)| #[trigger] gone.contains(q) implies ahead(false, q, pt) && (
            q == gone.last() || ahead(false, q, gone.last())) by {
                let k: int = choose|k: int| 0 <= k < gone.len() && gone[k] == q;
                assert(precedes(p@[j as int], p@[n - 1 - k]));
                if k + 1 < gone.len() {
                    assert(precedes(p@[j + 1], p@[n - 1 - k]));
                }
            }
        }
        extend(hull, lower, p[j], Ghost(false), Ghost(gone));
        proof {
            gone = gone.push(pt);
            let c: Seq<(i32, i32)> = hull@.skip(lower as int);
            assert(gone.contains(c[0]));
            let k: int = choose|k: int| 0 <= k < gone.len() && gone[k] == c[0];
            if k > 0 {
                assert(gone.contains(gone[0]));
                assert(precedes(p@[n - 1 - k], p@[n - 1]));
            }
            assert(c[0] == hull@[lower as int]);
        }
    }
    proof {
        assert forall|q: (i32, i32)| #[trigger] gone.contains(q) <==> p@.contains(q) by {
            if gone.contains(q) {
                let k: int = choose|k: int| 0 <= k < gone.len() && gone[k] == q;
                assert(p@[n - 1 - k] == q);
            }
            if p@.contains(q) {
                let k: int = choose|k: int| 0 <= k < p@.len() && p@[k] == q;
                assert(gone[n - 1 - k] == q);
            }
        }
        lemma_chain_same(false, hull@.skip(lower as int), gone, p@);
        assert(gone.last() == p@[0]);
        assert(hull@.take(lower + 1) =~= there) by {
            assert forall|k: int| 0 <= k < lower implies hull@[k] == there[k] by {
                assert(hull@.take(lower as int)[k] == there.drop_last()[k]);
            }
        }
    }
}

/// A lower chain followed by the upper chain is the hull, closed by its first
/// corner.
proof fn lemma_finish(
    there: Seq<(i32, i32)>,
    closed: Seq<(i32, i32)>,
    p: Seq<(i32, i32)>,
    points: Seq<(i32, i32)>,
)
    requires
        is_chain(true, there, p),
        there.len() >= 2,
        there[0] == p[0],
        closed.len() > there.len(),
        closed.take(there.len() as int) == there,
        is_chain(false, closed.skip(there.len() - 1), p),
        closed.last() == p[0],
        forall|q: (i32, i32)| #[trigger] p.contains(q) <==> points.contains(q),
    ensures
        is_boundary(points, closed.drop_last()),
{
    let back: Seq<(i32, i32)> = closed.skip(there.len() - 1);
    assert(back.last() == closed.last());
    assert(back[0] == closed[there.len() - 1]);
    assert forall|k: int| 0 <= k < there.len() implies closed[k] == there[k] by {
        assert(closed.take(there.len() as int)[k] == there[k]);
    }
    assert(closed.drop_last() =~= ring(there, back));
    lemma_chain_same(true, there, p, points);
    lemma_chain_same(false, back, p, points);
    lemma_ring_is_hull(there, back, points);
}

/// Convex hull by Andrew's monotone chain: the corners in turning order from
/// the first point on, collinear points removed.
pub fn convex_hull(pts: &[(i32, i32)]) -> (hull: Vec<(i32, i32)>)
    ensures
        is_hull(pts@, hull@),
        hull@ == hull_of(pts@),
{
    let p: Vec<(i32, i32)> = sorted_distinct(pts);
    let n: usize = p.len();
    if n < 3 {
        proof {
            lemma_small_hull(pts@, p@);
            lemma_hull_is_boundary(pts@, p@);
            hull_is_unique(pts@, pts@, p@, hull_of(pts@));
        }
        return p;
    }
    let mut hull: Vec<(i32, i32)> = lower_chain(&p);
    let ghost there: Seq<(i32, i32)> = hull@;
    add_upper_chain(&p, &mut hull);
    proof {
        lemma_finish(there, hull@, p@, pts@);
        lemma_hull_is_boundary(pts@, hull@.drop_last());
        hull_is_unique(pts@, pts@, hull@.drop_last(), hull_of(pts@));
    }
    hull.pop();
    hull
}

/// The corners of a hull are their own hull.
pub proof fn hull_is_its_own_hull(points: Seq<(i32, i32)>, hull: Seq<(i32, i32)>)
    requires
        is_hull(points, hull),
    ensures
        is_hull(hull, hull),
        hull_of(hull) == hull,
{
    assert forall|p: (i32, i32)| #[trigger] hull.contains(p) implies points.contains(p) by {
        let k: int = choose|k: int| 0 <= k < hull.len() && hull[k] == p;
        assert(points.contains(hull[k]));
    }
    assert forall|k: int| 0 <= k < hull.len() implies hull.contains(#[trigger] hull[k]) by {}
    if hull.len() > 0 {
        assert(points.contains(hull[0]));
        let k: int = choose|k: int| 0 <= k < hull.len() && is_last(points, #[trigger] hull[k]);
        assert(is_last(hull, hull[k]));
    }
    assert forall|k: int, p: (i32, i32)| 0 <= k < hull.len() && hull.contains(p) implies
        #[trigger] lies_within(hull, k, p) by {
        assert(points.contains(p));
    }
    assert(is_hull(hull, hull));
    hull_is_unique(hull, hull, hull, hull_of(hull));
}

/// A chain can be led on to a point ahead of all that it has seen.
proof fn lemma_chain_goes_on(
    forward: bool,
    c: Seq<(i32, i32)>,
    seen: Seq<(i32, i32)>,
    pt: (i32, i32),
) -> (longer: Seq<(i32, i32)>)
    requires
        is_chain(forward, c, seen),
        clears(forward, c, seen, pt),
        forall|q: (i32, i32)| #[trigger] seen.contains(q) ==> ahead(forward, q, pt),
    ensures
        is_chain(forward, longer, seen.push(pt)),
        longer.len() >= 2,
        longer.last() == pt,
        longer[0] == c[0],
    decreases c.len(),
{
    if c.len() >= 2 && cross(c[c.len() - 2], c[c.len() - 1], pt) <= 0 {
        lemma_pop(forward, c, seen, pt);
        lemma_chain_goes_on(forward, c.drop_last(), seen, pt)
    } else {
        lemma_push(forward, c, seen, pt);
        c.push(pt)
    }
}

/// There is a chain over the first `n` of points that come in order.
proof fn lemma_chain_exists(forward: bool, p: Seq<(i32, i32)>, n: int) -> (c: Seq<(i32, i32)>)
    requires
        1 <= n <= p.len(),
        forall|i: int, j: int|
            0 <= i < j < p.len() ==> ahead(forward, #[trigger] p[i], #[trigger] p[j]),
    ensures
        is_chain(forward, c, p.take(n)),
        c[0] == p[0],
        c.last() == p[n - 1],
        n >= 2 ==> c.len() >= 2,
    decreases n,
{
    if n == 1 {
        let c: Seq<(i32, i32)> = seq![p[0]];
        let seen: Seq<(i32, i32)> = p.take(1);
        assert(seen =~= c);
        assert(c[0] == p[0]);
        assert(seen.contains(c[0]));
        c
    } else {
        let seen: Seq<(i32, i32)> = p.take(n - 1);
        let pt: (i32, i32) = p[n - 1];
        let c: Seq<(i32, i32)> = lemma_chain_exists(forward, p, n - 1);
        assert(seen.last() == p[n - 2]);
        assert forall|q: (i32, i32)| #[trigger] seen.contains(q) implies ahead(forward, q, pt) && (q
            == c.last() || ahead(forward, q, c.last())) by {
            let k: int = choose|k: int| 0 <= k < seen.len() && seen[k] == q;
            assert(p[k] == q);
            assert(ahead(forward, p[k], p[n - 1]));
            if k < n - 2 {
                assert(ahead(forward, p[k], p[n - 2]));
            }
        }
        assert(clears(forward, c, seen, pt));
        assert(seen.push(pt) =~= p.take(n));
        lemma_chain_goes_on(forward, c, seen, pt)
    }
}

/// Puts a point into its place among sorted ones.
proof fn lemma_insert(p: Seq<(i32, i32)>, v: (i32, i32)) -> (q: Seq<(i32, i32)>)
    requires
        forall|i: int, j: int|
            0 <= i < j < p.len() ==> precedes(#[trigger] p[i], #[trigger] p[j]),
    ensures
        forall|i: int, j: int|
            0 <= i < j < q.len() ==> precedes(#[trigger] q[i], #[trigger] q[j]),
        forall|x: (i32, i32)| #[trigger] q.contains(x) <==> p.contains(x) || x == v,
    decreases p.len(),
{
    if p.len() == 0 || precedes(p.last(), v) {
        let q: Seq<(i32, i32)> = p.push(v);
        assert forall|i: int, j: int| 0 <= i < j < q.len() implies precedes(
            #[trigger] q[i],
            #[trigger] q[j],
        ) by {
            if j == p.len() && i < p.len() - 1 {
                assert(precedes(p[i], p[p.len() - 1]));
            }
        }
        assert forall|x: (i32, i32)| #[trigger] q.contains(x) <==> p.contains(x) || x == v by {
            lemma_contains_push(p, v, x);
        }
        q
    } else if p.last() == v {
        assert(p[p.len() - 1] == v);
        p
    } else {
        let rest: Seq<(i32, i32)> = p.drop_last();
        let l: (i32, i32) = p.last();
        let part: Seq<(i32, i32)> = lemma_insert(rest, v);
        let q: Seq<(i32, i32)> = part.push(l);
        assert(precedes(v, l));
        assert forall|x: (i32, i32)| #[trigger] part.contains(x) implies precedes(x, l) by {
            if rest.contains(x) {
                let k: int = choose|k: int| 0 <= k < rest.len() && rest[k] == x;
                assert(precedes(p[k], p[p.len() - 1]));
            }
        }
        assert forall|i: int, j: int| 0 <= i < j < q.len() implies precedes(
            #[trigger] q[i],
            #[trigger] q[j],
        ) by {
            assert(part.contains(part[i]));
        }
        assert forall|x: (i32, i32)| #[trigger] q.contains(x) <==> p.contains(x) || x == v by {
            lemma_contains_push(part, l, x);
            lemma_contains_push(rest, l, x);
            assert(rest.push(l) =~= p);
        }
        q
    }
}

/// Points can be sorted, each of them once.
proof fn lemma_sorted_exists(points: Seq<(i32, i32)>) -> (p: Seq<(i32, i32)>)
    ensures
        forall|i: int, j: int|
            0 <= i < j < p.len() ==> precedes(#[trigger] p[i], #[trigger] p[j]),
        forall|x: (i32, i32)| #[trigger] p.contains(x) <==> points.contains(x),
    decreases points.len(),
{
    if points.len() == 0 {
        points
    } else {
        let rest: Seq<(i32, i32)> = points.drop_last();
        let part: Seq<(i32, i32)> = lemma_sorted_exists(rest);
        let p: Seq<(i32, i32)> = lemma_insert(part, points.last());
        assert forall|x: (i32, i32)| #[trigger] p.contains(x) <==> points.contains(x) by {
            lemma_contains_push(rest, points.last(), x);
            assert(rest.push(points.last()) =~= points);
        }
        p
    }
}

/// Every sequence of points has a hull.
pub proof fn every_point_set_has_a_hull(points: Seq<(i32, i32)>)
    ensures
        is_hull(points, hull_of(points)),
{
    let p: Seq<(i32, i32)> = lemma_sorted_exists(points);
    let n: int = p.len() as int;
    if n < 3 {
        lemma_small_hull(points, p);
        lemma_hull_is_boundary(points, p);
        assert(is_hull(points, p));
    } else {
        let r: Seq<(i32, i32)> = Seq::new(p.len(), |k: int| p[n - 1 - k]);
        assert forall|i: int, j: int| 0 <= i < j < p.len() implies ahead(
            true,
            #[trigger] p[i],
            #[trigger] p[j],
        ) by {
            assert(precedes(p[i], p[j]));
        }
        assert forall|i: int, j: int| 0 <= i < j < r.len() implies ahead(
            false,
            #[trigger] r[i],
            #[trigger] r[j],
        ) by {
            assert(precedes(p[n - 1 - j], p[n - 1 - i]));
        }
        let there: Seq<(i32, i32)> = lemma_chain_exists(true, p, n);
        let back: Seq<(i32, i32)> = lemma_chain_exists(false, r, n);
        assert(p.take(n) =~= p);
        assert(r.take(n) =~= r);
        assert forall|q: (i32, i32)| #[trigger] r.contains(q) <==> points.contains(q) by {
            if r.contains(q) {
                let k: int = choose|k: int| 0 <= k < r.len() && r[k] == q;
                assert(p[n - 1 - k] == q);
                assert(p.contains(q));
            }
            if points.contains(q) {
                assert(p.contains(q));
                let k: int = choose|k: int| 0 <= k < p.len() && p[k] == q;
                assert(r[n - 1 - k] == q);
            }
        }
        lemma_chain_same(true, there, p, points);
        lemma_chain_same(false, back, r, points);
        lemma_ring_is_hull(there, back, points);
        lemma_hull_is_boundary(points, ring(there, back));
        assert(is_hull(points, ring(there, back)));
    }
}

/// The corners of a hull are points, the first of them comes before all others by
/// column and then by row, each point lies to the same side of every edge or on it,
/// and at each corner the hull turns to that side.
pub proof fn hull_surrounds_the_points(
    points: Seq<(i32, i32)>,
    hull: Seq<(i32, i32)>,
    k: int,
    p: (i32, i32),
)
    requires
        is_hull(points, hull),
        points.contains(p),
        0 <= k < hull.len(),
    ensures
        points.contains(hull[k]),
        hull[0].0 < p.0 || (hull[0].0 == p.0 && hull[0].1 <= p.1),
        ({
            let n = hull.len() as int;
            let a = hull[k];
            let b = hull[if k + 1 < n {
                k + 1
            } else {
                0
            }];
            let c = hull[if k + 2 < n {
                k + 2
            } else {
                k + 2 - n
            }];
            &&& (b.0 - a.0) * (p.1 - a.1) - (b.1 - a.1) * (p.0 - a.0) >= 0
            &&& n >= 3 ==> (b.0 - a.0) * (c.1 - a.1) - (b.1 - a.1) * (c.0 - a.0) > 0
        }),
{
    assert(lies_within(hull, k, p));
    if hull.len() >= 3 {
        assert(turns_after(hull, k));
    }
}

} // verus!
