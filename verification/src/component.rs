//! Connected components of a binary edge map.

use crate::grid::{
    col, is_set, lemma_closed_holds_linked, lemma_coordinates, lemma_linked_reflexive,
    lemma_linked_set, lemma_linked_step, lemma_linked_symmetric, lemma_linked_transitive,
    lemma_near_is_step, lemma_neighbours, linked, near, row,
};
use vstd::prelude::*;

verus! {

/// What a flood fill holds between two steps: the pixels seen so far, and the
/// seen pixels that still wait for a visit, the next one last.
pub struct Frontier {
    pub seen: Seq<bool>,
    pub waiting: Seq<int>,
}

/// Puts pixel `q` on the frontier if it is allowed, set and not seen before.
pub open spec fn offer(mask: Seq<bool>, f: Frontier, allowed: bool, q: int) -> Frontier {
    if allowed && mask[q] && !f.seen[q] {
        Frontier { seen: f.seen.update(q, true), waiting: f.waiting.push(q) }
    } else {
        f
    }
}

/// Offers the eight neighbours of `p` that lie inside the raster: those above,
/// those below, then left and right.
pub open spec fn spread(mask: Seq<bool>, w: int, h: int, f: Frontier, p: int) -> Frontier {
    let left = col(p, w) > 0;
    let right = col(p, w) + 1 < w;
    let up = row(p, w) > 0;
    let down = row(p, w) + 1 < h;
    let f = offer(mask, f, up, p - w);
    let f = offer(mask, f, up && left, p - w - 1);
    let f = offer(mask, f, up && right, p - w + 1);
    let f = offer(mask, f, down, p + w);
    let f = offer(mask, f, down && left, p + w - 1);
    let f = offer(mask, f, down && right, p + w + 1);
    let f = offer(mask, f, left, p - 1);
    offer(mask, f, right, p + 1)
}

/// The frontier after the visit of its next pixel.
pub open spec fn visit(mask: Seq<bool>, w: int, h: int, f: Frontier) -> Frontier {
    spread(
        mask,
        w,
        h,
        (Frontier { seen: f.seen, waiting: f.waiting.drop_last() }),
        f.waiting.last(),
    )
}

/// The pixels that a flood fill visits from frontier `f` on, in the order of
/// the visits, `limit` of them at most.
pub open spec fn visits(mask: Seq<bool>, w: int, h: int, f: Frontier, limit: nat) -> Seq<int>
    decreases limit,
{
    if limit == 0 || f.waiting.len() == 0 {
        Seq::empty()
    } else {
        seq![f.waiting.last()] + visits(mask, w, h, visit(mask, w, h, f), (limit - 1) as nat)
    }
}

/// The frontier of a flood fill that starts at pixel `s` of a fresh raster.
pub open spec fn ignition(mask: Seq<bool>, s: int) -> Frontier {
    Frontier { seen: Seq::new(mask.len(), |p: int| p == s), waiting: seq![s] }
}

/// The pixels of the component of `s` in the order in which a flood fill from
/// `s` visits them.
pub open spec fn flood_order(mask: Seq<bool>, w: int, h: int, s: int) -> Seq<int> {
    visits(mask, w, h, ignition(mask, s), mask.len())
}

/// The pixels linked to `s`.
pub open spec fn component(mask: Seq<bool>, w: int, s: int) -> Set<int> {
    Set::new(|q: int| linked(mask, w, s, q))
}

/// A set of pixels that no step over set pixels leaves.
pub open spec fn is_closed(mask: Seq<bool>, w: int, seen: Seq<bool>) -> bool {
    forall|p: int, q: int|
        #![trigger is_set(seen, p), is_set(mask, q)]
        is_set(seen, p) && is_set(mask, q) && near(p, q, w) ==> is_set(seen, q)
}

/// State of a flood fill from `s` over a raster where `before` was seen
/// already: `done` holds the visited pixels.
spec fn flooding(
    mask: Seq<bool>,
    w: int,
    s: int,
    before: Seq<bool>,
    f: Frontier,
    done: Seq<int>,
) -> bool {
    &&& f.seen.len() == mask.len()
    &&& before.len() == mask.len()
    &&& forall|q: int|
        0 <= q < mask.len() ==> (#[trigger] f.seen[q] <==> before[q] || done.contains(q)
            || f.waiting.contains(q))
    &&& forall|q: int|
        #[trigger] done.contains(q) ==> linked(mask, w, s, q) && 0 <= q < mask.len() && !before[q]
    &&& forall|q: int|
        #[trigger] f.waiting.contains(q) ==> linked(mask, w, s, q) && 0 <= q < mask.len()
            && !before[q] && !done.contains(q)
    &&& done.no_duplicates()
    &&& f.waiting.no_duplicates()
    &&& done.contains(s) || f.waiting.contains(s)
}

proof fn lemma_contains_push(s: Seq<int>, v: int)
    ensures
        forall|q: int| s.push(v).contains(q) <==> s.contains(q) || q == v,
{
    assert forall|q: int| s.push(v).contains(q) <==> s.contains(q) || q == v by {
        if s.contains(q) {
            let k: int = choose|k: int| 0 <= k < s.len() && s[k] == q;
            assert(s.push(v)[k] == q);
        }
        if q == v {
            assert(s.push(v)[s.len() as int] == q);
        }
        if s.push(v).contains(q) {
            let k: int = choose|k: int| 0 <= k < s.push(v).len() && s.push(v)[k] == q;
            if k < s.len() {
                assert(s[k] == q);
            }
        }
    }
}

proof fn lemma_offer(
    mask: Seq<bool>,
    w: int,
    s: int,
    before: Seq<bool>,
    f: Frontier,
    done: Seq<int>,
    p: int,
    allowed: bool,
    q: int,
)
    requires
        flooding(mask, w, s, before, f, done),
        done.contains(p),
        allowed ==> 0 <= q < mask.len() && near(p, q, w),
    ensures
        flooding(mask, w, s, before, offer(mask, f, allowed, q), done),
        forall|r: int|
            0 <= r < mask.len() && #[trigger] f.seen[r] ==> offer(mask, f, allowed, q).seen[r],
        allowed && mask[q] ==> offer(mask, f, allowed, q).seen[q],
{
    if allowed && mask[q] && !f.seen[q] {
        let g = offer(mask, f, allowed, q);
        lemma_contains_push(f.waiting, q);
        assert(is_set(mask, q));
        lemma_linked_step(mask, w, s, p, q);
        assert(!f.waiting.contains(q));
        assert(g.waiting == f.waiting.push(q));
        assert forall|r: int| 0 <= r < mask.len() implies (#[trigger] g.seen[r] <==> before[r]
            || done.contains(r) || g.waiting.contains(r)) by {
            assert(f.waiting.push(q).contains(r) <==> f.waiting.contains(r) || r == q);
            if r != q {
                assert(g.seen[r] == f.seen[r]);
            }
        }
        assert forall|r: int| #[trigger] g.waiting.contains(r) implies linked(mask, w, s, r) && 0
            <= r < mask.len() && !before[r] && !done.contains(r) by {
            assert(f.waiting.push(q).contains(r) <==> f.waiting.contains(r) || r == q);
        }
        assert(g.waiting.no_duplicates()) by {
            assert forall|i: int, j: int|
                0 <= i < g.waiting.len() && 0 <= j < g.waiting.len() && i != j implies g.waiting[i]
                != g.waiting[j] by {
                if i < f.waiting.len() {
                    assert(f.waiting.contains(f.waiting[i]));
                }
                if j < f.waiting.len() {
                    assert(f.waiting.contains(f.waiting[j]));
                }
            }
        }
    }
}

proof fn lemma_spread(
    mask: Seq<bool>,
    w: int,
    h: int,
    s: int,
    before: Seq<bool>,
    f: Frontier,
    done: Seq<int>,
    p: int,
)
    requires
        0 < w,
        mask.len() == w * h,
        flooding(mask, w, s, before, f, done),
        done.contains(p),
    ensures
        flooding(mask, w, s, before, spread(mask, w, h, f, p), done),
        forall|r: int|
            0 <= r < mask.len() && #[trigger] f.seen[r] ==> spread(mask, w, h, f, p).seen[r],
        forall|q: int| #[trigger]
            is_set(mask, q) && near(p, q, w) ==> spread(mask, w, h, f, p).seen[q],
{
    let left = col(p, w) > 0;
    let right = col(p, w) + 1 < w;
    let up = row(p, w) > 0;
    let down = row(p, w) + 1 < h;
    lemma_neighbours(p, w, h);
    let f1 = offer(mask, f, up, p - w);
    lemma_offer(mask, w, s, before, f, done, p, up, p - w);
    let f2 = offer(mask, f1, up && left, p - w - 1);
    lemma_offer(mask, w, s, before, f1, done, p, up && left, p - w - 1);
    let f3 = offer(mask, f2, up && right, p - w + 1);
    lemma_offer(mask, w, s, before, f2, done, p, up && right, p - w + 1);
    let f4 = offer(mask, f3, down, p + w);
    lemma_offer(mask, w, s, before, f3, done, p, down, p + w);
    let f5 = offer(mask, f4, down && left, p + w - 1);
    lemma_offer(mask, w, s, before, f4, done, p, down && left, p + w - 1);
    let f6 = offer(mask, f5, down && right, p + w + 1);
    lemma_offer(mask, w, s, before, f5, done, p, down && right, p + w + 1);
    let f7 = offer(mask, f6, left, p - 1);
    lemma_offer(mask, w, s, before, f6, done, p, left, p - 1);
    let f8 = offer(mask, f7, right, p + 1);
    lemma_offer(mask, w, s, before, f7, done, p, right, p + 1);
    assert(f8 == spread(mask, w, h, f, p));
    assert forall|q: int| #[trigger] is_set(mask, q) && near(p, q, w) implies f8.seen[q] by {
        lemma_near_is_step(p, q, w, h);
        let dy: int = row(q, w) - row(p, w);
        assert(dy == -1 ==> dy * w == -w) by (nonlinear_arith);
        assert(dy == 0 ==> dy * w == 0) by (nonlinear_arith);
        assert(dy == 1 ==> dy * w == w) by (nonlinear_arith);
        if q == p {
            assert(f.seen[p]);
        }
    }
}

/// Visiting the next waiting pixel keeps the state of the flood fill.
proof fn lemma_visit(
    mask: Seq<bool>,
    w: int,
    h: int,
    s: int,
    before: Seq<bool>,
    f: Frontier,
    done: Seq<int>,
)
    requires
        0 < w,
        mask.len() == w * h,
        flooding(mask, w, s, before, f, done),
        f.waiting.len() > 0,
    ensures
        flooding(mask, w, s, before, visit(mask, w, h, f), done.push(f.waiting.last())),
        forall|r: int|
            0 <= r < mask.len() && #[trigger] f.seen[r] ==> visit(mask, w, h, f).seen[r],
        forall|q: int| #[trigger]
            is_set(mask, q) && near(f.waiting.last(), q, w) ==> visit(mask, w, h, f).seen[q],
{
    let p: int = f.waiting.last();
    let g = Frontier { seen: f.seen, waiting: f.waiting.drop_last() };
    let after: Seq<int> = done.push(p);
    lemma_contains_push(done, p);
    lemma_contains_push(g.waiting, p);
    assert(g.waiting.push(p) =~= f.waiting);
    assert(f.waiting.contains(p));
    assert(!done.contains(p));
    assert(!g.waiting.contains(p)) by {
        if g.waiting.contains(p) {
            let k: int = choose|k: int| 0 <= k < g.waiting.len() && g.waiting[k] == p;
            assert(f.waiting[k] == f.waiting[f.waiting.len() - 1]);
        }
    }
    assert(after.no_duplicates()) by {
        assert forall|i: int, j: int|
            0 <= i < after.len() && 0 <= j < after.len() && i != j implies after[i] != after[j] by {
            if i < done.len() {
                assert(done.contains(done[i]));
            }
            if j < done.len() {
                assert(done.contains(done[j]));
            }
        }
    }
    assert forall|r: int| 0 <= r < mask.len() implies (#[trigger] g.seen[r] <==> before[r]
        || after.contains(r) || g.waiting.contains(r)) by {
        assert(f.seen[r] == g.seen[r]);
        assert(done.push(p).contains(r) <==> done.contains(r) || r == p);
        assert(g.waiting.push(p).contains(r) <==> g.waiting.contains(r) || r == p);
    }
    assert forall|r: int| #[trigger] after.contains(r) implies linked(mask, w, s, r) && 0 <= r
        < mask.len() && !before[r] by {
        assert(done.push(p).contains(r) <==> done.contains(r) || r == p);
    }
    assert forall|r: int| #[trigger] g.waiting.contains(r) implies linked(mask, w, s, r) && 0 <= r
        < mask.len() && !before[r] && !after.contains(r) by {
        assert(g.waiting.push(p).contains(r) <==> g.waiting.contains(r) || r == p);
        assert(done.push(p).contains(r) <==> done.contains(r) || r == p);
    }
    assert(after.contains(s) || g.waiting.contains(s)) by {
        assert(done.push(p).contains(s) <==> done.contains(s) || s == p);
        assert(g.waiting.push(p).contains(s) <==> g.waiting.contains(s) || s == p);
    }
    assert(flooding(mask, w, s, before, g, after));
    assert(after.contains(p));
    lemma_spread(mask, w, h, s, before, g, after, p);
}

/// A sequence of distinct pixels is no longer than the raster.
proof fn lemma_distinct_bound(s: Seq<int>, n: int)
    requires
        s.no_duplicates(),
        forall|q: int| #[trigger] s.contains(q) ==> 0 <= q < n,
        0 <= n,
    ensures
        s.len() <= n,
{
    s.unique_seq_to_set();
    vstd::set_lib::lemma_int_range(0, n);
    assert forall|q: int| s.to_set().contains(q) implies vstd::set_lib::set_int_range(0, n).contains(
        q,
    ) by {
        assert(s.contains(q));
    }
    vstd::set_lib::lemma_len_subset(s.to_set(), vstd::set_lib::set_int_range(0, n));
}

/// Two frontiers on which a flood fill from `s` runs alike.
spec fn alike(mask: Seq<bool>, w: int, s: int, f: Frontier, g: Frontier) -> bool {
    &&& f.seen.len() == mask.len()
    &&& g.seen.len() == mask.len()
    &&& f.waiting == g.waiting
    &&& forall|k: int| 0 <= k < f.waiting.len() ==> linked(mask, w, s, #[trigger] f.waiting[k])
    &&& forall|q: int| linked(mask, w, s, q) ==> #[trigger] f.seen[q] == g.seen[q]
}

proof fn lemma_offer_alike(
    mask: Seq<bool>,
    w: int,
    s: int,
    f: Frontier,
    g: Frontier,
    p: int,
    allowed: bool,
    q: int,
)
    requires
        alike(mask, w, s, f, g),
        linked(mask, w, s, p),
        allowed ==> 0 <= q < mask.len() && near(p, q, w),
    ensures
        alike(mask, w, s, offer(mask, f, allowed, q), offer(mask, g, allowed, q)),
{
    if allowed && mask[q] {
        assert(is_set(mask, q));
        lemma_linked_step(mask, w, s, p, q);
        assert(f.seen[q] == g.seen[q]);
        if !f.seen[q] {
            let ff = offer(mask, f, allowed, q);
            let gg = offer(mask, g, allowed, q);
            assert forall|r: int| linked(mask, w, s, r) implies #[trigger] ff.seen[r]
                == gg.seen[r] by {
                lemma_linked_set(mask, w, s, r);
                assert(f.seen[r] == g.seen[r]);
            }
        }
    }
}

proof fn lemma_visit_alike(mask: Seq<bool>, w: int, h: int, s: int, f: Frontier, g: Frontier)
    requires
        0 < w,
        mask.len() == w * h,
        alike(mask, w, s, f, g),
        f.waiting.len() > 0,
    ensures
        alike(mask, w, s, visit(mask, w, h, f), visit(mask, w, h, g)),
{
    let p: int = f.waiting.last();
    assert(linked(mask, w, s, f.waiting[f.waiting.len() - 1]));
    lemma_linked_set(mask, w, s, p);
    lemma_coordinates(p, w, h);
    let left = col(p, w) > 0;
    let right = col(p, w) + 1 < w;
    let up = row(p, w) > 0;
    let down = row(p, w) + 1 < h;
    lemma_neighbours(p, w, h);
    let f0 = Frontier { seen: f.seen, waiting: f.waiting.drop_last() };
    let g0 = Frontier { seen: g.seen, waiting: g.waiting.drop_last() };
    assert(alike(mask, w, s, f0, g0));
    let f1 = offer(mask, f0, up, p - w);
    let g1 = offer(mask, g0, up, p - w);
    lemma_offer_alike(mask, w, s, f0, g0, p, up, p - w);
    let f2 = offer(mask, f1, up && left, p - w - 1);
    let g2 = offer(mask, g1, up && left, p - w - 1);
    lemma_offer_alike(mask, w, s, f1, g1, p, up && left, p - w - 1);
    let f3 = offer(mask, f2, up && right, p - w + 1);
    let g3 = offer(mask, g2, up && right, p - w + 1);
    lemma_offer_alike(mask, w, s, f2, g2, p, up && right, p - w + 1);
    let f4 = offer(mask, f3, down, p + w);
    let g4 = offer(mask, g3, down, p + w);
    lemma_offer_alike(mask, w, s, f3, g3, p, down, p + w);
    let f5 = offer(mask, f4, down && left, p + w - 1);
    let g5 = offer(mask, g4, down && left, p + w - 1);
    lemma_offer_alike(mask, w, s, f4, g4, p, down && left, p + w - 1);
    let f6 = offer(mask, f5, down && right, p + w + 1);
    let g6 = offer(mask, g5, down && right, p + w + 1);
    lemma_offer_alike(mask, w, s, f5, g5, p, down && right, p + w + 1);
    let f7 = offer(mask, f6, left, p - 1);
    let g7 = offer(mask, g6, left, p - 1);
    lemma_offer_alike(mask, w, s, f6, g6, p, left, p - 1);
    lemma_offer_alike(mask, w, s, f7, g7, p, right, p + 1);
    assert(visit(mask, w, h, f) == offer(mask, f7, right, p + 1));
    assert(visit(mask, w, h, g) == offer(mask, g7, right, p + 1));
}

proof fn lemma_visits_alike(
    mask: Seq<bool>,
    w: int,
    h: int,
    s: int,
    f: Frontier,
    g: Frontier,
    limit: nat,
)
    requires
        0 < w,
        mask.len() == w * h,
        alike(mask, w, s, f, g),
    ensures
        visits(mask, w, h, f, limit) == visits(mask, w, h, g, limit),
    decreases limit,
{
    if limit > 0 && f.waiting.len() > 0 {
        lemma_visit_alike(mask, w, h, s, f, g);
        lemma_visits_alike(
            mask,
            w,
            h,
            s,
            visit(mask, w, h, f),
            visit(mask, w, h, g),
            (limit - 1) as nat,
        );
    }
}

/// Pixel indices as mathematical integers.
pub open spec fn indices(s: Seq<usize>) -> Seq<int> {
    s.map_values(|p: usize| p as int)
}

/// The pixel `p` as a point.
pub open spec fn point_of(p: int, w: int) -> (i32, i32) {
    (col(p, w) as i32, row(p, w) as i32)
}

/// `left..=right` by `top..=bottom` is the bounding box of the component of `s`.
pub open spec fn is_extent(
    mask: Seq<bool>,
    w: int,
    s: int,
    left: int,
    right: int,
    top: int,
    bottom: int,
) -> bool {
    &&& forall|q: int| #[trigger]
        linked(mask, w, s, q) ==> left <= col(q, w) <= right && top <= row(q, w) <= bottom
    &&& exists|q: int| #[trigger] linked(mask, w, s, q) && col(q, w) == left
    &&& exists|q: int| #[trigger] linked(mask, w, s, q) && col(q, w) == right
    &&& exists|q: int| #[trigger] linked(mask, w, s, q) && row(q, w) == top
    &&& exists|q: int| #[trigger] linked(mask, w, s, q) && row(q, w) == bottom
}

/// Number of pixels in the bounding box of the component of `s`.
pub open spec fn box_area(mask: Seq<bool>, w: int, s: int) -> int {
    let (left, right, top, bottom) = choose|left: int, right: int, top: int, bottom: int|
        is_extent(mask, w, s, left, right, top, bottom);
    (right - left + 1) * (bottom - top + 1)
}

proof fn lemma_box_area(
    mask: Seq<bool>,
    w: int,
    s: int,
    left: int,
    right: int,
    top: int,
    bottom: int,
)
    requires
        is_extent(mask, w, s, left, right, top, bottom),
    ensures
        box_area(mask, w, s) == (right - left + 1) * (bottom - top + 1),
{
    let (l, r, t, b) = choose|l: int, r: int, t: int, b: int| is_extent(mask, w, s, l, r, t, b);
    assert(is_extent(mask, w, s, l, r, t, b));
    assert(l == left && r == right && t == top && b == bottom);
}

/// Marks pixel `q` as seen and queues it, if it is set and was not seen before.
fn push(edges: &[bool], visited: &mut Vec<bool>, stack: &mut Vec<usize>, q: usize)
    requires
        q < edges@.len(),
        old(visited)@.len() == edges@.len(),
    ensures
        (Frontier { seen: final(visited)@, waiting: indices(final(stack)@) }) == offer(
            edges@,
            (Frontier { seen: old(visited)@, waiting: indices(old(stack)@) }),
            true,
            q as int,
        ),
{
    if edges[q] && !visited[q] {
        visited[q] = true;
        stack.push(q);
        assert(indices(stack@) =~= indices(old(stack)@).push(q as int));
    }
}

/// Queues the neighbours of pixel `idx` that are set and were not seen before.
fn spread_from(
    edges: &[bool],
    w: usize,
    h: usize,
    visited: &mut Vec<bool>,
    stack: &mut Vec<usize>,
    idx: usize,
)
    requires
        0 < w,
        edges@.len() == w * h,
        old(visited)@.len() == edges@.len(),
        idx < edges@.len(),
    ensures
        (Frontier { seen: final(visited)@, waiting: indices(final(stack)@) }) == spread(
            edges@,
            w as int,
            h as int,
            (Frontier { seen: old(visited)@, waiting: indices(old(stack)@) }),
            idx as int,
        ),
{
    let n: usize = edges.len();
    proof {
        lemma_coordinates(idx as int, w as int, h as int);
        lemma_neighbours(idx as int, w as int, h as int);
    }
    let x: usize = idx % w;
    let y: usize = idx / w;
    let x0: bool = x > 0;
    let x1: bool = x + 1 < w;
    let y0: bool = y > 0;
    let y1: bool = y + 1 < h;
    if y0 {
        push(edges, visited, stack, idx - w);
        if x0 {
            push(edges, visited, stack, idx - w - 1);
        }
        if x1 {
            push(edges, visited, stack, idx - w + 1);
        }
    }
    if y1 {
        push(edges, visited, stack, idx + w);
        if x0 {
            push(edges, visited, stack, idx + w - 1);
        }
        if x1 {
            push(edges, visited, stack, idx + w + 1);
        }
    }
    if x0 {
        push(edges, visited, stack, idx - 1);
    }
    if x1 {
        push(edges, visited, stack, idx + 1);
    }
}

/// A component found by a flood fill.
struct Blob {
    points: Vec<(i32, i32)>,
    area: usize,
}

/// Collects the component of `start` and marks its pixels in `visited`.
fn flood(edges: &[bool], w: usize, h: usize, start: usize, visited: &mut Vec<bool>) -> (blob: Blob)
    requires
        0 < w,
        edges@.len() == w * h,
        old(visited)@.len() == edges@.len(),
        start < edges@.len(),
        edges@[start as int],
        !old(visited)@[start as int],
        is_closed(edges@, w as int, old(visited)@),
    ensures
        final(visited)@.len() == edges@.len(),
        forall|q: int|
            0 <= q < edges@.len() ==> (#[trigger] final(visited)@[q] <==> old(visited)@[q]
                || linked(edges@, w as int, start as int, q)),
        blob.points@ == flood_points(edges@, w as int, h as int, start as int),
        blob.points@.len() == component(edges@, w as int, start as int).len(),
        blob.area == box_area(edges@, w as int, start as int),
{
    let ghost mask: Seq<bool> = edges@;
    let ghost wi: int = w as int;
    let ghost hi: int = h as int;
    let ghost s: int = start as int;
    let ghost before: Seq<bool> = visited@;
    let ghost n: nat = mask.len();
    let total: usize = edges.len();
    visited[start] = true;
    let mut stack: Vec<usize> = Vec::new();
    let mut cur: Vec<(i32, i32)> = Vec::new();
    stack.push(start);
    let mut minx: usize = w;
    let mut maxx: usize = 0;
    let mut miny: usize = h;
    let mut maxy: usize = 0;
    let ghost mut done: Seq<int> = Seq::empty();
    let ghost first = Frontier { seen: visited@, waiting: seq![s] };
    proof {
        assert(indices(stack@) =~= seq![s]);
        assert(is_set(mask, s));
        lemma_linked_reflexive(mask, wi, s);
        assert(first.waiting[0] == s);
        assert(flooding(mask, wi, s, before, first, done));
        assert(done + visits(mask, wi, hi, first, n) =~= visits(mask, wi, hi, first, n));
    }
    while stack.len() > 0
        invariant
            0 < w,
            mask == edges@,
            mask.len() == w * h,
            mask.len() == n,
            n == total,
            wi == w,
            hi == h,
            visited@.len() == n,
            flooding(
                mask,
                wi,
                s,
                before,
                (Frontier { seen: visited@, waiting: indices(stack@) }),
                done,
            ),
            forall|p: int, q: int|
                #![trigger done.contains(p), is_set(mask, q)]
                done.contains(p) && is_set(mask, q) && near(p, q, wi) ==> visited@[q],
            done.len() <= n,
            done + visits(
                mask,
                wi,
                hi,
                (Frontier { seen: visited@, waiting: indices(stack@) }),
                (n - done.len()) as nat,
            ) == visits(mask, wi, hi, first, n),
            cur@ == done.map_values(|p: int| point_of(p, wi)),
            minx <= w,
            miny <= h,
            forall|p: int| #[trigger]
                done.contains(p) ==> minx <= col(p, wi) <= maxx && miny <= row(p, wi) <= maxy,
            done.len() == 0 ==> stack.len() > 0 && minx == w && miny == h && maxx == 0 && maxy == 0,
            done.len() > 0 ==> {
                &&& exists|p: int| #[trigger] done.contains(p) && col(p, wi) == minx
                &&& exists|p: int| #[trigger] done.contains(p) && col(p, wi) == maxx
                &&& exists|p: int| #[trigger] done.contains(p) && row(p, wi) == miny
                &&& exists|p: int| #[trigger] done.contains(p) && row(p, wi) == maxy
            },
        decreases n - done.len(),
    {
        let ghost f = Frontier { seen: visited@, waiting: indices(stack@) };
        let ghost old_done: Seq<int> = done;
        let idx: usize = stack.pop().unwrap();
        proof {
            assert(f.waiting.last() == idx as int);
            assert(indices(stack@) =~= f.waiting.drop_last());
            assert(f.waiting.contains(f.waiting[f.waiting.len() - 1]));
            lemma_coordinates(idx as int, wi, hi);
            lemma_neighbours(idx as int, wi, hi);
            lemma_visit(mask, wi, hi, s, before, f, done);
            done = done.push(idx as int);
            lemma_contains_push(old_done, idx as int);
            assert(flooding(mask, wi, s, before, visit(mask, wi, hi, f), done));
            lemma_distinct_bound(done, n as int);
        }
        let x: usize = idx % w;
        let y: usize = idx / w;
        cur.push((x as i32, y as i32));
        proof {
            assert(cur@ =~= done.map_values(|p: int| point_of(p, wi)));
        }
        if x < minx {
            minx = x;
        }
        if x > maxx {
            maxx = x;
        }
        if y < miny {
            miny = y;
        }
        if y > maxy {
            maxy = y;
        }
        spread_from(edges, w, h, visited, &mut stack, idx);
        proof {
            let g = Frontier { seen: visited@, waiting: indices(stack@) };
            assert(g == visit(mask, wi, hi, f));
            let rest: Seq<int> = visits(mask, wi, hi, g, (n - done.len()) as nat);
            assert(visits(mask, wi, hi, f, (n - old_done.len()) as nat) == seq![idx as int] + rest);
            assert(old_done + (seq![idx as int] + rest) =~= done + rest);
            assert forall|p: int, q: int|
                #![trigger done.contains(p), is_set(mask, q)]
                done.contains(p) && is_set(mask, q) && near(p, q, wi) implies visited@[q] by {
                assert(old_done.push(idx as int).contains(p) <==> old_done.contains(p) || p == idx);
                if p != idx {
                    assert(f.seen[q]);
                }
            }
            assert forall|p: int| #[trigger] done.contains(p) implies minx <= col(p, wi) <= maxx
                && miny <= row(p, wi) <= maxy by {
                assert(old_done.push(idx as int).contains(p) <==> old_done.contains(p) || p == idx);
            }
            assert(done.contains(idx as int));
            assert forall|p: int| old_done.contains(p) implies #[trigger] done.contains(p) by {
                assert(old_done.push(idx as int).contains(p));
            }
        }
    }
    proof {
        let comp = component(mask, wi, s);
        assert(indices(stack@).len() == 0);
        assert(done.contains(s));
        assert(visits(
            mask,
            wi,
            hi,
            (Frontier { seen: visited@, waiting: indices(stack@) }),
            (n - done.len()) as nat,
        ) =~= Seq::empty());
        assert(done =~= visits(mask, wi, hi, first, n));
        let closed: Set<int> = done.to_set();
        assert forall|q: int| linked(mask, wi, s, q) implies #[trigger] done.contains(q) by {
            assert forall|p: int, r: int|
                #![trigger closed.contains(p), is_set(mask, r)]
                closed.contains(p) && is_set(mask, r) && near(p, r, wi) implies closed.contains(
                r,
            ) by {
                assert(done.contains(p));
                assert(visited@[r]);
                if before[r] {
                    assert(is_set(before, r));
                    assert(linked(mask, wi, s, p));
                    lemma_linked_set(mask, wi, s, p);
                    assert(near(r, p, wi));
                    assert(is_set(before, p));
                }
            }
            lemma_closed_holds_linked(mask, wi, closed, s, q);
        }
        assert(done.to_set() =~= comp);
        done.unique_seq_to_set();
        assert forall|q: int| linked(mask, wi, s, q) implies !before[q] by {
            assert(done.contains(q));
        }
        let fresh = ignition(mask, s);
        assert(alike(mask, wi, s, first, fresh));
        lemma_visits_alike(mask, wi, hi, s, first, fresh, n);
        assert(done == flood_order(mask, wi, hi, s));
        assert forall|q: int| #[trigger] linked(mask, wi, s, q) implies minx <= col(q, wi) <= maxx
            && miny <= row(q, wi) <= maxy by {
            assert(done.contains(q));
        }
        let q0: int = choose|p: int| #[trigger] done.contains(p) && col(p, wi) == minx;
        let q1: int = choose|p: int| #[trigger] done.contains(p) && col(p, wi) == maxx;
        let q2: int = choose|p: int| #[trigger] done.contains(p) && row(p, wi) == miny;
        let q3: int = choose|p: int| #[trigger] done.contains(p) && row(p, wi) == maxy;
        assert(linked(mask, wi, s, q0) && linked(mask, wi, s, q1));
        assert(linked(mask, wi, s, q2) && linked(mask, wi, s, q3));
        assert(is_extent(mask, wi, s, minx as int, maxx as int, miny as int, maxy as int));
        lemma_box_area(mask, wi, s, minx as int, maxx as int, miny as int, maxy as int);
        lemma_coordinates(q1, wi, hi);
        lemma_coordinates(q3, wi, hi);
        assert((maxx - minx + 1) * (maxy - miny + 1) <= w * h) by (nonlinear_arith)
            requires
                0 <= minx <= maxx < w,
                0 <= miny <= maxy < h,
        ;
        assert((maxx - minx + 1) * (maxy - miny + 1) >= 0) by (nonlinear_arith)
            requires
                0 <= minx <= maxx < w,
                0 <= miny <= maxy < h,
        ;
    }
    let area: usize = (maxx - minx + 1) * (maxy - miny + 1);
    Blob { points: cur, area }
}

/// `s` is the first pixel of its component in scan order.
pub open spec fn is_root(mask: Seq<bool>, w: int, s: int) -> bool {
    is_set(mask, s) && forall|t: int| 0 <= t < s ==> !#[trigger] linked(mask, w, t, s)
}

/// `s` is the first pixel of a component of `min_px` pixels or more.
pub open spec fn is_candidate(mask: Seq<bool>, w: int, min_px: int, s: int) -> bool {
    is_root(mask, w, s) && component(mask, w, s).len() >= min_px
}

/// Among the candidates `s` has the largest bounding box; among those with the
/// largest it comes first in scan order.
pub open spec fn is_largest(mask: Seq<bool>, w: int, min_px: int, s: int) -> bool {
    &&& is_candidate(mask, w, min_px, s)
    &&& forall|t: int| #[trigger]
        is_candidate(mask, w, min_px, t) ==> box_area(mask, w, t) < box_area(mask, w, s) || (
        box_area(mask, w, t) == box_area(mask, w, s) && s <= t)
}

/// The first pixel of the component that is taken as the largest.
pub open spec fn largest(mask: Seq<bool>, w: int, min_px: int) -> int {
    choose|s: int| is_largest(mask, w, min_px, s)
}

/// The points of the component of `s`, in the order of a flood fill from it.
pub open spec fn flood_points(mask: Seq<bool>, w: int, h: int, s: int) -> Seq<(i32, i32)> {
    flood_order(mask, w, h, s).map_values(|p: int| point_of(p, w))
}

/// The points of the largest component of at least `min_px` pixels, if there is
/// one.
pub open spec fn largest_points(mask: Seq<bool>, w: int, h: int, min_px: int) -> Option<
    Seq<(i32, i32)>,
> {
    if exists|s: int| is_candidate(mask, w, min_px, s) {
        Some(flood_points(mask, w, h, largest(mask, w, min_px)))
    } else {
        None
    }
}

/// Some pixel before `limit` is linked to `q`.
spec fn reached(mask: Seq<bool>, w: int, limit: int, q: int) -> bool {
    exists|t: int| 0 <= t < limit && #[trigger] linked(mask, w, t, q)
}

proof fn lemma_reached_next(mask: Seq<bool>, w: int, limit: int, q: int)
    requires
        0 <= limit,
    ensures
        reached(mask, w, limit + 1, q) <==> reached(mask, w, limit, q) || linked(
            mask,
            w,
            limit,
            q,
        ),
{
    if reached(mask, w, limit, q) {
        let t: int = choose|t: int| 0 <= t < limit && #[trigger] linked(mask, w, t, q);
        assert(0 <= t < limit + 1 && linked(mask, w, t, q));
    }
}

/// Flood-fills every component of set pixels and returns the pixels of the one
/// with the largest bounding box, among those of at least `min_px` pixels. Of
/// several such components the first in scan order is taken. The points come
/// in the order in which the flood fill visits them.
pub fn largest_component_points(
    edges: &[bool],
    w: usize,
    h: usize,
    min_px: usize,
) -> (best: Option<Vec<(i32, i32)>>)
    requires
        w * h <= edges@.len(),
    ensures
        ({
            let mask = edges@.take(w * h);
            match largest_points(mask, w as int, h as int, min_px as int) {
                None => best is None,
                Some(expected) => best matches Some(points) && points@ == expected && is_largest(
                    mask,
                    w as int,
                    min_px as int,
                    largest(mask, w as int, min_px as int),
                ),
            }
        }),
{
    let total: usize = edges.len();
    assert(0 <= w * h) by (nonlinear_arith);
    let n: usize = w * h;
    let edges: &[bool] = vstd::slice::slice_subrange(edges, 0, n);
    let ghost mask: Seq<bool> = edges@;
    let ghost wi: int = w as int;
    let ghost hi: int = h as int;
    let ghost min: int = min_px as int;
    let mut visited: Vec<bool> = vec![false; n];
    let mut best: Option<Blob> = None;
    let ghost mut root: int = 0;
    let mut start: usize = 0;
    while start < n
        invariant
            mask == edges@,
            mask.len() == n,
            n == w * h,
            wi == w,
            hi == h,
            min == min_px,
            start <= n,
            visited@.len() == n,
            forall|q: int|
                0 <= q < n ==> (#[trigger] visited@[q] <==> reached(mask, wi, start as int, q)),
            best is None ==> forall|s: int|
                s < start ==> !#[trigger] is_candidate(mask, wi, min, s),
            best matches Some(blob) ==> {
                &&& root < start
                &&& is_candidate(mask, wi, min, root)
                &&& blob.area == box_area(mask, wi, root)
                &&& blob.points@ == flood_points(mask, wi, hi, root)
                &&& forall|t: int|
                    t < start && #[trigger] is_candidate(mask, wi, min, t) ==> box_area(mask, wi, t)
                        < blob.area || (box_area(mask, wi, t) == blob.area && root <= t)
            },
        decreases n - start,
    {
        let ghost s: int = start as int;
        let ghost earlier: Seq<bool> = visited@;
        proof {
            assert(0 < w) by (nonlinear_arith)
                requires
                    0 < n,
                    n == w * h,
            ;
        }
        if edges[start] && !visited[start] {
            proof {
                assert(is_closed(mask, wi, earlier)) by {
                    assert forall|p: int, q: int|
                        #![trigger is_set(earlier, p), is_set(mask, q)]
                        is_set(earlier, p) && is_set(mask, q) && near(p, q, wi) implies is_set(
                        earlier,
                        q,
                    ) by {
                        let t: int = choose|t: int|
                            0 <= t < s && #[trigger] linked(mask, wi, t, p);
                        lemma_linked_step(mask, wi, t, p, q);
                        assert(reached(mask, wi, s, q));
                        assert(earlier[q]);
                    }
                }
                assert(is_root(mask, wi, s)) by {
                    assert forall|t: int| 0 <= t < s implies !#[trigger] linked(
                        mask,
                        wi,
                        t,
                        s,
                    ) by {
                        if linked(mask, wi, t, s) {
                            assert(reached(mask, wi, s, s));
                        }
                    }
                }
            }
            let blob: Blob = flood(edges, w, h, start, &mut visited);
            if blob.points.len() >= min_px {
                let better: bool = match &best {
                    None => true,
                    Some(b) => b.area < blob.area,
                };
                if better {
                    best = Some(blob);
                    proof {
                        root = s;
                    }
                }
            }
        } else {
            proof {
                assert(!is_root(mask, wi, s)) by {
                    if is_set(mask, s) {
                        assert(reached(mask, wi, s, s));
                    }
                }
                assert forall|q: int| linked(mask, wi, s, q) implies reached(mask, wi, s, q) by {
                    lemma_linked_set(mask, wi, s, q);
                    let t: int = choose|t: int| 0 <= t < s && #[trigger] linked(mask, wi, t, s);
                    lemma_linked_transitive(mask, wi, t, s, q);
                }
            }
        }
        proof {
            assert forall|q: int| 0 <= q < n implies (#[trigger] visited@[q] <==> reached(
                mask,
                wi,
                s + 1,
                q,
            )) by {
                lemma_reached_next(mask, wi, s, q);
                assert(earlier[q] <==> reached(mask, wi, s, q));
            }
        }
        start = start + 1;
    }
    proof {
        assert forall|s: int| #[trigger] is_candidate(mask, wi, min, s) implies s < n by {
            assert(is_set(mask, s));
        }
    }
    match best {
        None => None,
        Some(blob) => {
            proof {
                assert(is_largest(mask, wi, min, root));
                let other: int = largest(mask, wi, min);
                assert(is_largest(mask, wi, min, other));
                assert(other == root);
            }
            Some(blob.points)
        },
    }
}

/// What a flood fill still visits, together with what it has visited, is the
/// component of its start.
proof fn lemma_visits_complete(
    mask: Seq<bool>,
    w: int,
    h: int,
    s: int,
    f: Frontier,
    done: Seq<int>,
    limit: nat,
)
    requires
        0 < w,
        mask.len() == w * h,
        is_set(mask, s),
        flooding(mask, w, s, Seq::new(mask.len(), |p: int| false), f, done),
        forall|p: int, q: int|
            #![trigger done.contains(p), is_set(mask, q)]
            done.contains(p) && is_set(mask, q) && near(p, q, w) ==> f.seen[q],
        done.len() + limit >= mask.len(),
    ensures
        ({
            let all = done + visits(mask, w, h, f, limit);
            &&& all.no_duplicates()
            &&& forall|q: int| all.contains(q) <==> linked(mask, w, s, q)
        }),
    decreases limit,
{
    let all: Seq<int> = done + visits(mask, w, h, f, limit);
    if f.waiting.len() == 0 {
        assert(all =~= done);
        let closed: Set<int> = Set::new(|q: int| done.contains(q));
        assert forall|q: int| linked(mask, w, s, q) implies all.contains(q) by {
            assert forall|a: int, b: int|
                closed.contains(a) && is_set(mask, b) && near(a, b, w) implies closed.contains(
                b,
            ) by {
                assert(f.seen[b]);
            }
            lemma_closed_holds_linked(mask, w, closed, s, q);
        }
    } else {
        let p: int = f.waiting.last();
        let g = visit(mask, w, h, f);
        let more: Seq<int> = done.push(p);
        let before: Seq<bool> = Seq::new(mask.len(), |p: int| false);
        lemma_visit(mask, w, h, s, before, f, done);
        lemma_contains_push(done, p);
        lemma_distinct_bound(more, mask.len() as int);
        assert forall|a: int, q: int|
            #![trigger more.contains(a), is_set(mask, q)]
            more.contains(a) && is_set(mask, q) && near(a, q, w) implies g.seen[q] by {
            assert(done.push(p).contains(a) <==> done.contains(a) || a == p);
            if done.contains(a) {
                assert(f.seen[q]);
            }
        }
        lemma_visits_complete(mask, w, h, s, g, more, (limit - 1) as nat);
        assert(more + visits(mask, w, h, g, (limit - 1) as nat) =~= all);
    }
}

/// A flood fill from a set pixel visits each pixel of its component once, and
/// no other.
pub proof fn flood_visits_the_component(mask: Seq<bool>, w: int, h: int, s: int)
    requires
        0 < w,
        mask.len() == w * h,
        is_set(mask, s),
    ensures
        flood_order(mask, w, h, s).no_duplicates(),
        flood_order(mask, w, h, s).to_set() == component(mask, w, s),
        flood_order(mask, w, h, s).len() == component(mask, w, s).len(),
{
    let f = ignition(mask, s);
    let done: Seq<int> = Seq::empty();
    let order: Seq<int> = flood_order(mask, w, h, s);
    assert(f.waiting[0] == s);
    lemma_linked_reflexive(mask, w, s);
    assert(flooding(mask, w, s, Seq::new(mask.len(), |p: int| false), f, done));
    lemma_visits_complete(mask, w, h, s, f, done, mask.len());
    assert(done + order =~= order);
    assert(order.to_set() =~= component(mask, w, s));
    order.unique_seq_to_set();
}

/// Components do not overlap: two that share a pixel are the same.
pub proof fn components_are_equal_or_disjoint(mask: Seq<bool>, w: int, a: int, b: int)
    ensures
        component(mask, w, a) == component(mask, w, b) || component(mask, w, a).disjoint(
            component(mask, w, b),
        ),
{
    if !component(mask, w, a).disjoint(component(mask, w, b)) {
        let c: int = choose|c: int|
            component(mask, w, a).contains(c) && component(mask, w, b).contains(c);
        lemma_linked_symmetric(mask, w, a, c);
        lemma_linked_symmetric(mask, w, b, c);
        lemma_linked_transitive(mask, w, a, c, b);
        lemma_linked_transitive(mask, w, b, c, a);
        assert forall|q: int| linked(mask, w, a, q) <==> linked(mask, w, b, q) by {
            if linked(mask, w, a, q) {
                lemma_linked_transitive(mask, w, b, a, q);
            }
            if linked(mask, w, b, q) {
                lemma_linked_transitive(mask, w, a, b, q);
            }
        }
        assert(component(mask, w, a) =~= component(mask, w, b));
    }
}

/// `s` comes first among the candidates before `limit`: by its bounding box,
/// then by scan order.
spec fn leads(mask: Seq<bool>, w: int, min_px: int, limit: int, s: int) -> bool {
    &&& is_candidate(mask, w, min_px, s)
    &&& forall|t: int| #[trigger]
        is_candidate(mask, w, min_px, t) && t < limit ==> box_area(mask, w, t) < box_area(
            mask,
            w,
            s,
        ) || (box_area(mask, w, t) == box_area(mask, w, s) && s <= t)
}

proof fn lemma_leader(mask: Seq<bool>, w: int, min_px: int, limit: int) -> (s: int)
    requires
        0 <= limit,
        exists|c: int| is_candidate(mask, w, min_px, c) && c < limit,
    ensures
        leads(mask, w, min_px, limit, s),
        s < limit,
    decreases limit,
{
    let last: int = limit - 1;
    if exists|c: int| is_candidate(mask, w, min_px, c) && c < last {
        let s: int = lemma_leader(mask, w, min_px, last);
        if is_candidate(mask, w, min_px, last) && box_area(mask, w, s) < box_area(mask, w, last) {
            last
        } else {
            s
        }
    } else {
        last
    }
}

/// Where some component is large enough, one of them is taken, and no more than
/// one.
pub proof fn one_component_is_largest(mask: Seq<bool>, w: int, min_px: int, c: int)
    requires
        is_candidate(mask, w, min_px, c),
    ensures
        is_largest(mask, w, min_px, largest(mask, w, min_px)),
        forall|s: int| #[trigger]
            is_largest(mask, w, min_px, s) ==> s == largest(mask, w, min_px),
{
    let s: int = lemma_leader(mask, w, min_px, mask.len() as int);
    assert(is_largest(mask, w, min_px, s));
}

/// The points of the largest component are pixels of the map, and they are set.
pub proof fn largest_points_are_set(mask: Seq<bool>, w: int, h: int, min_px: int, k: int)
    requires
        0 < w,
        mask.len() == w * h,
        largest_points(mask, w, h, min_px) matches Some(points) && 0 <= k < points.len(),
    ensures
        exists|q: int| #[trigger]
            is_set(mask, q) && largest_points(mask, w, h, min_px)->0[k] == point_of(q, w),
{
    let s: int = largest(mask, w, min_px);
    let order: Seq<int> = flood_order(mask, w, h, s);
    one_component_is_largest(
        mask,
        w,
        min_px,
        choose|c: int| is_candidate(mask, w, min_px, c),
    );
    flood_visits_the_component(mask, w, h, s);
    assert(order.to_set().contains(order[k]));
    assert(component(mask, w, s).contains(order[k]));
    lemma_linked_set(mask, w, s, order[k]);
    assert(is_set(mask, order[k]) && largest_points(mask, w, h, min_px)->0[k] == point_of(
        order[k],
        w,
    ));
}

/// `s` is set and no pixel before it in scan order is linked to it.
pub open spec fn comes_first(mask: Seq<bool>, w: int, s: int) -> bool {
    is_set(mask, s) && forall|t: int| 0 <= t < s ==> !#[trigger] linked(mask, w, t, s)
}

/// `left..=right` by `top..=bottom` is the smallest box around the pixels linked to
/// `s`.
pub open spec fn is_box(
    mask: Seq<bool>,
    w: int,
    s: int,
    left: int,
    right: int,
    top: int,
    bottom: int,
) -> bool {
    &&& forall|q: int| #[trigger]
        linked(mask, w, s, q) ==> left <= q % w <= right && top <= q / w <= bottom
    &&& exists|q: int| #[trigger] linked(mask, w, s, q) && q % w == left
    &&& exists|q: int| #[trigger] linked(mask, w, s, q) && q % w == right
    &&& exists|q: int| #[trigger] linked(mask, w, s, q) && q / w == top
    &&& exists|q: int| #[trigger] linked(mask, w, s, q) && q / w == bottom
}

/// `at` is the column and the row of a pixel that is linked to `s`.
pub open spec fn is_place_of(mask: Seq<bool>, w: int, s: int, at: (i32, i32)) -> bool {
    exists|q: int| #[trigger] linked(mask, w, s, q) && at == ((q % w) as i32, (q / w) as i32)
}

/// The points that are taken are those of one component of at least `min_px`
/// pixels, each of them once.
pub proof fn one_whole_component_is_taken(mask: Seq<bool>, w: int, h: int, min_px: int) -> (s: int)
    requires
        0 < w,
        mask.len() == w * h,
        largest_points(mask, w, h, min_px) is Some,
    ensures
        comes_first(mask, w, s),
        is_largest(mask, w, min_px, s),
        ({
            let points = largest_points(mask, w, h, min_px)->0;
            let all = Set::new(|q: int| linked(mask, w, s, q));
            &&& points.len() == all.len()
            &&& points.len() >= min_px
            &&& forall|k: int|
                0 <= k < points.len() ==> is_place_of(mask, w, s, #[trigger] points[k])
            &&& forall|q: int| #[trigger]
                linked(mask, w, s, q) ==> points.contains(((q % w) as i32, (q / w) as i32))
        }),
{
    let s: int = largest(mask, w, min_px);
    one_component_is_largest(mask, w, min_px, choose|c: int| is_candidate(mask, w, min_px, c));
    flood_visits_the_component(mask, w, h, s);
    let order: Seq<int> = flood_order(mask, w, h, s);
    let points: Seq<(i32, i32)> = largest_points(mask, w, h, min_px)->0;
    assert(Set::new(|q: int| linked(mask, w, s, q)) =~= component(mask, w, s));
    order.unique_seq_to_set();
    assert forall|k: int| 0 <= k < points.len() implies is_place_of(
        mask,
        w,
        s,
        #[trigger] points[k],
    ) by {
        assert(order.to_set().contains(order[k]));
        assert(component(mask, w, s).contains(order[k]));
        assert(linked(mask, w, s, order[k]));
    }
    assert forall|q: int| #[trigger] linked(mask, w, s, q) implies points.contains(
        ((q % w) as i32, (q / w) as i32),
    ) by {
        assert(component(mask, w, s).contains(q));
        assert(order.to_set().contains(q));
        let k: int = choose|k: int| 0 <= k < order.len() && order[k] == q;
        assert(points[k] == ((q % w) as i32, (q / w) as i32));
    }
    s
}

/// No component of at least `min_px` pixels has a larger box than the one that is
/// taken, and none that comes before it in scan order has a box as large.
pub proof fn no_larger_component_is_left(
    mask: Seq<bool>,
    w: int,
    h: int,
    min_px: int,
    s: int,
    other: int,
    a: (int, int, int, int),
    b: (int, int, int, int),
)
    requires
        is_largest(mask, w, min_px, s),
        comes_first(mask, w, other),
        Set::new(|q: int| linked(mask, w, other, q)).len() >= min_px,
        is_box(mask, w, s, a.0, a.1, a.2, a.3),
        is_box(mask, w, other, b.0, b.1, b.2, b.3),
    ensures
        ({
            let taken = (a.1 - a.0 + 1) * (a.3 - a.2 + 1);
            let left = (b.1 - b.0 + 1) * (b.3 - b.2 + 1);
            left < taken || (left == taken && s <= other)
        }),
{
    assert(Set::new(|q: int| linked(mask, w, other, q)) =~= component(mask, w, other));
    assert(is_candidate(mask, w, min_px, other));
    assert(is_extent(mask, w, s, a.0, a.1, a.2, a.3));
    assert(is_extent(mask, w, other, b.0, b.1, b.2, b.3));
    lemma_box_area(mask, w, s, a.0, a.1, a.2, a.3);
    lemma_box_area(mask, w, other, b.0, b.1, b.2, b.3);
}

/// Nothing is taken just where every component has fewer than `min_px` pixels.
pub proof fn nothing_is_taken_without_a_large_component(
    mask: Seq<bool>,
    w: int,
    h: int,
    min_px: int,
)
    ensures
        largest_points(mask, w, h, min_px) is None <==> forall|s: int| #[trigger]
            comes_first(mask, w, s) ==> Set::new(|q: int| linked(mask, w, s, q)).len() < min_px,
{
    assert forall|s: int|
        is_candidate(mask, w, min_px, s) == (#[trigger] comes_first(mask, w, s) && Set::new(
            |q: int| linked(mask, w, s, q),
        ).len() >= min_px) by {
        assert(Set::new(|q: int| linked(mask, w, s, q)) =~= component(mask, w, s));
    }
    if largest_points(mask, w, h, min_px) is None {
        assert forall|s: int| #[trigger] comes_first(mask, w, s) implies Set::new(
            |q: int| linked(mask, w, s, q),
        ).len() < min_px by {
            assert(!is_candidate(mask, w, min_px, s));
        }
    } else {
        let c: int = choose|c: int| is_candidate(mask, w, min_px, c);
        assert(comes_first(mask, w, c));
    }
}

} // verus!
