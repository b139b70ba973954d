//! Pixels of a row-major raster: coordinates, the 8-neighbourhood and
//! connectivity through the set pixels of a mask.

use vstd::arithmetic::div_mod::lemma_fundamental_div_mod;
use vstd::arithmetic::div_mod::lemma_fundamental_div_mod_converse;
use vstd::prelude::*;

verus! {

/// Column of pixel `p` in a raster `w` pixels wide.
pub open spec fn col(p: int, w: int) -> int {
    p % w
}

/// Row of pixel `p` in a raster `w` pixels wide.
pub open spec fn row(p: int, w: int) -> int {
    p / w
}

/// `q` lies in the 3x3 block of pixels centred on `p`.
pub open spec fn near(p: int, q: int, w: int) -> bool {
    &&& -1 <= col(q, w) - col(p, w) <= 1
    &&& -1 <= row(q, w) - row(p, w) <= 1
}

/// Pixel `p` exists and is set in `mask`.
pub open spec fn is_set(mask: Seq<bool>, p: int) -> bool {
    0 <= p < mask.len() && mask[p]
}

/// A walk over set pixels, each near the one before it.
pub open spec fn is_walk(mask: Seq<bool>, w: int, walk: Seq<int>) -> bool {
    &&& walk.len() > 0
    &&& forall|k: int| 0 <= k < walk.len() ==> is_set(mask, #[trigger] walk[k])
    &&& forall|k: int, l: int|
        0 <= k && l == k + 1 && l < walk.len() ==> near(#[trigger] walk[k], #[trigger] walk[l], w)
}

/// Some walk over set pixels of `mask` leads from `a` to `b`.
pub open spec fn linked(mask: Seq<bool>, w: int, a: int, b: int) -> bool {
    exists|walk: Seq<int>|
        #[trigger] is_walk(mask, w, walk) && walk[0] == a && walk[walk.len() - 1] == b
}

/// A raster with a pixel has a column.
pub proof fn lemma_width_positive(w: int, h: int)
    requires
        0 <= w,
        0 <= h,
        0 < w * h,
    ensures
        0 < w,
        0 < h,
{
    assert(0 < w && 0 < h) by (nonlinear_arith)
        requires
            0 <= w,
            0 <= h,
            0 < w * h,
    ;
}

/// The coordinates of a pixel of the raster.
pub proof fn lemma_coordinates(p: int, w: int, h: int)
    requires
        0 < w,
        0 <= p < w * h,
    ensures
        0 <= col(p, w) < w,
        0 <= row(p, w) < h,
        p == row(p, w) * w + col(p, w),
{
    lemma_fundamental_div_mod(p, w);
    let c: int = p % w;
    let r: int = p / w;
    assert(0 <= c < w) by (nonlinear_arith)
        requires
            0 < w,
            c == p % w,
    ;
    assert(p == r * w + c) by (nonlinear_arith)
        requires
            p == w * r + c,
    ;
    assert(0 <= r < h) by (nonlinear_arith)
        requires
            p == r * w + c,
            0 <= c < w,
            0 <= p < w * h,
    ;
}

/// The pixel at column `x` of row `y`.
pub proof fn lemma_pixel_at(x: int, y: int, w: int, h: int)
    requires
        0 <= x < w,
        0 <= y < h,
    ensures
        0 <= y * w + x < w * h,
        col(y * w + x, w) == x,
        row(y * w + x, w) == y,
{
    lemma_fundamental_div_mod_converse(y * w + x, w, y, x);
    assert(0 <= y * w + x < w * h) by (nonlinear_arith)
        requires
            0 <= x < w,
            0 <= y < h,
    ;
}

/// Moving by one step that stays inside the raster changes the coordinates by
/// that step.
pub proof fn lemma_step(p: int, w: int, h: int, dx: int, dy: int)
    requires
        0 < w,
        0 <= p < w * h,
        -1 <= dx <= 1,
        -1 <= dy <= 1,
        0 <= col(p, w) + dx < w,
        0 <= row(p, w) + dy < h,
    ensures
        0 <= p + dy * w + dx < w * h,
        col(p + dy * w + dx, w) == col(p, w) + dx,
        row(p + dy * w + dx, w) == row(p, w) + dy,
        near(p, p + dy * w + dx, w),
{
    lemma_coordinates(p, w, h);
    let x: int = col(p, w) + dx;
    let y: int = row(p, w) + dy;
    lemma_pixel_at(x, y, w, h);
    let r: int = row(p, w);
    assert((r + dy) * w == r * w + dy * w) by (nonlinear_arith);
}

/// Where the eight neighbours of `p` lie.
pub proof fn lemma_neighbours(p: int, w: int, h: int)
    requires
        0 < w,
        0 <= p < w * h,
    ensures
        ({
            let left = col(p, w) > 0;
            let right = col(p, w) + 1 < w;
            let up = row(p, w) > 0;
            let down = row(p, w) + 1 < h;
            &&& up ==> 0 <= p - w < w * h && near(p, p - w, w)
            &&& up && left ==> 0 <= p - w - 1 < w * h && near(p, p - w - 1, w)
            &&& up && right ==> 0 <= p - w + 1 < w * h && near(p, p - w + 1, w)
            &&& down ==> 0 <= p + w < w * h && near(p, p + w, w)
            &&& down && left ==> 0 <= p + w - 1 < w * h && near(p, p + w - 1, w)
            &&& down && right ==> 0 <= p + w + 1 < w * h && near(p, p + w + 1, w)
            &&& left ==> 0 <= p - 1 < w * h && near(p, p - 1, w)
            &&& right ==> 0 <= p + 1 < w * h && near(p, p + 1, w)
        }),
{
    lemma_coordinates(p, w, h);
    let left = col(p, w) > 0;
    let right = col(p, w) + 1 < w;
    let up = row(p, w) > 0;
    let down = row(p, w) + 1 < h;
    if up {
        lemma_step(p, w, h, 0, -1);
        if left {
            lemma_step(p, w, h, -1, -1);
        }
        if right {
            lemma_step(p, w, h, 1, -1);
        }
    }
    if down {
        lemma_step(p, w, h, 0, 1);
        if left {
            lemma_step(p, w, h, -1, 1);
        }
        if right {
            lemma_step(p, w, h, 1, 1);
        }
    }
    if left {
        lemma_step(p, w, h, -1, 0);
    }
    if right {
        lemma_step(p, w, h, 1, 0);
    }
    assert(0 * w == 0 && (-1) * w == -w && 1 * w == w);
}

/// A near pixel is reached by one step.
pub proof fn lemma_near_is_step(p: int, q: int, w: int, h: int)
    requires
        0 < w,
        0 <= p < w * h,
        0 <= q < w * h,
        near(p, q, w),
    ensures
        q == p + (row(q, w) - row(p, w)) * w + (col(q, w) - col(p, w)),
        -1 <= row(q, w) - row(p, w) <= 1,
        -1 <= col(q, w) - col(p, w) <= 1,
        0 <= col(q, w) < w,
        0 <= row(q, w) < h,
{
    lemma_coordinates(p, w, h);
    lemma_coordinates(q, w, h);
    let a: int = row(p, w);
    let b: int = row(q, w);
    assert((b - a) * w == b * w - a * w) by (nonlinear_arith);
}

/// Every set pixel is linked to itself.
pub proof fn lemma_linked_reflexive(mask: Seq<bool>, w: int, a: int)
    requires
        is_set(mask, a),
    ensures
        linked(mask, w, a, a),
{
    let walk: Seq<int> = seq![a];
    assert(is_walk(mask, w, walk));
}

/// Linked pixels are set.
pub proof fn lemma_linked_set(mask: Seq<bool>, w: int, a: int, b: int)
    requires
        linked(mask, w, a, b),
    ensures
        is_set(mask, a),
        is_set(mask, b),
{
    let walk: Seq<int> = choose|walk: Seq<int>| #[trigger]
        is_walk(mask, w, walk) && walk[0] == a && walk[walk.len() - 1] == b;
    assert(is_set(mask, walk[0]));
    assert(is_set(mask, walk[walk.len() - 1]));
}

/// A walk may be prolonged by one near set pixel.
pub proof fn lemma_linked_step(mask: Seq<bool>, w: int, a: int, b: int, c: int)
    requires
        linked(mask, w, a, b),
        is_set(mask, c),
        near(b, c, w),
    ensures
        linked(mask, w, a, c),
{
    let walk: Seq<int> = choose|walk: Seq<int>| #[trigger]
        is_walk(mask, w, walk) && walk[0] == a && walk[walk.len() - 1] == b;
    let longer: Seq<int> = walk.push(c);
    assert(is_walk(mask, w, longer)) by {
        assert forall|k: int| 0 <= k < longer.len() implies is_set(mask, #[trigger] longer[k]) by {
            if k < walk.len() {
                assert(longer[k] == walk[k]);
            }
        }
        assert forall|k: int, l: int| 0 <= k && l == k + 1 && l < longer.len() implies near(
            #[trigger] longer[k],
            #[trigger] longer[l],
            w,
        ) by {
            assert(longer[k] == walk[k]);
            if l < walk.len() {
                assert(longer[l] == walk[l]);
            }
        }
    }
    assert(longer[0] == a && longer[longer.len() - 1] == c);
}

/// Being linked is symmetric.
pub proof fn lemma_linked_symmetric(mask: Seq<bool>, w: int, a: int, b: int)
    requires
        linked(mask, w, a, b),
    ensures
        linked(mask, w, b, a),
{
    let walk: Seq<int> = choose|walk: Seq<int>| #[trigger]
        is_walk(mask, w, walk) && walk[0] == a && walk[walk.len() - 1] == b;
    let back: Seq<int> = walk.reverse();
    let n: int = walk.len() as int;
    assert(is_walk(mask, w, back)) by {
        assert forall|k: int| 0 <= k < back.len() implies is_set(mask, #[trigger] back[k]) by {
            assert(back[k] == walk[n - 1 - k]);
        }
        assert forall|k: int, l: int| 0 <= k && l == k + 1 && l < back.len() implies near(
            #[trigger] back[k],
            #[trigger] back[l],
            w,
        ) by {
            assert(back[k] == walk[n - 1 - k]);
            assert(back[l] == walk[n - 1 - l]);
            assert(near(walk[n - 1 - l], walk[n - 1 - k], w));
        }
    }
    assert(back[0] == b && back[back.len() - 1] == a);
}

/// Being linked is transitive.
pub proof fn lemma_linked_transitive(mask: Seq<bool>, w: int, a: int, b: int, c: int)
    requires
        linked(mask, w, a, b),
        linked(mask, w, b, c),
    ensures
        linked(mask, w, a, c),
{
    let walk: Seq<int> = choose|walk: Seq<int>| #[trigger]
        is_walk(mask, w, walk) && walk[0] == b && walk[walk.len() - 1] == c;
    lemma_linked_along(mask, w, a, walk, walk.len() - 1);
}

/// A pixel linked to the start of a walk is linked to each pixel of it.
proof fn lemma_linked_along(mask: Seq<bool>, w: int, a: int, walk: Seq<int>, k: int)
    requires
        is_walk(mask, w, walk),
        linked(mask, w, a, walk[0]),
        0 <= k < walk.len(),
    ensures
        linked(mask, w, a, walk[k]),
    decreases k,
{
    if k > 0 {
        lemma_linked_along(mask, w, a, walk, k - 1);
        assert(near(walk[k - 1], walk[k], w));
        lemma_linked_step(mask, w, a, walk[k - 1], walk[k]);
    }
}

/// A set of pixels that no step over set pixels leaves holds all that is
/// linked to a member.
pub proof fn lemma_closed_holds_linked(mask: Seq<bool>, w: int, closed: Set<int>, a: int, b: int)
    requires
        closed.contains(a),
        forall|p: int, q: int|
            #![trigger closed.contains(p), is_set(mask, q)]
            closed.contains(p) && is_set(mask, q) && near(p, q, w) ==> closed.contains(q),
        linked(mask, w, a, b),
    ensures
        closed.contains(b),
{
    let walk: Seq<int> = choose|walk: Seq<int>| #[trigger]
        is_walk(mask, w, walk) && walk[0] == a && walk[walk.len() - 1] == b;
    lemma_closed_along(mask, w, closed, walk, walk.len() - 1);
}

proof fn lemma_closed_along(mask: Seq<bool>, w: int, closed: Set<int>, walk: Seq<int>, k: int)
    requires
        is_walk(mask, w, walk),
        closed.contains(walk[0]),
        forall|p: int, q: int|
            #![trigger closed.contains(p), is_set(mask, q)]
            closed.contains(p) && is_set(mask, q) && near(p, q, w) ==> closed.contains(q),
        0 <= k < walk.len(),
    ensures
        closed.contains(walk[k]),
    decreases k,
{
    if k > 0 {
        lemma_closed_along(mask, w, closed, walk, k - 1);
        assert(near(walk[k - 1], walk[k], w));
        assert(is_set(mask, walk[k]));
    }
}

/// A set pixel is linked to itself and, with another, to each set pixel that lies
/// no more than one column and one row away from that.
pub proof fn links_go_on_to_neighbours(mask: Seq<bool>, w: int, a: int, b: int, c: int)
    requires
        0 <= a < mask.len() && mask[a],
        0 <= c < mask.len() && mask[c],
        -1 <= c % w - b % w <= 1,
        -1 <= c / w - b / w <= 1,
    ensures
        linked(mask, w, a, a),
        linked(mask, w, a, b) ==> linked(mask, w, a, c),
{
    lemma_linked_reflexive(mask, w, a);
    if linked(mask, w, a, b) {
        lemma_linked_step(mask, w, a, b, c);
    }
}

/// Pixels are linked in no other way: whatever holds of a pixel, and passes from
/// any set pixel to each set one no more than one column and one row away, holds of
/// all set pixels that are linked to it.
pub proof fn links_lead_over_neighbours_only(
    mask: Seq<bool>,
    w: int,
    a: int,
    b: int,
    holds: spec_fn(int) -> bool,
)
    requires
        linked(mask, w, a, b),
        holds(a),
        forall|p: int, q: int|
            #![trigger holds(p), holds(q)]
            0 <= p < mask.len() && mask[p] && 0 <= q < mask.len() && mask[q] && holds(p) && -1 <= q
                % w - p % w <= 1 && -1 <= q / w - p / w <= 1 ==> holds(q),
    ensures
        holds(b),
        0 <= b < mask.len() && mask[b],
{
    let walk: Seq<int> = choose|walk: Seq<int>| #[trigger]
        is_walk(mask, w, walk) && walk[0] == a && walk[walk.len() - 1] == b;
    assert(is_set(mask, walk[walk.len() - 1]));
    lemma_walk_holds(mask, w, walk, holds, walk.len() - 1);
}

proof fn lemma_walk_holds(
    mask: Seq<bool>,
    w: int,
    walk: Seq<int>,
    holds: spec_fn(int) -> bool,
    k: int,
)
    requires
        is_walk(mask, w, walk),
        0 <= k < walk.len(),
        holds(walk[0]),
        forall|p: int, q: int|
            #![trigger holds(p), holds(q)]
            0 <= p < mask.len() && mask[p] && 0 <= q < mask.len() && mask[q] && holds(p) && -1 <= q
                % w - p % w <= 1 && -1 <= q / w - p / w <= 1 ==> holds(q),
    ensures
        holds(walk[k]),
    decreases k,
{
    if k > 0 {
        lemma_walk_holds(mask, w, walk, holds, k - 1);
        let (p, q) = (walk[k - 1], walk[k]);
        assert(is_set(mask, p) && is_set(mask, q));
        assert(near(p, q, w));
        assert(holds(p));
        assert(holds(q) || !holds(q));
    }
}

} // verus!
