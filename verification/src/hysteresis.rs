//! Edge tracking: weak pixels are kept where they hang together with strong
//! ones.

use crate::grid::{
    is_set, lemma_closed_holds_linked, lemma_coordinates, lemma_linked_reflexive, lemma_linked_set,
    lemma_linked_step, lemma_near_is_step, lemma_neighbours, linked, near, row,
};
use vstd::prelude::*;

verus! {

/// Pixel `p` is linked to a strong pixel through kept pixels.
pub open spec fn is_anchored(kept: Seq<bool>, strong: Seq<bool>, w: int, p: int) -> bool {
    exists|s: int| is_set(strong, s) && #[trigger] linked(kept, w, s, p)
}

/// The pixels linked to a strong pixel through kept pixels.
pub open spec fn anchored(kept: Seq<bool>, strong: Seq<bool>, w: int) -> Seq<bool> {
    Seq::new(kept.len(), |p: int| is_anchored(kept, strong, w, p))
}

/// `stack` holds the pixel `p`.
spec fn holds(stack: Seq<usize>, p: int) -> bool {
    exists|k: int| 0 <= k < stack.len() && #[trigger] stack[k] == p
}

proof fn lemma_holds_push(stack: Seq<usize>, q: usize)
    ensures
        forall|p: int| holds(stack, p) ==> holds(stack.push(q), p),
        holds(stack.push(q), q as int),
{
    assert forall|p: int| holds(stack, p) implies holds(stack.push(q), p) by {
        let k: int = choose|k: int| 0 <= k < stack.len() && #[trigger] stack[k] == p;
        assert(stack.push(q)[k] == p);
    }
    assert(stack.push(q)[stack.len() as int] == q);
}

/// Every pixel on the stack is one that may be kept: it is kept and linked to a
/// strong pixel.
spec fn is_work(kept: Seq<bool>, strong: Seq<bool>, w: int, stack: Seq<usize>) -> bool {
    forall|k: int|
        0 <= k < stack.len() ==> is_set(kept, #[trigger] stack[k] as int) && is_anchored(
            kept,
            strong,
            w,
            stack[k] as int,
        )
}

/// Queues pixel `q` unless it is taken already or not kept.
fn push_kept(kept: &Vec<bool>, out: &Vec<bool>, stack: &mut Vec<usize>, q: usize)
    requires
        q < kept@.len(),
        out@.len() == kept@.len(),
    ensures
        final(stack)@ == old(stack)@ || final(stack)@ == old(stack)@.push(q),
        final(stack)@ == old(stack)@.push(q) ==> kept@[q as int],
        forall|p: int| holds(old(stack)@, p) ==> holds(final(stack)@, p),
        kept@[q as int] ==> out@[q as int] || holds(final(stack)@, q as int),
{
    if !out[q] && kept[q] {
        stack.push(q);
        proof {
            lemma_holds_push(old(stack)@, q);
        }
    } else {
        assert(old(stack)@.push(q).len() == old(stack)@.len() + 1);
    }
}

proof fn lemma_work_push(
    kept: Seq<bool>,
    strong: Seq<bool>,
    w: int,
    stack: Seq<usize>,
    p: int,
    q: usize,
)
    requires
        is_work(kept, strong, w, stack),
        is_anchored(kept, strong, w, p),
        is_set(kept, q as int),
        near(p, q as int, w),
    ensures
        is_work(kept, strong, w, stack.push(q)),
{
    let s: int = choose|s: int| is_set(strong, s) && #[trigger] linked(kept, w, s, p);
    lemma_linked_step(kept, w, s, p, q as int);
    assert(is_anchored(kept, strong, w, q as int));
}

/// Queues the kept neighbours of pixel `i` that are not taken yet.
fn push_neighbours(
    kept: &Vec<bool>,
    out: &Vec<bool>,
    w: usize,
    h: usize,
    stack: &mut Vec<usize>,
    i: usize,
    Ghost(strong): Ghost<Seq<bool>>,
)
    requires
        0 < w,
        kept@.len() == w * h,
        out@.len() == w * h,
        i < w * h,
        out@[i as int],
        is_anchored(kept@, strong, w as int, i as int),
        is_work(kept@, strong, w as int, old(stack)@),
    ensures
        is_work(kept@, strong, w as int, final(stack)@),
        forall|p: int| holds(old(stack)@, p) ==> holds(final(stack)@, p),
        forall|q: int| #[trigger]
            is_set(kept@, q) && near(i as int, q, w as int) ==> out@[q] || holds(final(stack)@, q),
{
    let n: usize = kept.len();
    let ghost wi: int = w as int;
    let ghost p: int = i as int;
    proof {
        lemma_coordinates(p, wi, h as int);
        lemma_neighbours(p, wi, h as int);
    }
    let x: usize = i % w;
    let y: usize = i / w;
    let left: bool = x > 0;
    let right: bool = x + 1 < w;
    let up: bool = y > 0;
    let down: bool = y + 1 < h;
    let ghost s0: Seq<usize> = stack@;
    if up && left {
        push_kept(kept, out, stack, i - w - 1);
        proof {
            if stack@ != s0 {
                lemma_work_push(kept@, strong, wi, s0, p, (i - w - 1) as usize);
            }
        }
    }
    let ghost s1: Seq<usize> = stack@;
    if up {
        push_kept(kept, out, stack, i - w);
        proof {
            if stack@ != s1 {
                lemma_work_push(kept@, strong, wi, s1, p, (i - w) as usize);
            }
        }
    }
    let ghost s2: Seq<usize> = stack@;
    if up && right {
        push_kept(kept, out, stack, i - w + 1);
        proof {
            if stack@ != s2 {
                lemma_work_push(kept@, strong, wi, s2, p, (i - w + 1) as usize);
            }
        }
    }
    let ghost s3: Seq<usize> = stack@;
    if left {
        push_kept(kept, out, stack, i - 1);
        proof {
            if stack@ != s3 {
                lemma_work_push(kept@, strong, wi, s3, p, (i - 1) as usize);
            }
        }
    }
    let ghost s4: Seq<usize> = stack@;
    if right {
        push_kept(kept, out, stack, i + 1);
        proof {
            if stack@ != s4 {
                lemma_work_push(kept@, strong, wi, s4, p, (i + 1) as usize);
            }
        }
    }
    let ghost s5: Seq<usize> = stack@;
    if down && left {
        push_kept(kept, out, stack, i + w - 1);
        proof {
            if stack@ != s5 {
                lemma_work_push(kept@, strong, wi, s5, p, (i + w - 1) as usize);
            }
        }
    }
    let ghost s6: Seq<usize> = stack@;
    if down {
        push_kept(kept, out, stack, i + w);
        proof {
            if stack@ != s6 {
                lemma_work_push(kept@, strong, wi, s6, p, (i + w) as usize);
            }
        }
    }
    let ghost s7: Seq<usize> = stack@;
    if down && right {
        push_kept(kept, out, stack, i + w + 1);
        proof {
            if stack@ != s7 {
                lemma_work_push(kept@, strong, wi, s7, p, (i + w + 1) as usize);
            }
        }
    }
    proof {
        assert forall|q: int| #[trigger] is_set(kept@, q) && near(p, q, wi) implies out@[q] || holds(
            stack@,
            q,
        ) by {
            lemma_near_is_step(p, q, wi, h as int);
            let dy: int = row(q, wi) - row(p, wi);
            assert(dy == -1 ==> dy * wi == -wi) by (nonlinear_arith);
            assert(dy == 0 ==> dy * wi == 0) by (nonlinear_arith);
            assert(dy == 1 ==> dy * wi == wi) by (nonlinear_arith);
        }
    }
}

/// Keeps the strong pixels and every kept pixel linked to a strong one.
pub fn hysteresis(kept: &Vec<bool>, strong: &Vec<bool>, w: usize, h: usize) -> (out: Vec<bool>)
    requires
        kept@.len() == w * h,
        strong@.len() == w * h,
        forall|p: int| 0 <= p < w * h && #[trigger] strong@[p] ==> kept@[p],
    ensures
        out@ == anchored(kept@, strong@, w as int),
{
    let n: usize = kept.len();
    let ghost wi: int = w as int;
    let mut stack: Vec<usize> = Vec::new();
    let mut i: usize = 0;
    while i < n
        invariant
            i <= n,
            n == kept@.len(),
            n == strong@.len(),
            wi == w,
            forall|p: int| 0 <= p < n && #[trigger] strong@[p] ==> kept@[p],
            is_work(kept@, strong@, wi, stack@),
            forall|p: int| 0 <= p < i && #[trigger] strong@[p] ==> holds(stack@, p),
        decreases n - i,
    {
        if strong[i] {
            let ghost before: Seq<usize> = stack@;
            stack.push(i);
            proof {
                lemma_holds_push(before, i);
                assert(is_set(kept@, i as int));
                lemma_linked_reflexive(kept@, wi, i as int);
                assert(is_set(strong@, i as int));
                assert(is_anchored(kept@, strong@, wi, i as int));
            }
        }
        i = i + 1;
    }
    let mut out: Vec<bool> = vec![false; n];
    let ghost mut taken: Set<int> = Set::empty();
    while stack.len() > 0
        invariant
            n == kept@.len(),
            n == strong@.len(),
            n == w * h,
            wi == w,
            out@.len() == n,
            is_work(kept@, strong@, wi, stack@),
            forall|p: int| 0 <= p < n && #[trigger] out@[p] ==> is_anchored(kept@, strong@, wi, p),
            forall|p: int| 0 <= p < n && #[trigger] strong@[p] ==> out@[p] || holds(stack@, p),
            forall|p: int, q: int|
                #![trigger out@[p], is_set(kept@, q)]
                0 <= p < n && out@[p] && is_set(kept@, q) && near(p, q, wi) ==> out@[q] || holds(
                    stack@,
                    q,
                ),
            taken.finite(),
            forall|p: int| #[trigger] taken.contains(p) <==> 0 <= p < n && out@[p],
            taken.len() <= n,
        decreases n - taken.len(), stack@.len(),
    {
        let ghost before: Seq<usize> = stack@;
        let ghost had: Seq<bool> = out@;
        let i: usize = stack.pop().unwrap();
        proof {
            assert(is_set(kept@, before[before.len() - 1] as int));
            assert forall|p: int| holds(before, p) && p != i implies holds(stack@, p) by {
                let k: int = choose|k: int| 0 <= k < before.len() && #[trigger] before[k] == p;
                assert(stack@[k] == p);
            }
            assert forall|k: int| 0 <= k < stack@.len() implies is_set(
                kept@,
                #[trigger] stack@[k] as int,
            ) && is_anchored(kept@, strong@, wi, stack@[k] as int) by {
                assert(stack@[k] == before[k]);
            }
            assert(is_anchored(kept@, strong@, wi, i as int));
            assert(0 < w) by (nonlinear_arith)
                requires
                    0 < n,
                    n == w * h,
            ;
        }
        if !out[i] {
            out[i] = true;
            push_neighbours(kept, &out, w, h, &mut stack, i, Ghost(strong@));
            proof {
                let more: Set<int> = taken.insert(i as int);
                assert forall|p: int| #[trigger] more.contains(p) <==> 0 <= p < n && out@[p] by {
                    assert(taken.contains(p) <==> 0 <= p < n && had[p]);
                }
                vstd::set_lib::lemma_int_range(0, n as int);
                assert(more.subset_of(vstd::set_lib::set_int_range(0, n as int)));
                vstd::set_lib::lemma_len_subset(more, vstd::set_lib::set_int_range(0, n as int));
                assert(!taken.contains(i as int));
                taken = more;
                assert forall|p: int, q: int|
                    #![trigger out@[p], is_set(kept@, q)]
                    0 <= p < n && out@[p] && is_set(kept@, q) && near(p, q, wi) implies out@[q]
                    || holds(stack@, q) by {
                    if p != i {
                        assert(had[p]);
                        assert(had[q] || holds(before, q));
                    }
                }
                assert forall|p: int| 0 <= p < n && #[trigger] strong@[p] implies out@[p] || holds(
                    stack@,
                    p,
                ) by {
                    assert(had[p] || holds(before, p));
                }
            }
        }
    }
    proof {
        assert forall|p: int| 0 <= p < n implies !holds(stack@, p) by {}
        assert forall|p: int| 0 <= p < n implies (out@[p] <==> is_anchored(
            kept@,
            strong@,
            wi,
            p,
        )) by {
            if is_anchored(kept@, strong@, wi, p) {
                let s: int = choose|s: int| is_set(strong@, s) && #[trigger] linked(kept@, wi, s, p);
                assert(strong@[s]);
                assert(taken.contains(s));
                assert forall|a: int, b: int|
                    #![trigger taken.contains(a), is_set(kept@, b)]
                    taken.contains(a) && is_set(kept@, b) && near(a, b, wi) implies taken.contains(
                    b,
                ) by {
                    assert(out@[a]);
                }
                lemma_closed_holds_linked(kept@, wi, taken, s, p);
            }
        }
        assert(out@ =~= anchored(kept@, strong@, wi));
    }
    out
}

/// Every strong pixel is kept; every pixel that is kept was a candidate.
pub proof fn anchoring_is_between(kept: Seq<bool>, strong: Seq<bool>, w: int)
    requires
        strong.len() == kept.len(),
        forall|p: int| is_set(strong, p) ==> #[trigger] is_set(kept, p),
    ensures
        forall|p: int| is_set(strong, p) ==> #[trigger] is_set(anchored(kept, strong, w), p),
        forall|p: int| #[trigger] is_set(anchored(kept, strong, w), p) ==> is_set(kept, p),
{
    let out: Seq<bool> = anchored(kept, strong, w);
    assert forall|p: int| is_set(strong, p) implies #[trigger] is_set(out, p) by {
        assert(is_set(kept, p));
        lemma_linked_reflexive(kept, w, p);
    }
    assert forall|p: int| #[trigger] is_set(out, p) implies is_set(kept, p) by {
        let s: int = choose|s: int| is_set(strong, s) && #[trigger] linked(kept, w, s, p);
        lemma_linked_set(kept, w, s, p);
    }
}

/// A candidate next to a kept pixel is kept too.
pub proof fn anchoring_spreads(kept: Seq<bool>, strong: Seq<bool>, w: int, p: int, q: int)
    requires
        is_set(anchored(kept, strong, w), p),
        is_set(kept, q),
        near(p, q, w),
    ensures
        is_set(anchored(kept, strong, w), q),
{
    let s: int = choose|s: int| is_set(strong, s) && #[trigger] linked(kept, w, s, p);
    lemma_linked_step(kept, w, s, p, q);
}

/// Without a strong pixel none is kept.
pub proof fn anchoring_needs_strength(kept: Seq<bool>, strong: Seq<bool>, w: int)
    requires
        forall|p: int| !#[trigger] is_set(strong, p),
    ensures
        forall|p: int| !#[trigger] is_set(anchored(kept, strong, w), p),
{
}

} // verus!
