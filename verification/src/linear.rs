//! Linear systems and the projective transform between two quadrilaterals.

use crate::number::{
    faithful, wide_diff, wide_prod, wide_quot, widen, Arithmetic, Double, WIDE_ONE, WIDE_ZERO,
};
use crate::polygon::Point;
use vstd::prelude::*;

verus! {

/// Bit pattern of 1e-12: a smaller pivot counts as zero.
pub const TINY_PIVOT: u64 = 0x3d71_9799_812d_ea11;

/// A linear system: one row of coefficients per equation, and the right sides.
pub struct System {
    pub rows: Seq<Seq<Double>>,
    pub rhs: Seq<Double>,
}

/// Among the rows from `col` up to `upto`, the first of those with the largest
/// coefficient in column `col`.
pub open spec fn pivot_row(rows: Seq<Seq<Double>>, col: int, upto: int) -> int
    decreases upto - col,
{
    if upto <= col + 1 {
        col
    } else {
        let p = pivot_row(rows, col, upto - 1);
        if rows[p][col].abs().less(rows[upto - 1][col].abs()) {
            upto - 1
        } else {
            p
        }
    }
}

/// The system with two equations exchanged.
pub open spec fn exchanged(s: System, i: int, j: int) -> System {
    System {
        rows: s.rows.update(i, s.rows[j]).update(j, s.rows[i]),
        rhs: s.rhs.update(i, s.rhs[j]).update(j, s.rhs[i]),
    }
}

/// The multiple of equation `col` that is taken from equation `r`.
pub open spec fn factor<A: Arithmetic>(s: System, col: int, r: int) -> Double {
    A::wide_quot_of(s.rows[r][col], s.rows[col][col])
}

/// A row less the `f`-fold of the pivot row, from column `col` on.
pub open spec fn reduced_row<A: Arithmetic>(
    row: Seq<Double>,
    pivot: Seq<Double>,
    f: Double,
    col: int,
) -> Seq<Double> {
    Seq::new(
        row.len(),
        |c: int|
            if c >= col {
                A::wide_diff_of(row[c], A::wide_prod_of(f, pivot[c]))
            } else {
                row[c]
            },
    )
}

/// Equation `r` takes part in the elimination of column `col`.
pub open spec fn takes_part<A: Arithmetic>(s: System, col: int, r: int) -> bool {
    r != col && !factor::<A>(s, col, r).equals(Double::of(WIDE_ZERO))
}

/// The system after column `col` was eliminated from all other equations.
pub open spec fn eliminated<A: Arithmetic>(s: System, col: int) -> System {
    System {
        rows: Seq::new(
            s.rows.len(),
            |r: int|
                if takes_part::<A>(s, col, r) {
                    reduced_row::<A>(s.rows[r], s.rows[col], factor::<A>(s, col, r), col)
                } else {
                    s.rows[r]
                },
        ),
        rhs: Seq::new(
            s.rhs.len(),
            |r: int|
                if takes_part::<A>(s, col, r) {
                    A::wide_diff_of(s.rhs[r], A::wide_prod_of(factor::<A>(s, col, r), s.rhs[col]))
                } else {
                    s.rhs[r]
                },
        ),
    }
}

/// Column `col` has no pivot.
pub open spec fn lacks_pivot(s: System, col: int) -> bool {
    let n = s.rows.len() as int;
    s.rows[pivot_row(s.rows, col, n)][col].abs().less(Double::of(TINY_PIVOT))
}

/// One step of the elimination: the pivot equation comes to its place and its
/// column is eliminated from the others.
pub open spec fn step<A: Arithmetic>(s: System, col: int) -> System {
    let n = s.rows.len() as int;
    eliminated::<A>(exchanged(s, col, pivot_row(s.rows, col, n)), col)
}

/// The system after the elimination of the columns from `col` on, and whether
/// each of them had a pivot. Where one has none the elimination stops.
pub open spec fn reduction<A: Arithmetic>(s: System, col: int, n: int) -> (System, bool)
    decreases n - col,
{
    if col >= n {
        (s, true)
    } else if lacks_pivot(s, col) {
        (s, false)
    } else {
        reduction::<A>(step::<A>(s, col), col + 1, n)
    }
}

/// The unknowns of a system in which each equation has one left.
pub open spec fn unknowns<A: Arithmetic>(s: System) -> Seq<Double> {
    Seq::new(s.rhs.len(), |i: int| A::wide_quot_of(s.rhs[i], s.rows[i][i]))
}

/// The solution of a system by Gaussian elimination with partial pivoting;
/// `None` if the matrix is singular.
pub open spec fn solution<A: Arithmetic>(s: System) -> Option<Seq<Double>> {
    let (end, regular) = reduction::<A>(s, 0, s.rows.len() as int);
    if regular {
        Some(unknowns::<A>(end))
    } else {
        None
    }
}

/// The system that two arrays hold.
pub open spec fn system_of<const N: usize>(a: Seq<[Double; N]>, b: Seq<Double>) -> System {
    System { rows: a.map_values(|row: [Double; N]| row@), rhs: b }
}

/// Finds the equation with the largest coefficient in column `col`.
fn find_pivot<const N: usize>(a: &[[Double; N]; N], col: usize) -> (piv: usize)
    requires
        col < N,
    ensures
        col <= piv < N,
        piv == pivot_row(system_of(a@, Seq::empty()).rows, col as int, N as int),
{
    let ghost rows: Seq<Seq<Double>> = system_of(a@, Seq::empty()).rows;
    let mut piv: usize = col;
    let mut r: usize = col + 1;
    while r < N
        invariant
            col < N,
            col + 1 <= r <= N,
            col <= piv < r,
            rows == system_of(a@, Seq::empty()).rows,
            piv == pivot_row(rows, col as int, r as int),
        decreases N - r,
    {
        assert(rows[r as int] == a@[r as int]@);
        assert(rows[piv as int] == a@[piv as int]@);
        if a[piv][col].abs().less(a[r][col].abs()) {
            piv = r;
        }
        r = r + 1;
    }
    piv
}

/// Takes the `f`-fold of the pivot row from a row, from column `col` on.
fn reduce_row<A: Arithmetic, const N: usize>(
    row: [Double; N],
    pivot: &[Double; N],
    f: Double,
    col: usize,
) -> (out: [Double; N])
    requires
        col < N,
    ensures
        faithful::<A>() ==> out@ == reduced_row::<A>(row@, pivot@, f, col as int),
{
    let mut out: [Double; N] = row;
    let mut c: usize = col;
    while c < N
        invariant
            col <= c <= N,
            forall|k: int| c <= k < N ==> #[trigger] out@[k] == row@[k],
            forall|k: int| 0 <= k < col ==> #[trigger] out@[k] == row@[k],
            faithful::<A>() ==> forall|k: int|
                col <= k < c ==> #[trigger] out@[k] == A::wide_diff_of(
                    row@[k],
                    A::wide_prod_of(f, pivot@[k]),
                ),
        decreases N - c,
    {
        let v: Double = wide_diff::<A>(row[c], wide_prod::<A>(f, pivot[c]));
        out[c] = v;
        c = c + 1;
    }
    assert(faithful::<A>() ==> out@ =~= reduced_row::<A>(row@, pivot@, f, col as int));
    out
}

/// Eliminates column `col` from all equations but the one with that index.
fn eliminate<A: Arithmetic, const N: usize>(
    a: &mut [[Double; N]; N],
    b: &mut [Double; N],
    col: usize,
)
    requires
        col < N,
    ensures
        faithful::<A>() ==> system_of(final(a)@, final(b)@) == eliminated::<A>(
            system_of(old(a)@, old(b)@),
            col as int,
        ),
{
    let ghost s: System = system_of(a@, b@);
    let ghost a0: Seq<[Double; N]> = a@;
    let ghost b0: Seq<Double> = b@;
    let ghost done: System = eliminated::<A>(s, col as int);
    let pivot: [Double; N] = a[col];
    let d: Double = pivot[col];
    let base: Double = b[col];
    let mut r: usize = 0;
    while r < N
        invariant
            r <= N,
            col < N,
            s == system_of(a0, b0),
            a0.len() == N,
            b0.len() == N,
            done == eliminated::<A>(s, col as int),
            pivot@ == a0[col as int]@,
            d == pivot@[col as int],
            base == b0[col as int],
            forall|k: int| r <= k < N ==> #[trigger] a@[k] == a0[k],
            forall|k: int| r <= k < N ==> #[trigger] b@[k] == b0[k],
            faithful::<A>() ==> forall|k: int|
                0 <= k < r ==> (#[trigger] a@[k])@ == done.rows[k],
            faithful::<A>() ==> forall|k: int| 0 <= k < r ==> #[trigger] b@[k] == done.rhs[k],
        decreases N - r,
    {
        proof {
            assert(s.rows[r as int] == a0[r as int]@);
            assert(s.rows[col as int] == a0[col as int]@);
            assert(a@[r as int] == a0[r as int]);
        }
        if r != col {
            let row: [Double; N] = a[r];
            let f: Double = wide_quot::<A>(row[col], d);
            if !f.equals(Double::of(WIDE_ZERO)) {
                let less: [Double; N] = reduce_row::<A, N>(row, &pivot, f, col);
                a[r] = less;
                let rest: Double = wide_diff::<A>(b[r], wide_prod::<A>(f, base));
                b[r] = rest;
            }
        }
        r = r + 1;
    }
    proof {
        if faithful::<A>() {
            let end: System = system_of(a@, b@);
            assert forall|k: int| 0 <= k < N implies end.rows[k] == done.rows[k] by {
                assert(a@[k]@ == done.rows[k]);
            }
            assert(end.rows =~= done.rows);
            assert(end.rhs =~= done.rhs);
        }
    }
}

/// Solves the linear system `a x = b` by Gaussian elimination with partial
/// pivoting; `None` if the matrix is singular. The arrays are left as the
/// elimination leaves them.
pub fn solve_linear<A: Arithmetic, const N: usize>(
    a: &mut [[Double; N]; N],
    b: &mut [Double; N],
) -> (x: Option<[Double; N]>)
    ensures
        faithful::<A>() ==> {
            let s = system_of(old(a)@, old(b)@);
            &&& system_of(final(a)@, final(b)@) == reduction::<A>(s, 0, N as int).0
            &&& match solution::<A>(s) {
                None => x is None,
                Some(values) => x matches Some(x) && x@ == values,
            }
        },
{
    let ghost s: System = system_of(a@, b@);
    let ghost n: int = N as int;
    let mut col: usize = 0;
    while col < N
        invariant
            col <= N,
            n == N,
            s == system_of(old(a)@, old(b)@),
            s.rows.len() == N,
            faithful::<A>() ==> reduction::<A>(s, 0, n) == reduction::<A>(
                system_of(a@, b@),
                col as int,
                n,
            ),
        decreases N - col,
    {
        let ghost now: System = system_of(a@, b@);
        let ghost a0: Seq<[Double; N]> = a@;
        let ghost b0: Seq<Double> = b@;
        let piv: usize = find_pivot::<N>(a, col);
        proof {
            assert(now.rows == system_of(a@, Seq::empty()).rows);
            assert(now.rows[piv as int] == a@[piv as int]@);
        }
        if a[piv][col].abs().less(Double::of(TINY_PIVOT)) {
            proof {
                assert(now.rows.len() == n);
                assert(lacks_pivot(now, col as int));
                assert(reduction::<A>(now, col as int, n) == (now, false));
            }
            return None;
        }
        let row: [Double; N] = a[col];
        a[col] = a[piv];
        a[piv] = row;
        let side: Double = b[col];
        b[col] = b[piv];
        b[piv] = side;
        proof {
            let moved: System = system_of(a@, b@);
            let want: System = exchanged(now, col as int, piv as int);
            assert(moved.rows =~= want.rows) by {
                assert forall|k: int| 0 <= k < N implies moved.rows[k] == want.rows[k] by {
                    assert(moved.rows[k] == a@[k]@);
                    assert(now.rows[k] == a0[k]@);
                }
            }
            assert(moved.rhs =~= want.rhs);
        }
        eliminate::<A, N>(a, b, col);
        col = col + 1;
    }
    let mut x: [Double; N] = *b;
    let mut i: usize = 0;
    while i < N
        invariant
            i <= N,
            forall|k: int| i <= k < N ==> #[trigger] x@[k] == b@[k],
            faithful::<A>() ==> forall|k: int|
                0 <= k < i ==> #[trigger] x@[k] == A::wide_quot_of(b@[k], a@[k]@[k]),
        decreases N - i,
    {
        let v: Double = wide_quot::<A>(b[i], a[i][i]);
        x[i] = v;
        i = i + 1;
    }
    proof {
        if faithful::<A>() {
            let end: System = system_of(a@, b@);
            assert forall|k: int| 0 <= k < N implies x@[k] == unknowns::<A>(end)[k] by {
                assert(end.rows[k] == a@[k]@);
            }
            assert(x@ =~= unknowns::<A>(end));
        }
    }
    Some(x)
}

/// Coefficients of the two equations that say that the transform takes
/// `(x, y)` to `(u, v)`: that for `u` if `first`, else that for `v`.
pub open spec fn equation<A: Arithmetic>(from: Point, to: Point, first: bool) -> Seq<Double> {
    let zero = Double::of(WIDE_ZERO);
    let one = Double::of(WIDE_ONE);
    let x = A::widen_of(from.0);
    let y = A::widen_of(from.1);
    let t = if first {
        A::widen_of(to.0)
    } else {
        A::widen_of(to.1)
    };
    let px = A::wide_prod_of(x.negated(), t);
    let py = A::wide_prod_of(y.negated(), t);
    if first {
        seq![x, y, one, zero, zero, zero, px, py]
    } else {
        seq![zero, zero, zero, x, y, one, px, py]
    }
}

/// The system for the transform that takes each `from[i]` to `to[i]`.
pub open spec fn transform_system<A: Arithmetic>(from: Seq<Point>, to: Seq<Point>) -> System {
    System {
        rows: Seq::new(8, |k: int| equation::<A>(from[k / 2], to[k / 2], k % 2 == 0)),
        rhs: Seq::new(
            8,
            |k: int|
                if k % 2 == 0 {
                    A::widen_of(to[k / 2].0)
                } else {
                    A::widen_of(to[k / 2].1)
                },
        ),
    }
}

/// The eight free parameters of the projective transform that takes each
/// `from[i]` to `to[i]`; `None` if there is no such transform.
pub open spec fn transform<A: Arithmetic>(from: Seq<Point>, to: Seq<Point>) -> Option<Seq<Double>> {
    solution::<A>(transform_system::<A>(from, to))
}

/// 3x3 projective transform mapping each `from[i]` to `to[i]`, returned as the
/// eight free parameters (the ninth is fixed at 1).
pub fn homography<A: Arithmetic>(from: &[Point; 4], to: &[Point; 4]) -> (h: Option<[Double; 8]>)
    ensures
        faithful::<A>() ==> match transform::<A>(from@, to@) {
            None => h is None,
            Some(values) => h matches Some(h) && h@ == values,
        },
{
    let zero: Double = Double::of(WIDE_ZERO);
    let one: Double = Double::of(WIDE_ONE);
    let mut m: [[Double; 8]; 8] = [[zero; 8]; 8];
    let mut r: [Double; 8] = [zero; 8];
    let mut i: usize = 0;
    let ghost want: System = transform_system::<A>(from@, to@);
    while i < 4
        invariant
            i <= 4,
            zero == Double::of(WIDE_ZERO),
            one == Double::of(WIDE_ONE),
            want == transform_system::<A>(from@, to@),
            faithful::<A>() ==> forall|k: int|
                0 <= k < 2 * i ==> (#[trigger] m@[k])@ == want.rows[k],
            faithful::<A>() ==> forall|k: int| 0 <= k < 2 * i ==> #[trigger] r@[k] == want.rhs[k],
        decreases 4 - i,
    {
        let x: Double = widen::<A>(from[i].0);
        let y: Double = widen::<A>(from[i].1);
        let u: Double = widen::<A>(to[i].0);
        let v: Double = widen::<A>(to[i].1);
        let xu: Double = wide_prod::<A>(x.negated(), u);
        let yu: Double = wide_prod::<A>(y.negated(), u);
        let xv: Double = wide_prod::<A>(x.negated(), v);
        let yv: Double = wide_prod::<A>(y.negated(), v);
        let first: [Double; 8] = [x, y, one, zero, zero, zero, xu, yu];
        let second: [Double; 8] = [zero, zero, zero, x, y, one, xv, yv];
        m[i * 2] = first;
        r[i * 2] = u;
        m[i * 2 + 1] = second;
        r[i * 2 + 1] = v;
        proof {
            if faithful::<A>() {
                assert((2 * i) / 2 == i && (2 * i + 1) / 2 == i);
                assert(first@ =~= equation::<A>(from@[i as int], to@[i as int], true));
                assert(second@ =~= equation::<A>(from@[i as int], to@[i as int], false));
                assert(want.rows[2 * i] == first@);
                assert(want.rows[2 * i + 1] == second@);
            }
        }
        i = i + 1;
    }
    proof {
        if faithful::<A>() {
            let have: System = system_of(m@, r@);
            assert forall|k: int| 0 <= k < 8 implies have.rows[k] == want.rows[k] by {
                assert(m@[k]@ == want.rows[k]);
            }
            assert(have.rows =~= want.rows);
            assert(have.rhs =~= want.rhs);
        }
    }
    solve_linear::<A, 8>(&mut m, &mut r)
}

/// The pivot equation is one of those searched.
pub proof fn lemma_pivot_range(rows: Seq<Seq<Double>>, col: int, upto: int)
    requires
        col < upto,
    ensures
        col <= pivot_row(rows, col, upto) < upto,
    decreases upto - col,
{
    if upto > col + 1 {
        lemma_pivot_range(rows, col, upto - 1);
    }
}

/// Of the coefficients that are numbers, none of those in column `col` from its
/// diagonal down is larger in size than that of the pivot.
pub proof fn the_pivot_is_the_largest(rows: Seq<Seq<Double>>, col: int, n: int, r: int)
    requires
        col <= r < n,
        forall|k: int| col <= k < n ==> !(#[trigger] rows[k])[col].is_nan(),
    ensures
        col <= pivot_row(rows, col, n) < n,
        !rows[pivot_row(rows, col, n)][col].abs().less(rows[r][col].abs()),
        r < pivot_row(rows, col, n) ==> rows[r][col].abs().less(
            rows[pivot_row(rows, col, n)][col].abs(),
        ),
    decreases n - col,
{
    assert(!rows[r][col].is_nan());
    if n > col + 1 {
        let p: int = pivot_row(rows, col, n - 1);
        the_pivot_is_the_largest(
            rows,
            col,
            n - 1,
            if r < n - 1 {
                r
            } else {
                col
            },
        );
        assert(!rows[p][col].is_nan());
        assert(!rows[n - 1][col].is_nan());
    }
}

/// One step of the elimination: the pivot equation changes places with equation
/// `col`, and from each other equation it is taken as often as clears its
/// coefficient in that column, on both sides.
pub proof fn a_step_takes_the_pivot_equation_away<A: Arithmetic>(
    s: System,
    col: int,
    r: int,
    c: int,
)
    requires
        s.rhs.len() == s.rows.len(),
        forall|k: int| 0 <= k < s.rows.len() ==> (#[trigger] s.rows[k]).len() == s.rows.len(),
        0 <= col < s.rows.len(),
        0 <= r < s.rows.len(),
        col <= c < s.rows.len(),
        col <= pivot_row(s.rows, col, s.rows.len() as int) < s.rows.len(),
    ensures
        ({
            let p = pivot_row(s.rows, col, s.rows.len() as int);
            let q = if r == p {
                col
            } else {
                r
            };
            let after = step::<A>(s, col);
            let f = A::wide_quot_of(s.rows[q][col], s.rows[p][col]);
            &&& after.rows.len() == s.rows.len()
            &&& after.rhs.len() == s.rhs.len()
            &&& r == col ==> after.rows[r] == s.rows[p] && after.rhs[r] == s.rhs[p]
            &&& r != col && f.equals(Double::of(0)) ==> after.rows[r] == s.rows[q] && after.rhs[r]
                == s.rhs[q]
            &&& r != col && !f.equals(Double::of(0)) ==> after.rows[r][c] == A::wide_diff_of(
                s.rows[q][c],
                A::wide_prod_of(f, s.rows[p][c]),
            )
            &&& r != col && !f.equals(Double::of(0)) ==> after.rhs[r] == A::wide_diff_of(
                s.rhs[q],
                A::wide_prod_of(f, s.rhs[p]),
            )
        }),
{
    let p: int = pivot_row(s.rows, col, s.rows.len() as int);
    let t: System = exchanged(s, col, p);
    assert(t.rows[r].len() == s.rows.len());
}

/// The system after the first `k` steps of the elimination.
pub open spec fn after_steps<A: Arithmetic>(s: System, k: int) -> System
    decreases k,
{
    if k <= 0 {
        s
    } else {
        step::<A>(after_steps::<A>(s, k - 1), k - 1)
    }
}

proof fn lemma_reduction_steps<A: Arithmetic>(s: System, k: int, n: int) -> (e: int)
    requires
        0 <= k <= n,
        s.rows.len() == n,
        s.rhs.len() == n,
    ensures
        k <= e <= n,
        forall|j: int| k <= j < e ==> !lacks_pivot(#[trigger] after_steps::<A>(s, j), j),
        e < n ==> lacks_pivot(after_steps::<A>(s, e), e),
        reduction::<A>(after_steps::<A>(s, k), k, n) == (after_steps::<A>(s, e), e == n),
    decreases n - k,
{
    let t: System = after_steps::<A>(s, k);
    lemma_steps_keep_size::<A>(s, k);
    if k >= n || lacks_pivot(t, k) {
        k
    } else {
        assert(after_steps::<A>(s, k + 1) == step::<A>(t, k));
        lemma_reduction_steps::<A>(s, k + 1, n)
    }
}

/// A system has a solution just where each step finds a coefficient that is not
/// below 1e-12 in size; the unknowns are then the right sides over the coefficients
/// that are left.
pub proof fn a_solution_needs_pivots<A: Arithmetic>(s: System)
    requires
        s.rhs.len() == s.rows.len(),
    ensures
        ({
            let n = s.rows.len() as int;
            let end = after_steps::<A>(s, n);
            &&& solution::<A>(s) is Some <==> forall|k: int|
                0 <= k < n ==> !(#[trigger] after_steps::<A>(s, k)).rows[pivot_row(
                    after_steps::<A>(s, k).rows,
                    k,
                    n,
                )][k].abs().less(Double::of(0x3d71_9799_812d_ea11))
            &&& solution::<A>(s) matches Some(x) ==> x.len() == n && forall|i: int|
                0 <= i < n ==> #[trigger] x[i] == A::wide_quot_of(end.rhs[i], end.rows[i][i])
        }),
{
    let n: int = s.rows.len() as int;
    assert(after_steps::<A>(s, 0) == s);
    lemma_steps_keep_size::<A>(s, n);
    assert forall|k: int| 0 <= k <= n implies (#[trigger] after_steps::<A>(s, k)).rows.len() == n
        && after_steps::<A>(s, k).rhs.len() == n by {
        lemma_steps_keep_size::<A>(s, k);
    }
    let e: int = lemma_reduction_steps::<A>(s, 0, n);
    assert(after_steps::<A>(s, e).rows.len() == n);
}

proof fn lemma_steps_keep_size<A: Arithmetic>(s: System, k: int)
    requires
        s.rhs.len() == s.rows.len(),
        k <= s.rows.len(),
    ensures
        after_steps::<A>(s, k).rows.len() == s.rows.len(),
        after_steps::<A>(s, k).rhs.len() == s.rhs.len(),
    decreases k,
{
    if k > 0 {
        lemma_steps_keep_size::<A>(s, k - 1);
        lemma_pivot_range(after_steps::<A>(s, k - 1).rows, k - 1, s.rows.len() as int);
    }
}

/// The unknowns of the transform are to satisfy, for each pair of points `(x, y)`
/// and `(u, v)`, that `a x + b y + c` is `u (g x + h y + 1)` and `d x + e y + f` is
/// `v (g x + h y + 1)`.
pub proof fn each_pair_gives_two_equations<A: Arithmetic>(from: Seq<Point>, to: Seq<Point>, i: int)
    requires
        0 <= i < 4,
    ensures
        ({
            let s = transform_system::<A>(from, to);
            let (x, y) = (A::widen_of(from[i].0), A::widen_of(from[i].1));
            let (u, v) = (A::widen_of(to[i].0), A::widen_of(to[i].1));
            let (one, zero) = (Double::of(0x3ff0_0000_0000_0000), Double::of(0));
            &&& transform::<A>(from, to) == solution::<A>(s)
            &&& s.rows.len() == 8 && s.rhs.len() == 8
            &&& s.rows[2 * i] == seq![
                x,
                y,
                one,
                zero,
                zero,
                zero,
                A::wide_prod_of(x.negated(), u),
                A::wide_prod_of(y.negated(), u),
            ]
            &&& s.rhs[2 * i] == u
            &&& s.rows[2 * i + 1] == seq![
                zero,
                zero,
                zero,
                x,
                y,
                one,
                A::wide_prod_of(x.negated(), v),
                A::wide_prod_of(y.negated(), v),
            ]
            &&& s.rhs[2 * i + 1] == v
        }),
{
    let s: System = transform_system::<A>(from, to);
    assert(s.rows[2 * i] == equation::<A>(from[i], to[i], true));
    assert(s.rows[2 * i + 1] == equation::<A>(from[i], to[i], false));
}

} // verus!
