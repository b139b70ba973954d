//! What the elimination and the transform give where no step of them rounds.
//!
//! A valuation says which real number a bit pattern stands for. A step is exact
//! if the value of its result is that of the real operation on the values of its
//! operands.

use crate::linear::{
    eliminated, equation, exchanged, factor, lacks_pivot, lemma_pivot_range, pivot_row, reduction,
    solution, step, takes_part, transform, transform_system, unknowns, System,
};
use crate::number::{Arithmetic, Double, WIDE_ONE, WIDE_ZERO};
use crate::polygon::Point;
use crate::rectify::{image_corners, row_value};
use vstd::prelude::*;

verus! {

/// The sum of the first `k` products of coefficients and unknowns.
pub open spec fn dot(
    val: spec_fn(Double) -> real,
    row: Seq<Double>,
    x: Seq<Double>,
    k: int,
) -> real
    decreases k,
{
    if k <= 0 {
        0real
    } else {
        dot(val, row, x, k - 1) + val(row[k - 1]) * val(x[k - 1])
    }
}

/// `x` solves equation `r` of the system.
pub open spec fn solves(val: spec_fn(Double) -> real, s: System, x: Seq<Double>, r: int) -> bool {
    dot(val, s.rows[r], x, s.rows.len() as int) == val(s.rhs[r])
}

/// The system has as many equations as unknowns.
pub open spec fn is_square(s: System) -> bool {
    &&& s.rhs.len() == s.rows.len()
    &&& forall|r: int| 0 <= r < s.rows.len() ==> (#[trigger] s.rows[r]).len() == s.rows.len()
}

/// Both patterns of zero stand for 0, and that of one for 1.
pub open spec fn has_units(val: spec_fn(Double) -> real) -> bool {
    &&& forall|d: Double| #[trigger] d.equals(Double::of(WIDE_ZERO)) ==> val(d) == 0real
    &&& val(Double::of(WIDE_ONE)) == 1real
}

/// No operation rounds when column `col` is eliminated from equation `r`.
pub open spec fn row_is_exact<A: Arithmetic>(
    val: spec_fn(Double) -> real,
    s: System,
    col: int,
    r: int,
) -> bool {
    let f = factor::<A>(s, col, r);
    let e = eliminated::<A>(s, col);
    &&& val(f) * val(s.rows[col][col]) == val(s.rows[r][col])
    &&& takes_part::<A>(s, col, r) ==> val(e.rhs[r]) == val(s.rhs[r]) - val(f) * val(s.rhs[col])
    &&& takes_part::<A>(s, col, r) ==> forall|c: int|
        col <= c < s.rows.len() ==> val(#[trigger] e.rows[r][c]) == val(s.rows[r][c]) - val(f)
            * val(s.rows[col][c])
}

/// The system before column `col` is eliminated, its pivot equation in place.
pub open spec fn pivoted(s: System, col: int) -> System {
    exchanged(s, col, pivot_row(s.rows, col, s.rows.len() as int))
}

/// No operation rounds in the elimination of the columns from `col` on.
pub open spec fn reduction_is_exact<A: Arithmetic>(
    val: spec_fn(Double) -> real,
    s: System,
    col: int,
    n: int,
) -> bool
    decreases n - col,
{
    if col >= n || lacks_pivot(s, col) {
        true
    } else {
        &&& forall|r: int|
            0 <= r < n && r != col ==> #[trigger] row_is_exact::<A>(val, pivoted(s, col), col, r)
        &&& reduction_is_exact::<A>(val, step::<A>(s, col), col + 1, n)
    }
}

/// No operation rounds in the solution of the system.
pub open spec fn solution_is_exact<A: Arithmetic>(val: spec_fn(Double) -> real, s: System) -> bool {
    let n = s.rows.len() as int;
    let end = reduction::<A>(s, 0, n).0;
    &&& reduction_is_exact::<A>(val, s, 0, n)
    &&& forall|i: int|
        0 <= i < n ==> val(#[trigger] unknowns::<A>(end)[i]) * val(end.rows[i][i]) == val(
            end.rhs[i],
        )
}

/// The columns before `col` hold nothing off the diagonal.
spec fn is_cleared(val: spec_fn(Double) -> real, s: System, col: int) -> bool {
    forall|r: int, c: int|
        #![trigger s.rows[r][c]]
        0 <= r < s.rows.len() && 0 <= c < col && r != c ==> val(s.rows[r][c]) == 0real
}

/// Exchanging equations from `col` on keeps the earlier columns clear.
proof fn lemma_pivoted(val: spec_fn(Double) -> real, s: System, col: int)
    requires
        is_square(s),
        0 <= col < s.rows.len(),
        is_cleared(val, s, col),
    ensures
        is_square(pivoted(s, col)),
        pivoted(s, col).rows.len() == s.rows.len(),
        is_cleared(val, pivoted(s, col), col),
{
    let n: int = s.rows.len() as int;
    lemma_pivot_range(s.rows, col, n);
    let p: int = pivot_row(s.rows, col, n);
    let t: System = pivoted(s, col);
    assert forall|r: int| 0 <= r < n implies (#[trigger] t.rows[r]).len() == n by {
        assert(s.rows[r].len() == n && s.rows[p].len() == n && s.rows[col].len() == n);
    }
    assert forall|r: int, c: int|
        #![trigger t.rows[r][c]]
        0 <= r < n && 0 <= c < col && r != c implies val(t.rows[r][c]) == 0real by {
        assert(val(s.rows[r][c]) == 0real);
        assert(val(s.rows[p][c]) == 0real);
        assert(val(s.rows[col][c]) == 0real);
    }
}

/// Eliminating a column exactly clears it and keeps the earlier ones clear.
proof fn lemma_eliminated<A: Arithmetic>(val: spec_fn(Double) -> real, s: System, col: int)
    requires
        has_units(val),
        is_square(s),
        0 <= col < s.rows.len(),
        is_cleared(val, s, col),
        forall|r: int|
            0 <= r < s.rows.len() && r != col ==> #[trigger] row_is_exact::<A>(val, s, col, r),
    ensures
        is_square(eliminated::<A>(s, col)),
        is_cleared(val, eliminated::<A>(s, col), col + 1),
{
    let n: int = s.rows.len() as int;
    let e: System = eliminated::<A>(s, col);
    assert forall|r: int| 0 <= r < n implies (#[trigger] e.rows[r]).len() == n by {
        assert(s.rows[r].len() == n);
    }
    assert forall|r: int, c: int|
        #![trigger e.rows[r][c]]
        0 <= r < n && 0 <= c < col + 1 && r != c implies val(e.rows[r][c]) == 0real by {
        assert(s.rows[r].len() == n);
        if r == col {
            assert(e.rows[r] == s.rows[r]);
            assert(val(s.rows[r][c]) == 0real);
        } else {
            assert(row_is_exact::<A>(val, s, col, r));
            let f = val(factor::<A>(s, col, r));
            let p = val(s.rows[col][col]);
            if takes_part::<A>(s, col, r) {
                if c < col {
                    assert(e.rows[r][c] == s.rows[r][c]);
                    assert(val(s.rows[r][c]) == 0real);
                }
            } else {
                assert(e.rows[r] == s.rows[r]);
                if c == col {
                    assert(f == 0real);
                    assert(f * p == 0real) by (nonlinear_arith)
                        requires
                            f == 0real,
                    ;
                } else {
                    assert(val(s.rows[r][c]) == 0real);
                }
            }
        }
    }
}

/// The sum of products of a reduced row.
proof fn lemma_dot_reduced<A: Arithmetic>(
    val: spec_fn(Double) -> real,
    s: System,
    col: int,
    r: int,
    x: Seq<Double>,
    k: int,
)
    requires
        is_square(s),
        0 <= col < s.rows.len(),
        0 <= r < s.rows.len(),
        r != col,
        is_cleared(val, s, col),
        row_is_exact::<A>(val, s, col, r),
        takes_part::<A>(s, col, r),
        0 <= k <= s.rows.len(),
    ensures
        dot(val, eliminated::<A>(s, col).rows[r], x, k) == dot(val, s.rows[r], x, k) - val(
            factor::<A>(s, col, r),
        ) * dot(val, s.rows[col], x, k),
    decreases k,
{
    let e: System = eliminated::<A>(s, col);
    let f = val(factor::<A>(s, col, r));
    if k == 0 {
        assert(f * 0real == 0real) by (nonlinear_arith);
    } else {
        lemma_dot_reduced::<A>(val, s, col, r, x, k - 1);
        let c: int = k - 1;
        assert(s.rows[r].len() == s.rows.len());
        let (a, b, v) = (val(s.rows[r][c]), val(s.rows[col][c]), val(x[c]));
        if c < col {
            assert(e.rows[r][c] == s.rows[r][c]);
            assert(b == 0real);
            assert(a - f * b == a) by (nonlinear_arith)
                requires
                    b == 0real,
            ;
        }
        assert(val(e.rows[r][c]) == a - f * b);
        let d = dot(val, s.rows[col], x, c);
        assert((a - f * b) * v == a * v - f * (b * v)) by (nonlinear_arith);
        assert(f * (d + b * v) == f * d + f * (b * v)) by (nonlinear_arith);
    }
}

/// What solves the system after an exact elimination solved it before.
proof fn lemma_solves_before<A: Arithmetic>(
    val: spec_fn(Double) -> real,
    s: System,
    col: int,
    x: Seq<Double>,
)
    requires
        is_square(s),
        0 <= col < s.rows.len(),
        is_cleared(val, s, col),
        forall|r: int|
            0 <= r < s.rows.len() && r != col ==> #[trigger] row_is_exact::<A>(val, s, col, r),
        forall|r: int|
            0 <= r < s.rows.len() ==> #[trigger] solves(val, eliminated::<A>(s, col), x, r),
    ensures
        forall|r: int| 0 <= r < s.rows.len() ==> #[trigger] solves(val, s, x, r),
{
    let n: int = s.rows.len() as int;
    let e: System = eliminated::<A>(s, col);
    assert(solves(val, e, x, col));
    assert(e.rows[col] == s.rows[col] && e.rhs[col] == s.rhs[col]);
    assert forall|r: int| 0 <= r < n implies #[trigger] solves(val, s, x, r) by {
        assert(solves(val, e, x, r));
        if takes_part::<A>(s, col, r) {
            assert(row_is_exact::<A>(val, s, col, r));
            lemma_dot_reduced::<A>(val, s, col, r, x, n);
        } else {
            assert(e.rows[r] == s.rows[r] && e.rhs[r] == s.rhs[r]);
        }
    }
}

/// What solves the system after the exact elimination of the columns from `col`
/// on solved it before; and each equation has one unknown left at the end.
proof fn lemma_reduction<A: Arithmetic>(
    val: spec_fn(Double) -> real,
    s: System,
    col: int,
    n: int,
    x: Seq<Double>,
)
    requires
        has_units(val),
        is_square(s),
        s.rows.len() == n,
        0 <= col <= n,
        is_cleared(val, s, col),
        reduction_is_exact::<A>(val, s, col, n),
        reduction::<A>(s, col, n).1,
    ensures
        is_square(reduction::<A>(s, col, n).0),
        reduction::<A>(s, col, n).0.rows.len() == n,
        is_cleared(val, reduction::<A>(s, col, n).0, n),
        (forall|r: int|
            0 <= r < n ==> #[trigger] solves(val, reduction::<A>(s, col, n).0, x, r)) ==> (forall|
            r: int,
        |
            0 <= r < n ==> #[trigger] solves(val, s, x, r)),
    decreases n - col,
{
    if col < n {
        let t: System = pivoted(s, col);
        let e: System = eliminated::<A>(t, col);
        let end: System = reduction::<A>(s, col, n).0;
        assert(!lacks_pivot(s, col));
        assert(e == step::<A>(s, col));
        lemma_pivoted(val, s, col);
        lemma_eliminated::<A>(val, t, col);
        lemma_reduction::<A>(val, e, col + 1, n, x);
        if forall|r: int| 0 <= r < n ==> #[trigger] solves(val, end, x, r) {
            lemma_solves_before::<A>(val, t, col, x);
            lemma_pivot_range(s.rows, col, n);
            let p: int = pivot_row(s.rows, col, n);
            assert forall|r: int| 0 <= r < n implies #[trigger] solves(val, s, x, r) by {
                assert(solves(val, t, x, r));
                assert(solves(val, t, x, p));
                assert(solves(val, t, x, col));
                if r == col {
                    assert(t.rows[p] == s.rows[col] && t.rhs[p] == s.rhs[col]);
                } else if r == p {
                    assert(t.rows[col] == s.rows[p] && t.rhs[col] == s.rhs[p]);
                } else {
                    assert(t.rows[r] == s.rows[r] && t.rhs[r] == s.rhs[r]);
                }
            }
        }
    }
}

/// A row with one unknown left.
proof fn lemma_dot_single(
    val: spec_fn(Double) -> real,
    row: Seq<Double>,
    x: Seq<Double>,
    i: int,
    k: int,
)
    requires
        0 <= k <= row.len(),
        0 <= i < row.len(),
        forall|c: int| 0 <= c < row.len() && c != i ==> val(#[trigger] row[c]) == 0real,
    ensures
        dot(val, row, x, k) == if k > i {
            val(row[i]) * val(x[i])
        } else {
            0real
        },
    decreases k,
{
    if k > 0 {
        lemma_dot_single(val, row, x, i, k - 1);
        if k - 1 != i {
            let (a, v) = (val(row[k - 1]), val(x[k - 1]));
            assert(a == 0real);
            assert(a * v == 0real) by (nonlinear_arith)
                requires
                    a == 0real,
            ;
        }
    }
}

/// Gaussian elimination solves the system: where no operation rounds, what it
/// returns satisfies every equation.
pub proof fn elimination_solves_the_system<A: Arithmetic>(
    val: spec_fn(Double) -> real,
    s: System,
    x: Seq<Double>,
)
    requires
        has_units(val),
        is_square(s),
        solution::<A>(s) == Some(x),
        solution_is_exact::<A>(val, s),
    ensures
        forall|r: int| 0 <= r < s.rows.len() ==> #[trigger] solves(val, s, x, r),
{
    let n: int = s.rows.len() as int;
    let end: System = reduction::<A>(s, 0, n).0;
    lemma_reduction::<A>(val, s, 0, n, x);
    assert forall|r: int| 0 <= r < n implies #[trigger] solves(val, end, x, r) by {
        assert(end.rows[r].len() == n);
        assert forall|c: int| 0 <= c < n && c != r implies val(#[trigger] end.rows[r][c])
            == 0real by {}
        lemma_dot_single(val, end.rows[r], x, r, n);
        assert(x[r] == unknowns::<A>(end)[r]);
        let (a, v) = (val(end.rows[r][r]), val(x[r]));
        assert(a * v == v * a) by (nonlinear_arith);
    }
}

/// No product rounds in the equations that take `from` to `to`.
pub open spec fn equations_are_exact<A: Arithmetic>(
    val: spec_fn(Double) -> real,
    from: Point,
    to: Point,
) -> bool {
    let (x, y) = (A::widen_of(from.0), A::widen_of(from.1));
    let (u, v) = (A::widen_of(to.0), A::widen_of(to.1));
    &&& val(A::wide_prod_of(x.negated(), u)) == -(val(x) * val(u))
    &&& val(A::wide_prod_of(y.negated(), u)) == -(val(y) * val(u))
    &&& val(A::wide_prod_of(x.negated(), v)) == -(val(x) * val(v))
    &&& val(A::wide_prod_of(y.negated(), v)) == -(val(y) * val(v))
}

/// The value of a row of the transform at a point.
pub open spec fn row_at(a: real, b: real, c: real, x: real, y: real) -> real {
    a * x + b * y + c
}

/// The projective transform with the parameters `m` takes `from` to `to`: each
/// coordinate is a quotient of two rows, written without the division.
pub open spec fn takes_to<A: Arithmetic>(
    val: spec_fn(Double) -> real,
    m: Seq<Double>,
    from: Point,
    to: Point,
) -> bool {
    let (x, y) = (val(A::widen_of(from.0)), val(A::widen_of(from.1)));
    let (u, v) = (val(A::widen_of(to.0)), val(A::widen_of(to.1)));
    let w = row_at(val(m[6]), val(m[7]), 1real, x, y);
    &&& row_at(val(m[0]), val(m[1]), val(m[2]), x, y) == u * w
    &&& row_at(val(m[3]), val(m[4]), val(m[5]), x, y) == v * w
}

/// An equation with three unknowns of its own and the two of the denominator.
proof fn lemma_equation(
    x: real,
    y: real,
    t: real,
    a: real,
    b: real,
    c: real,
    g: real,
    h: real,
)
    requires
        x * a + y * b + c + (-(x * t)) * g + (-(y * t)) * h == t,
    ensures
        row_at(a, b, c, x, y) == t * row_at(g, h, 1real, x, y),
{
    assert(x * a == a * x && y * b == b * y) by (nonlinear_arith);
    assert((-(x * t)) * g == -(t * (g * x))) by (nonlinear_arith);
    assert((-(y * t)) * h == -(t * (h * y))) by (nonlinear_arith);
    assert(t * (g * x + h * y + 1real) == t * (g * x) + t * (h * y) + t) by (nonlinear_arith);
}

/// The transform takes each corner to its counterpart, where no operation
/// rounds.
pub proof fn transform_takes_corners_over<A: Arithmetic>(
    val: spec_fn(Double) -> real,
    from: Seq<Point>,
    to: Seq<Point>,
    m: Seq<Double>,
    i: int,
)
    requires
        has_units(val),
        from.len() == 4,
        to.len() == 4,
        transform::<A>(from, to) == Some(m),
        solution_is_exact::<A>(val, transform_system::<A>(from, to)),
        forall|k: int|
            0 <= k < 4 ==> equations_are_exact::<A>(val, #[trigger] from[k], to[k]),
        0 <= i < 4,
    ensures
        takes_to::<A>(val, m, from[i], to[i]),
{
    let s: System = transform_system::<A>(from, to);
    assert forall|r: int| 0 <= r < 8 implies (#[trigger] s.rows[r]).len() == 8 by {}
    elimination_solves_the_system::<A>(val, s, m);
    assert(equations_are_exact::<A>(val, from[i], to[i]));
    let zero = Double::of(WIDE_ZERO);
    assert(zero.equals(Double::of(WIDE_ZERO)));
    assert(val(zero) == 0real);
    let (x, y) = (val(A::widen_of(from[i].0)), val(A::widen_of(from[i].1)));
    let (u, v) = (val(A::widen_of(to[i].0)), val(A::widen_of(to[i].1)));
    let (g, h) = (val(m[6]), val(m[7]));
    assert(solves(val, s, m, 2 * i));
    assert(s.rows[2 * i] == equation::<A>(from[i], to[i], true));
    assert(s.rhs[2 * i] == A::widen_of(to[i].0));
    assert(solves(val, s, m, 2 * i + 1));
    assert(s.rows[2 * i + 1] == equation::<A>(from[i], to[i], false));
    assert(s.rhs[2 * i + 1] == A::widen_of(to[i].1));
    lemma_dot_eight(val, s.rows[2 * i], m);
    lemma_dot_eight(val, s.rows[2 * i + 1], m);
    lemma_units(val(m[0]), val(m[1]), val(m[2]));
    lemma_units(val(m[3]), val(m[4]), val(m[5]));
    lemma_equation(x, y, u, val(m[0]), val(m[1]), val(m[2]), g, h);
    lemma_equation(x, y, v, val(m[3]), val(m[4]), val(m[5]), g, h);
}

proof fn lemma_units(a: real, b: real, c: real)
    ensures
        0real * a == 0real,
        0real * b == 0real,
        0real * c == 0real,
        1real * c == c,
{
    assert(0real * a == 0real && 0real * b == 0real && 0real * c == 0real && 1real * c == c)
        by (nonlinear_arith);
}

/// A sum of eight products.
proof fn lemma_dot_eight(val: spec_fn(Double) -> real, row: Seq<Double>, x: Seq<Double>)
    ensures
        dot(val, row, x, 8) == val(row[0]) * val(x[0]) + val(row[1]) * val(x[1]) + val(row[2]) * val(
            x[2],
        ) + val(row[3]) * val(x[3]) + val(row[4]) * val(x[4]) + val(row[5]) * val(x[5]) + val(row[6])
            * val(x[6]) + val(row[7]) * val(x[7]),
{
    reveal_with_fuel(dot, 9);
}

/// No operation rounds in a row of the transform at a pixel.
pub open spec fn row_value_is_exact<A: Arithmetic>(
    val: spec_fn(Double) -> real,
    a: Double,
    b: Double,
    c: Double,
    x: usize,
    y: usize,
) -> bool {
    val(row_value::<A>(a, b, c, x, y)) == row_at(
        val(a),
        val(b),
        val(c),
        val(A::wide_from_usize_of(x)),
        val(A::wide_from_usize_of(y)),
    )
}

/// The division does not round.
pub open spec fn quotient_is_exact<A: Arithmetic>(
    val: spec_fn(Double) -> real,
    a: Double,
    b: Double,
) -> bool {
    val(A::wide_quot_of(a, b)) * val(b) == val(a)
}

/// The pixel at a corner of the upright image reads the frame at the
/// corresponding corner of the quadrilateral, where no operation rounds and the
/// denominator is not 0.
pub proof fn corner_pixels_read_the_corners<A: Arithmetic>(
    val: spec_fn(Double) -> real,
    quad: Seq<Point>,
    out_w: int,
    out_h: int,
    m: Seq<Double>,
    i: int,
    x: usize,
    y: usize,
)
    requires
        has_units(val),
        quad.len() == 4,
        transform::<A>(image_corners::<A>(out_w, out_h), quad) == Some(m),
        solution_is_exact::<A>(val, transform_system::<A>(image_corners::<A>(out_w, out_h), quad)),
        forall|k: int|
            0 <= k < 4 ==> equations_are_exact::<A>(
                val,
                #[trigger] image_corners::<A>(out_w, out_h)[k],
                quad[k],
            ),
        0 <= i < 4,
        val(A::wide_from_usize_of(x)) == val(
            A::widen_of(image_corners::<A>(out_w, out_h)[i].0),
        ),
        val(A::wide_from_usize_of(y)) == val(
            A::widen_of(image_corners::<A>(out_w, out_h)[i].1),
        ),
        row_value_is_exact::<A>(val, m[0], m[1], m[2], x, y),
        row_value_is_exact::<A>(val, m[3], m[4], m[5], x, y),
        row_value_is_exact::<A>(val, m[6], m[7], Double::of(WIDE_ONE), x, y),
        quotient_is_exact::<A>(
            val,
            row_value::<A>(m[0], m[1], m[2], x, y),
            row_value::<A>(m[6], m[7], Double::of(WIDE_ONE), x, y),
        ),
        quotient_is_exact::<A>(
            val,
            row_value::<A>(m[3], m[4], m[5], x, y),
            row_value::<A>(m[6], m[7], Double::of(WIDE_ONE), x, y),
        ),
        val(row_value::<A>(m[6], m[7], Double::of(WIDE_ONE), x, y)) != 0real,
    ensures
        val(
            A::wide_quot_of(
                row_value::<A>(m[0], m[1], m[2], x, y),
                row_value::<A>(m[6], m[7], Double::of(WIDE_ONE), x, y),
            ),
        ) == val(A::widen_of(quad[i].0)),
        val(
            A::wide_quot_of(
                row_value::<A>(m[3], m[4], m[5], x, y),
                row_value::<A>(m[6], m[7], Double::of(WIDE_ONE), x, y),
            ),
        ) == val(A::widen_of(quad[i].1)),
{
    transform_takes_corners_over::<A>(val, image_corners::<A>(out_w, out_h), quad, m, i);
    let d = row_value::<A>(m[6], m[7], Double::of(WIDE_ONE), x, y);
    let (a, b) = (
        row_value::<A>(m[0], m[1], m[2], x, y),
        row_value::<A>(m[3], m[4], m[5], x, y),
    );
    lemma_cancel(val(A::wide_quot_of(a, d)), val(A::widen_of(quad[i].0)), val(d));
    lemma_cancel(val(A::wide_quot_of(b, d)), val(A::widen_of(quad[i].1)), val(d));
}

proof fn lemma_cancel(a: real, b: real, d: real)
    requires
        a * d == b * d,
        d != 0real,
    ensures
        a == b,
{
    assert((a - b) * d == a * d - b * d) by (nonlinear_arith);
    assert(a - b == 0real) by (nonlinear_arith)
        requires
            (a - b) * d == 0real,
            d != 0real,
    ;
}

} // verus!
