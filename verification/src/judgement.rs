//! What the judgement of a quadrilateral says, in real numbers: type, confidence
//! and acceptance.

use crate::detect::{
    aspect_error, aspect_match, assessment, confidence, coverage, finding, hull_corners,
    outline_hull, Finding, Params, ANGLE_WEIGHT, ASPECT_WEIGHT, ID1_ASPECT, ID1_TOL, SIDE_WEIGHT,
};
use crate::number::{Arithmetic, Single, ONE, ZERO};
use crate::polygon::Point;
use crate::quad::metrics;
use crate::range::is_finite;
use crate::value::{
    is_near, is_rounded, lemma_large, lemma_near_diff, lemma_near_prod, lemma_near_sum,
    lemma_scale_monotone, lemma_scale_numbers, lemma_value_abs, lemma_value_ratio,
    lemma_value_units, rounds_closely, scale, value, values_are_ordered,
};
use crate::whole::size;
use vstd::prelude::*;

verus! {

/// A real number held from 0 to 1.
pub open spec fn unit_clamp(x: real) -> real {
    if x < 0real {
        0real
    } else if x > 1real {
        1real
    } else {
        x
    }
}

/// How well a real aspect ratio matches that of a card: 1 up to 0.14 off 1.585,
/// less by what it is off beyond that.
pub open spec fn card_match(a: real) -> real {
    unit_clamp(1real - (size(a - 1585real / 1000real) - 14real / 100real))
}

/// 0.45 of the angle score, 0.35 of the side score and 0.20 of the match with the
/// aspect ratio of a card.
pub open spec fn weighted_mean(angle: real, side: real, a: real) -> real {
    45real / 100real * angle + 35real / 100real * side + 20real / 100real * card_match(a)
}

/// The constants are close to the decimal numbers that they are written for.
proof fn lemma_constants()
    ensures
        is_near(Single::of(ID1_ASPECT), 1585real / 1000real, 1real / 10000000real),
        is_near(Single::of(ID1_TOL), 14real / 100real, 1real / 10000000real),
        is_near(Single::of(ANGLE_WEIGHT), 45real / 100real, 1real / 10000000real),
        is_near(Single::of(SIDE_WEIGHT), 35real / 100real, 1real / 10000000real),
        is_near(Single::of(ASPECT_WEIGHT), 20real / 100real, 1real / 10000000real),
{
    lemma_scale_numbers();
    lemma_value_ratio(ID1_ASPECT, 127, 4907336, 8388608real);
    lemma_value_ratio(ID1_TOL, 124, 1006633, 67108864real);
    lemma_value_ratio(ANGLE_WEIGHT, 125, 6710886, 33554432real);
    lemma_value_ratio(SIDE_WEIGHT, 125, 3355443, 33554432real);
    lemma_value_ratio(ASPECT_WEIGHT, 124, 5033165, 67108864real);
    assert((0x0080_0000 + 4907336) as real == 13295944real);
    assert((0x0080_0000 + 1006633) as real == 9395241real);
    assert((0x0080_0000 + 6710886) as real == 15099494real);
    assert((0x0080_0000 + 3355443) as real == 11744051real);
    assert((0x0080_0000 + 5033165) as real == 13421773real);
}

/// The values of clamped patterns.
pub proof fn lemma_unit_clamp(x: Single)
    requires
        is_finite(x),
    ensures
        value(x.clamp(Single::of(ZERO), Single::of(ONE))) == unit_clamp(value(x)),
        is_finite(x.clamp(Single::of(ZERO), Single::of(ONE))),
{
    lemma_value_units();
    values_are_ordered(x, Single::of(ZERO));
    values_are_ordered(Single::of(ONE), x);
}

/// The pattern is finite and not beyond all bounds.
pub open spec fn is_ordinary(a: Single) -> bool {
    is_finite(a) && size(value(a)) <= scale(90)
}

/// The difference of a ratio from that of a card.
proof fn lemma_aspect_error<A: Arithmetic>(aspect: Single)
    requires
        rounds_closely::<A>(),
        is_ordinary(aspect),
    ensures
        is_finite(aspect_error::<A>(aspect)),
        value(aspect_error::<A>(aspect)) >= 0real,
        value(aspect_error::<A>(aspect)) <= 2real * scale(90) + 4real,
        size(value(aspect)) <= 8real ==> is_near(
            aspect_error::<A>(aspect),
            size(value(aspect) - 1585real / 1000real),
            21real / 10000000real,
        ),
        size(value(aspect)) > 8real ==> value(aspect_error::<A>(aspect)) >= 5real,
{
    lemma_constants();
    lemma_large();
    lemma_scale_numbers();
    lemma_scale_monotone(0, 90);
    lemma_scale_wide();
    let k: Single = Single::of(ID1_ASPECT);
    let d: Single = A::diff_of(aspect, k);
    let (a, c) = (value(aspect), value(k));
    lemma_value_abs(d);
    if size(a) <= 8real {
        lemma_near_diff::<A>(
            aspect,
            k,
            a,
            1585real / 1000real,
            0real,
            1real / 10000000real,
            16real,
        );
    } else {
        assert(is_rounded(d, a - c)) by {
            reveal(rounds_closely);
        }
        let (x, u) = (size(a - c), scale(-24));
        assert(x * u <= x / 16real) by (nonlinear_arith)
            requires
                0real <= x,
                u * 16777216real == 1real,
        ;
    }
}

proof fn lemma_scale_wide()
    ensures
        2real * scale(90) + 16real <= scale(100),
        scale(90) >= 1000real,
{
    lemma_scale_monotone(92, 100);
    lemma_scale_monotone(10, 90);
    reveal_with_fuel(scale, 12);
}

/// The match with the aspect ratio of a card is close to the real one.
proof fn lemma_aspect_match<A: Arithmetic>(aspect: Single)
    requires
        rounds_closely::<A>(),
        is_ordinary(aspect),
    ensures
        is_near(aspect_match::<A>(aspect), card_match(value(aspect)), 7real / 1000000real),
        0real <= value(aspect_match::<A>(aspect)) <= 1real,
{
    lemma_constants();
    lemma_large();
    lemma_scale_numbers();
    lemma_scale_wide();
    lemma_value_units();
    lemma_aspect_error::<A>(aspect);
    let (tol, one) = (Single::of(ID1_TOL), Single::of(ONE));
    let err: Single = aspect_error::<A>(aspect);
    values_are_ordered(err, tol);
    let t: Single = A::diff_of(err, tol);
    let u: Single = A::diff_of(one, t);
    if size(value(aspect)) <= 8real {
        let x = size(value(aspect) - 1585real / 1000real);
        lemma_near_diff::<A>(
            err,
            tol,
            x,
            14real / 100real,
            21real / 10000000real,
            1real / 10000000real,
            16real,
        );
        lemma_near_diff::<A>(
            one,
            t,
            1real,
            x - 14real / 100real,
            0real,
            22real / 10000000real + 16real * scale(-23),
            16real,
        );
        lemma_unit_clamp(u);
    } else {
        lemma_far_match::<A>(err);
        lemma_unit_clamp(u);
    }
}

/// Far from the ratio of a card nothing matches.
proof fn lemma_far_match<A: Arithmetic>(err: Single)
    requires
        rounds_closely::<A>(),
        is_finite(err),
        5real <= value(err) <= 2real * scale(90) + 4real,
    ensures
        is_finite(A::diff_of(Single::of(ONE), A::diff_of(err, Single::of(ID1_TOL)))),
        value(A::diff_of(Single::of(ONE), A::diff_of(err, Single::of(ID1_TOL)))) <= 0real,
{
    lemma_constants();
    lemma_large();
    lemma_scale_numbers();
    lemma_scale_wide();
    lemma_value_units();
    let (tol, one) = (Single::of(ID1_TOL), Single::of(ONE));
    let t: Single = A::diff_of(err, tol);
    lemma_scale_monotone(93, 100);
    lemma_scale_monotone(90, 92);
    reveal_with_fuel(scale, 4);
    assert(is_rounded(t, value(err) - value(tol))) by {
        reveal(rounds_closely);
    }
    let (x, s) = (value(err) - value(tol), scale(-24));
    assert(x * s <= x / 8real) by (nonlinear_arith)
        requires
            0real <= x,
            s * 16777216real == 1real,
    ;
    let y = 1real - value(t);
    assert(is_rounded(A::diff_of(one, t), y)) by {
        reveal(rounds_closely);
    }
    let z = size(y);
    assert(z * s <= z / 8real) by (nonlinear_arith)
        requires
            0real <= z,
            s * 16777216real == 1real,
    ;
}

/// The confidence is the weighted mean of both scores and of the match with the
/// aspect ratio of a card, up to rounding.
pub proof fn confidence_is_a_weighted_mean<A: Arithmetic>(
    angle: Single,
    side: Single,
    aspect: Single,
)
    requires
        rounds_closely::<A>(),
        Single::of(ZERO).at_most(angle) && angle.at_most(Single::of(ONE)),
        Single::of(ZERO).at_most(side) && side.at_most(Single::of(ONE)),
        is_ordinary(aspect),
    ensures
        is_near(
            confidence::<A>(angle, side, aspect),
            weighted_mean(value(angle), value(side), value(aspect)),
            1real / 100000real,
        ),
{
    lemma_constants();
    lemma_large();
    lemma_scale_numbers();
    lemma_value_units();
    lemma_aspect_match::<A>(aspect);
    values_are_ordered(Single::of(ZERO), angle);
    values_are_ordered(angle, Single::of(ONE));
    values_are_ordered(Single::of(ZERO), side);
    values_are_ordered(side, Single::of(ONE));
    let m: Single = aspect_match::<A>(aspect);
    let (a, s, c) = (value(angle), value(side), card_match(value(aspect)));
    let (u, v, w) = (Single::of(ANGLE_WEIGHT), Single::of(SIDE_WEIGHT), Single::of(ASPECT_WEIGHT));
    let e = 1real / 10000000real;
    lemma_weighted::<A>(u, angle, 45real / 100real, a, 0real);
    lemma_weighted::<A>(v, side, 35real / 100real, s, 0real);
    lemma_weighted::<A>(w, m, 20real / 100real, c, 7real / 1000000real);
    let (p, q, r) = (A::prod_of(u, angle), A::prod_of(v, side), A::prod_of(w, m));
    let (dp, dq) = (e + scale(-23), e + scale(-23));
    let dr = e + 7real / 5000000real + scale(-23);
    lemma_near_sum::<A>(p, q, 45real / 100real * a, 35real / 100real * s, dp, dq, 4real);
    lemma_near_sum::<A>(
        A::sum_of(p, q),
        r,
        45real / 100real * a + 35real / 100real * s,
        20real / 100real * c,
        dp + dq + 4real * scale(-23),
        dr,
        4real,
    );
    lemma_unit_clamp(A::sum_of(A::sum_of(p, q), r));
}

/// A weight times a score.
proof fn lemma_weighted<A: Arithmetic>(u: Single, s: Single, x: real, y: real, d: real)
    requires
        rounds_closely::<A>(),
        is_near(u, x, 1real / 10000000real),
        0real <= x <= 1real / 2real,
        is_near(s, y, d),
        0real <= value(s) <= 1real,
        0real <= y <= 1real,
        0real <= d,
    ensures
        is_near(A::prod_of(u, s), x * y, 1real / 10000000real + x * d + scale(-23)),
{
    lemma_large();
    lemma_scale_numbers();
    let (p, q) = (value(u), value(s));
    assert(-1real <= p * q && p * q <= 1real) by (nonlinear_arith)
        requires
            -1real <= p <= 1real,
            0real <= q <= 1real,
    ;
    lemma_near_prod::<A>(u, s, x, y, 1real / 10000000real, d, 1real, x, 1real);
}

/// The answer to a quadrilateral that is found: its type is that of a card just
/// where the aspect ratio is no more than 0.14 off 1.585, up to rounding, and
/// exactly so where the difference is not rounded.
pub proof fn type_follows_the_aspect<A: Arithmetic>(c: Seq<Point>, w: int, h: int, p: Params)
    requires
        rounds_closely::<A>(),
        assessment::<A>(c, w, h, p).found,
        is_ordinary(metrics::<A>(c).0),
    ensures
        ({
            let code = assessment::<A>(c, w, h, p).type_code;
            let aspect = metrics::<A>(c).0;
            let off = size(value(aspect) - 1585real / 1000real);
            &&& code == 1 || code == 2
            &&& code == 1 ==> off <= 14real / 100real + 3real / 1000000real
            &&& code == 2 ==> off >= 14real / 100real - 3real / 1000000real
            &&& value(A::diff_of(aspect, Single::of(0x3fca_e148))) == value(aspect) - value(
                Single::of(0x3fca_e148),
            ) ==> (code == 1 <==> size(value(aspect) - value(Single::of(0x3fca_e148))) <= value(
                Single::of(0x3e0f_5c29),
            ))
        }),
{
    let aspect: Single = metrics::<A>(c).0;
    lemma_constants();
    lemma_aspect_error::<A>(aspect);
    let err: Single = aspect_error::<A>(aspect);
    values_are_ordered(err, Single::of(ID1_TOL));
    lemma_value_abs(A::diff_of(aspect, Single::of(ID1_ASPECT)));
}

/// The confidence of a find is the weighted mean of its scores and of the match
/// of its aspect ratio, up to rounding.
pub proof fn found_confidence_is_a_weighted_mean<A: Arithmetic>(
    c: Seq<Point>,
    w: int,
    h: int,
    p: Params,
)
    requires
        rounds_closely::<A>(),
        assessment::<A>(c, w, h, p).found,
        is_ordinary(metrics::<A>(c).0),
        !metrics::<A>(c).1.is_nan(),
        !metrics::<A>(c).2.is_nan(),
    ensures
        ({
            let (aspect, angle, side) = metrics::<A>(c);
            is_near(
                assessment::<A>(c, w, h, p).confidence,
                weighted_mean(value(angle), value(side), value(aspect)),
                1real / 100000real,
            )
        }),
{
    let (aspect, angle, side) = metrics::<A>(c);
    confidence_is_a_weighted_mean::<A>(angle, side, aspect);
}

/// Full confidence needs full scores: within 0.0001 of 1, it is reached only where
/// both scores and the match are within 0.001 of 1.
pub proof fn full_confidence_needs_full_scores<A: Arithmetic>(
    angle: Single,
    side: Single,
    aspect: Single,
)
    requires
        rounds_closely::<A>(),
        Single::of(ZERO).at_most(angle) && angle.at_most(Single::of(ONE)),
        Single::of(ZERO).at_most(side) && side.at_most(Single::of(ONE)),
        is_ordinary(aspect),
        value(confidence::<A>(angle, side, aspect)) >= 1real - 1real / 10000real,
    ensures
        value(angle) >= 1real - 1real / 1000real,
        value(side) >= 1real - 1real / 1000real,
        card_match(value(aspect)) >= 1real - 1real / 1000real,
{
    lemma_value_units();
    values_are_ordered(angle, Single::of(ONE));
    values_are_ordered(side, Single::of(ONE));
    confidence_is_a_weighted_mean::<A>(angle, side, aspect);
}

/// Of two quadrilaterals alike but for one of the three, that with less of it has
/// less confidence, where the difference is more than 0.001.
pub proof fn confidence_grows_with_each_score<A: Arithmetic>(
    angle: Single,
    side: Single,
    aspect: Single,
    angle2: Single,
    side2: Single,
    aspect2: Single,
)
    requires
        rounds_closely::<A>(),
        Single::of(ZERO).at_most(angle) && angle.at_most(Single::of(ONE)),
        Single::of(ZERO).at_most(side) && side.at_most(Single::of(ONE)),
        is_ordinary(aspect),
        Single::of(ZERO).at_most(angle2) && angle2.at_most(Single::of(ONE)),
        Single::of(ZERO).at_most(side2) && side2.at_most(Single::of(ONE)),
        is_ordinary(aspect2),
        value(angle) <= value(angle2),
        value(side) <= value(side2),
        card_match(value(aspect)) <= card_match(value(aspect2)),
        value(angle) + 1real / 1000real <= value(angle2) || value(side) + 1real / 1000real <= value(
            side2,
        ) || card_match(value(aspect)) + 1real / 1000real <= card_match(value(aspect2)),
    ensures
        confidence::<A>(angle, side, aspect).less(confidence::<A>(angle2, side2, aspect2)),
{
    confidence_is_a_weighted_mean::<A>(angle, side, aspect);
    confidence_is_a_weighted_mean::<A>(angle2, side2, aspect2);
    values_are_ordered(
        confidence::<A>(angle, side, aspect),
        confidence::<A>(angle2, side2, aspect2),
    );
}

/// A quadrilateral is found just where the part of the frame that it covers is
/// neither below the lower limit nor above the upper one, and neither score is 0
/// or less. Then it is answered with its own corners; else with nothing.
pub proof fn acceptance_is_by_limits_and_scores<A: Arithmetic>(
    c: Seq<Point>,
    w: int,
    h: int,
    p: Params,
)
    ensures
        ({
            let f = assessment::<A>(c, w, h, p);
            let part = coverage::<A>(c, w, h);
            let (aspect, angle, side) = metrics::<A>(c);
            let zero = Single::of(0);
            &&& f.found <==> !(part.less(p.min_area_frac) || p.max_area_frac.less(part)
                || angle.at_most(zero) || side.at_most(zero))
            &&& f.found ==> f.corners == c
            &&& !f.found ==> f.type_code == 0 && f.confidence == zero && forall|k: int|
                0 <= k < 4 ==> #[trigger] f.corners[k] == (zero, zero)
        }),
{
}

/// What is found in a frame goes by its corners: the type by their aspect ratio,
/// the confidence by their scores and the match of the ratio.
pub proof fn found_answer_goes_by_its_corners<A: Arithmetic>(
    rgba: Seq<u8>,
    w: int,
    h: int,
    p: Params,
)
    requires
        rounds_closely::<A>(),
        finding::<A>(rgba, w, h, p).found,
        is_ordinary(metrics::<A>(finding::<A>(rgba, w, h, p).corners).0),
        !metrics::<A>(finding::<A>(rgba, w, h, p).corners).1.is_nan(),
        !metrics::<A>(finding::<A>(rgba, w, h, p).corners).2.is_nan(),
    ensures
        ({
            let f = finding::<A>(rgba, w, h, p);
            let (aspect, angle, side) = metrics::<A>(f.corners);
            let off = size(value(aspect) - 1585real / 1000real);
            &&& f.type_code == 1 || f.type_code == 2
            &&& f.type_code == 1 ==> off <= 14real / 100real + 3real / 1000000real
            &&& f.type_code == 2 ==> off >= 14real / 100real - 3real / 1000000real
            &&& is_near(
                f.confidence,
                weighted_mean(value(angle), value(side), value(aspect)),
                1real / 100000real,
            )
        }),
{
    let f: Finding = finding::<A>(rgba, w, h, p);
    let c: Seq<Point> = hull_corners::<A>(outline_hull::<A>(rgba, w, h, p)->0);
    assert(f == assessment::<A>(c, w, h, p));
    acceptance_is_by_limits_and_scores::<A>(c, w, h, p);
    type_follows_the_aspect::<A>(c, w, h, p);
    found_confidence_is_a_weighted_mean::<A>(c, w, h, p);
}

} // verus!
