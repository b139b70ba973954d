//! The stages of the pipeline, on IEEE 754 arithmetic.

use edgesnap::detect::{assess, pack};
use edgesnap::edge::{canny, nonzero_percentile, sobel, suppress};
use edgesnap::filter::{box_blur3, to_gray};
use edgesnap::linear::{homography, solve_linear};
use edgesnap::polygon::{dist, dp, is_convex, perp_dist, polyline_len, quad_from_hull};
use edgesnap::quad::{extreme_corners, order_corners, quad_area, quad_metrics};
use edgesnap::rectify::sample_bilinear;
use edgesnap::{Arithmetic, Detection, Double, Params, Point, Single};

struct Ieee;

fn s(x: f32) -> Single {
    Single { bits: x.to_bits() }
}

fn f(x: Single) -> f32 {
    f32::from_bits(x.bits)
}

fn d(x: f64) -> Double {
    Double { bits: x.to_bits() }
}

fn g(x: Double) -> f64 {
    f64::from_bits(x.bits)
}

impl Arithmetic for Ieee {
    fn sum(a: Single, b: Single) -> Single {
        s(f(a) + f(b))
    }
    fn diff(a: Single, b: Single) -> Single {
        s(f(a) - f(b))
    }
    fn prod(a: Single, b: Single) -> Single {
        s(f(a) * f(b))
    }
    fn quot(a: Single, b: Single) -> Single {
        s(f(a) / f(b))
    }
    fn rem(a: Single, b: Single) -> Single {
        s(f(a) % f(b))
    }
    fn sqrt(a: Single) -> Single {
        s(f(a).sqrt())
    }
    fn atan2(a: Single, b: Single) -> Single {
        s(f(a).atan2(f(b)))
    }
    fn acos(a: Single) -> Single {
        s(f(a).acos())
    }
    fn degrees(a: Single) -> Single {
        s(f(a).to_degrees())
    }
    fn floor(a: Single) -> Single {
        s(f(a).floor())
    }
    fn round(a: Single) -> Single {
        s(f(a).round())
    }
    fn from_usize(a: usize) -> Single {
        s(a as f32)
    }
    fn from_i32(a: i32) -> Single {
        s(a as f32)
    }
    fn to_usize(a: Single) -> usize {
        f(a) as usize
    }
    fn to_u8(a: Single) -> u8 {
        f(a) as u8
    }
    fn widen(a: Single) -> Double {
        d(f(a) as f64)
    }
    fn narrow(a: Double) -> Single {
        s(g(a) as f32)
    }
    fn wide_from_usize(a: usize) -> Double {
        d(a as f64)
    }
    fn wide_sum(a: Double, b: Double) -> Double {
        d(g(a) + g(b))
    }
    fn wide_diff(a: Double, b: Double) -> Double {
        d(g(a) - g(b))
    }
    fn wide_prod(a: Double, b: Double) -> Double {
        d(g(a) * g(b))
    }
    fn wide_quot(a: Double, b: Double) -> Double {
        d(g(a) / g(b))
    }
}

fn p(x: f32, y: f32) -> Point {
    (s(x), s(y))
}

fn points(list: &[(f32, f32)]) -> Vec<Point> {
    list.iter().map(|q| p(q.0, q.1)).collect()
}

fn quad(list: [(f32, f32); 4]) -> [Point; 4] {
    list.map(|q| p(q.0, q.1))
}

fn plain(list: &[Point]) -> Vec<(f32, f32)> {
    list.iter().map(|q| (f(q.0), f(q.1))).collect()
}

fn levels(list: &[f32]) -> Vec<Single> {
    list.iter().map(|x| s(*x)).collect()
}

fn floats(list: &[Single]) -> Vec<f32> {
    list.iter().map(|x| f(*x)).collect()
}

#[test]
fn brightness_weighs_the_colours() {
    let g = to_gray::<Ieee>(&[255, 0, 0, 9, 0, 255, 0, 9, 0, 0, 255, 9, 10, 20, 30, 9], 2, 2);
    assert_eq!(
        floats(&g),
        vec![
            0.299 * 255.0,
            0.587 * 255.0,
            0.114 * 255.0,
            0.299 * 10.0 + 0.587 * 20.0 + 0.114 * 30.0
        ]
    );
}

#[test]
fn missing_pixels_are_black() {
    let g = to_gray::<Ieee>(&[100, 100, 100, 255, 50, 50, 50], 3, 1);
    assert_eq!(floats(&g)[1..], [0.0, 0.0]);
    assert!(f(g[0]) > 99.0);
}

#[test]
fn blur_averages_rows_then_columns() {
    assert_eq!(floats(&box_blur3::<Ieee>(&levels(&[9.0, 0.0, 0.0]), 3, 1)), vec![6.0, 3.0, 0.0]);
    assert_eq!(floats(&box_blur3::<Ieee>(&levels(&[9.0, 0.0, 0.0]), 1, 3)), vec![6.0, 3.0, 0.0]);
    let mut src = vec![0.0; 25];
    src[12] = 9.0;
    let out = floats(&box_blur3::<Ieee>(&levels(&src), 5, 5));
    for y in 0..5usize {
        for x in 0..5usize {
            let inside = (1..4).contains(&x) && (1..4).contains(&y);
            assert_eq!(out[y * 5 + x], if inside { 1.0 } else { 0.0 });
        }
    }
}

#[test]
fn blur_of_a_flat_raster_is_flat() {
    let out = box_blur3::<Ieee>(&levels(&[12.0; 20]), 5, 4);
    assert_eq!(floats(&out), vec![12.0; 20]);
}

#[test]
fn percentile_cuts_the_histogram() {
    let mag = levels(&[0.0, 1.0, 2.0, 3.0, 4.0, 0.0]);
    let scale = 255.0f32 / 4.0;
    assert_eq!(f(nonzero_percentile::<Ieee>(&mag, s(0.5))), 191.0 / scale);
    assert_eq!(f(nonzero_percentile::<Ieee>(&mag, s(0.75))), 127.0 / scale);
    assert_eq!(f(nonzero_percentile::<Ieee>(&mag, s(1.0))), 63.0 / scale);
    assert_eq!(f(nonzero_percentile::<Ieee>(&mag, s(0.0))), 4.0);
    assert_eq!(f(nonzero_percentile::<Ieee>(&mag, s(9.0))), 0.0);
}

#[test]
fn percentile_of_no_gradient_is_infinite() {
    assert_eq!(f(nonzero_percentile::<Ieee>(&levels(&[0.0, -1.0]), s(0.3))), f32::INFINITY);
    assert_eq!(f(nonzero_percentile::<Ieee>(&[], s(0.3))), f32::INFINITY);
    assert_eq!(f(nonzero_percentile::<Ieee>(&levels(&[f32::NAN]), s(0.3))), f32::INFINITY);
}

/// A raster with `value` right of the middle and 0 left of it.
fn step(w: usize, h: usize, value: f32) -> Vec<Single> {
    (0..w * h).map(|i| s(if i % w < w / 2 { 0.0 } else { value })).collect()
}

#[test]
fn sobel_of_a_step() {
    let grads = sobel::<Ieee>(&step(10, 6, 63.75), 10, 6);
    for y in 0..6usize {
        for x in 0..10usize {
            let g = &grads[y * 10 + x];
            let on = (1..5).contains(&y) && (x == 4 || x == 5);
            assert_eq!(f(g.x), if on { 255.0 } else { 0.0 });
            assert_eq!(f(g.y), 0.0);
            assert_eq!(f(g.mag), if on { 255.0 } else { 0.0 });
        }
    }
}

#[test]
fn sobel_of_a_slope() {
    // Levels 3 x + 4 y: eight times the slope in each direction.
    let gray: Vec<Single> = (0..20).map(|i| s((3 * (i % 5) + 4 * (i / 5)) as f32)).collect();
    let grads = sobel::<Ieee>(&gray, 5, 4);
    let g = &grads[7];
    assert_eq!((f(g.x), f(g.y), f(g.mag)), (24.0, 32.0, 40.0));
}

#[test]
fn suppression_keeps_ridges() {
    // Magnitudes 1 2 3 2 1 across a ridge.
    let gray = levels(&[
        0.0, 1.0, 4.0, 9.0, 14.0, 17.0, 18.0, 0.0, 1.0, 4.0, 9.0, 14.0, 17.0, 18.0, 0.0, 1.0, 4.0,
        9.0, 14.0, 17.0, 18.0,
    ]);
    let grads = sobel::<Ieee>(&gray, 7, 3);
    let mags: Vec<f32> = grads[7..14].iter().map(|g| f(g.mag)).collect();
    assert_eq!(mags, vec![0.0, 16.0, 32.0, 40.0, 32.0, 16.0, 0.0]);
    let nms = floats(&suppress::<Ieee>(&grads, 7, 3, s(1.0)));
    assert_eq!(nms[7..14], [0.0, 0.0, 0.0, 40.0, 0.0, 0.0, 0.0]);
    let nms = floats(&suppress::<Ieee>(&grads, 7, 3, s(41.0)));
    assert_eq!(nms, vec![0.0; 21]);
}

#[test]
fn canny_of_a_step() {
    let out = canny::<Ieee>(&step(10, 6, 63.75), 10, 6, s(0.3));
    for y in 0..6usize {
        for x in 0..10usize {
            let on = (1..5).contains(&y) && (x == 4 || x == 5);
            assert_eq!(out[y * 10 + x], on, "({}, {})", x, y);
        }
    }
}

#[test]
fn canny_of_a_horizontal_step() {
    let gray: Vec<Single> = (0..60).map(|i| s(if i / 6 < 5 { 63.75 } else { 0.0 })).collect();
    let out = canny::<Ieee>(&gray, 6, 10, s(0.3));
    for y in 0..10usize {
        for x in 0..6usize {
            let on = (1..5).contains(&x) && (y == 4 || y == 5);
            assert_eq!(out[y * 6 + x], on, "({}, {})", x, y);
        }
    }
}

/// A 7 by 7 raster with level 64 where `inside` holds and 0 elsewhere.
fn seven(inside: fn(usize, usize) -> bool) -> Vec<Single> {
    (0..49).map(|i| s(if inside(i % 7, i / 7) { 64.0 } else { 0.0 })).collect()
}

/// The set pixels of a 7 by 7 map are the inner ones for which `on` holds.
fn assert_seven(out: &[bool], on: fn(usize, usize) -> bool) {
    for y in 0..7usize {
        for x in 0..7usize {
            let inner = (1..6).contains(&x) && (1..6).contains(&y);
            assert_eq!(out[y * 7 + x], inner && on(x, y), "({}, {})", x, y);
        }
    }
}

#[test]
fn canny_of_a_step_towards_the_lower_right() {
    let out = canny::<Ieee>(&seven(|x, y| x + y >= 6), 7, 7, s(1.0));
    assert_seven(&out, |x, y| x + y == 5 || x + y == 6);
    // The same edge with the gradient towards the upper left.
    let out = canny::<Ieee>(&seven(|x, y| x + y <= 6), 7, 7, s(1.0));
    assert_seven(&out, |x, y| x + y == 6 || x + y == 7);
}

#[test]
fn canny_of_a_step_towards_the_lower_left() {
    let out = canny::<Ieee>(&seven(|x, y| y >= x), 7, 7, s(1.0));
    assert_seven(&out, |x, y| y == x || y + 1 == x);
    // The same edge with the gradient towards the upper right.
    let out = canny::<Ieee>(&seven(|x, y| x >= y), 7, 7, s(1.0));
    assert_seven(&out, |x, y| x == y || x + 1 == y);
}

#[test]
fn suppression_compares_along_the_gradient() {
    // The flanks of a diagonal step have a third of its gradient.
    let grads = sobel::<Ieee>(&seven(|x, y| x + y >= 6), 7, 7);
    let mag = |x: usize, y: usize| f(grads[y * 7 + x].mag);
    assert!((mag(2, 2) * 3.0 - mag(2, 3)).abs() < 1e-3);
    assert!((mag(3, 4) * 3.0 - mag(3, 3)).abs() < 1e-3);
    let nms = floats(&suppress::<Ieee>(&grads, 7, 7, s(1.0)));
    assert_eq!(nms[2 * 7 + 2], 0.0);
    assert_eq!(nms[3 * 7 + 2], mag(2, 3));
    assert_eq!(nms[3 * 7 + 3], mag(3, 3));
    assert_eq!(nms[4 * 7 + 3], 0.0);
}

#[test]
fn canny_of_a_flat_raster() {
    assert_eq!(canny::<Ieee>(&levels(&[7.0; 64]), 8, 8, s(0.3)), vec![false; 64]);
    assert!(canny::<Ieee>(&[], 0, 0, s(0.3)).is_empty());
}

#[test]
fn distances() {
    assert_eq!(f(dist::<Ieee>(p(1.0, 1.0), p(4.0, 5.0))), 5.0);
    assert_eq!(f(perp_dist::<Ieee>(p(3.0, 4.0), p(0.0, 0.0), p(10.0, 0.0))), 4.0);
    assert_eq!(f(perp_dist::<Ieee>(p(3.0, -4.0), p(10.0, 0.0), p(0.0, 0.0))), 4.0);
    assert_eq!(f(perp_dist::<Ieee>(p(3.0, 4.0), p(0.0, 0.0), p(0.0, 0.0))), 5.0);
    assert_eq!(f(polyline_len::<Ieee>(&points(&[(0.0, 0.0), (3.0, 4.0), (3.0, 5.0)]))), 6.0);
    assert_eq!(f(polyline_len::<Ieee>(&points(&[(8.0, 8.0)]))), 0.0);
    assert_eq!(f(polyline_len::<Ieee>(&[])), 0.0);
}

fn simplify(list: &[(f32, f32)], eps: f32) -> Vec<(f32, f32)> {
    let mut out = Vec::new();
    dp::<Ieee>(&points(list), s(eps), &mut out);
    plain(&out)
}

#[test]
fn simplification_drops_close_points() {
    let line = [(0.0, 0.0), (1.0, 0.1), (2.0, 0.0), (3.0, 2.0), (4.0, 0.0)];
    assert_eq!(simplify(&line, 0.5), vec![(0.0, 0.0), (2.0, 0.0), (3.0, 2.0), (4.0, 0.0)]);
    assert_eq!(simplify(&line, 3.0), vec![(0.0, 0.0), (4.0, 0.0)]);
    assert_eq!(simplify(&line, 0.01), line.to_vec());
}

#[test]
fn simplification_of_few_points() {
    assert!(simplify(&[], 1.0).is_empty());
    assert_eq!(simplify(&[(2.0, 3.0)], 1.0), vec![(2.0, 3.0)]);
    assert_eq!(simplify(&[(2.0, 3.0), (2.0, 3.0)], 1.0), vec![(2.0, 3.0), (2.0, 3.0)]);
    // A negative tolerance ends too.
    assert_eq!(simplify(&[(0.0, 0.0), (1.0, 0.0), (2.0, 0.0)], -1.0).len(), 2);
}

#[test]
fn simplification_appends() {
    let mut out = vec![p(9.0, 9.0)];
    dp::<Ieee>(&points(&[(0.0, 0.0), (1.0, 0.0)]), s(1.0), &mut out);
    assert_eq!(plain(&out), vec![(9.0, 9.0), (0.0, 0.0), (1.0, 0.0)]);
}

#[test]
fn convexity() {
    let square = [(0.0, 0.0), (4.0, 0.0), (4.0, 4.0), (0.0, 4.0)];
    assert!(is_convex::<Ieee>(&points(&square)));
    let mut turned = square;
    turned.reverse();
    assert!(is_convex::<Ieee>(&points(&turned)));
    assert!(!is_convex::<Ieee>(&points(&square[..3])));
    assert!(!is_convex::<Ieee>(&points(&[(0.0, 0.0), (4.0, 0.0), (1.0, 1.0), (0.0, 4.0)])));
    assert!(is_convex::<Ieee>(&points(&[(0.0, 0.0), (2.0, 0.0), (4.0, 0.0), (4.0, 4.0)])));
}

#[test]
fn hull_is_reduced_to_four_corners() {
    let hull = [(0.0, 0.0), (10.0, 0.0), (10.0, 10.0), (5.0, 10.2), (0.0, 10.0)];
    let q = quad_from_hull::<Ieee>(&points(&hull)).unwrap();
    assert_eq!(plain(&q), vec![(0.0, 0.0), (10.0, 0.0), (10.0, 10.0), (0.0, 10.0)]);
}

#[test]
fn hull_without_four_corners() {
    assert!(quad_from_hull::<Ieee>(&points(&[(0.0, 0.0), (9.0, 0.0), (0.0, 9.0)])).is_none());
    let flat = [(0.0, 0.0), (1.0, 0.0), (2.0, 0.0), (3.0, 0.0)];
    assert!(quad_from_hull::<Ieee>(&points(&flat)).is_none());
}

#[test]
fn corners_are_ordered() {
    let want = vec![(1.0, 2.0), (11.0, 1.0), (12.0, 9.0), (0.0, 10.0)];
    let all = [(12.0, 9.0), (1.0, 2.0), (0.0, 10.0), (11.0, 1.0)];
    assert_eq!(plain(&order_corners::<Ieee>(quad(all))), want);
    let again = [(0.0, 10.0), (11.0, 1.0), (1.0, 2.0), (12.0, 9.0)];
    assert_eq!(plain(&order_corners::<Ieee>(quad(again))), want);
}

#[test]
fn corners_of_an_upright_square_are_ordered() {
    // Top right and bottom left have the same sum, top left and bottom right the
    // same difference.
    let want = [(2.0, 2.0), (7.0, 2.0), (7.0, 7.0), (2.0, 7.0)];
    for order in [[0, 1, 2, 3], [3, 2, 1, 0], [2, 0, 3, 1], [1, 3, 0, 2]] {
        let got = order_corners::<Ieee>(quad(order.map(|i: usize| want[i])));
        assert_eq!(plain(&got), want.to_vec());
        assert_eq!(order_corners::<Ieee>(got), got);
    }
}

#[test]
fn extremes_of_a_cloud() {
    let cloud = [(5.0, 5.0), (1.0, 2.0), (6.0, 6.0), (12.0, 9.0), (0.0, 10.0), (11.0, 1.0)];
    let want = vec![(1.0, 2.0), (11.0, 1.0), (12.0, 9.0), (0.0, 10.0)];
    assert_eq!(plain(&extreme_corners::<Ieee>(&points(&cloud))), want);
    assert_eq!(plain(&extreme_corners::<Ieee>(&points(&[(3.0, 4.0)]))), vec![(3.0, 4.0); 4]);
    // Of two points that tie the first is taken.
    let tied = [(2.0, 0.0), (0.0, 2.0)];
    assert_eq!(
        plain(&extreme_corners::<Ieee>(&points(&tied))),
        vec![(2.0, 0.0), (2.0, 0.0), (2.0, 0.0), (0.0, 2.0)]
    );
    // What is not a number never wins; without any number the first point does.
    let odd = [(f32::NAN, 0.0), (1.0, 1.0)];
    assert_eq!(plain(&extreme_corners::<Ieee>(&points(&odd))), vec![(1.0, 1.0); 4]);
}

#[test]
fn area_of_a_quadrilateral() {
    let rect = quad([(1.0, 1.0), (11.0, 1.0), (11.0, 6.0), (1.0, 6.0)]);
    assert_eq!(f(quad_area::<Ieee>(&rect)), 50.0);
    let mut turned = rect;
    turned.reverse();
    assert_eq!(f(quad_area::<Ieee>(&turned)), 50.0);
}

#[test]
fn area_is_the_same_for_turned_and_reversed_corners() {
    let c = quad([(-3.0, 12.0), (990.0, -7.0), (1000.0, 641.0), (15.0, 700.0)]);
    let area = f(quad_area::<Ieee>(&c));
    // Half of 21 - 11880, 634590 + 7000, 700000 - 9615 and 180 + 2100.
    assert_eq!(area, (-11859.0 + 641590.0 + 690385.0 + 2280.0) / 2.0);
    let mut turned = c;
    turned.rotate_left(1);
    assert_eq!(f(quad_area::<Ieee>(&turned)), area);
    let mut reversed = c;
    reversed.reverse();
    assert_eq!(f(quad_area::<Ieee>(&reversed)), area);
}

#[test]
fn metrics_of_turned_corners() {
    let c = quad([(3.0, 5.0), (310.0, 17.0), (301.0, 190.0), (12.0, 177.0)]);
    let mut turned = c;
    turned.rotate_left(1);
    let (r, t) = (quad_metrics::<Ieee>(&c), quad_metrics::<Ieee>(&turned));
    assert_eq!((r.0, r.2), (t.0, t.2));
    assert!((f(r.1) - f(t.1)).abs() <= 1e-4);
    assert!(f(r.0) >= 1.0);
    assert!(f(r.1) > 0.0 && f(r.1) <= 1.0);
    assert!(f(r.2) > 0.0 && f(r.2) <= 1.0);
}

#[test]
fn metrics_of_a_rectangle() {
    let rect = quad([(0.0, 0.0), (10.0, 0.0), (10.0, 20.0), (0.0, 20.0)]);
    let (aspect, angle, side) = quad_metrics::<Ieee>(&rect);
    assert_eq!((f(aspect), f(angle), f(side)), (2.0, 1.0, 1.0));
}

#[test]
fn measures_of_large_corners_are_numbers() {
    let n = 16_777_216.0;
    let c = quad([(0.0, 0.0), (n, 0.0), (n, n), (0.0, n)]);
    let (aspect, angle, side) = quad_metrics::<Ieee>(&c);
    assert_eq!((f(aspect), f(angle), f(side)), (1.0, 1.0, 1.0));
    assert_eq!(f(quad_area::<Ieee>(&c)), n * n);
    // A sliver: a long thin triangle with two corners one pixel apart.
    let c = quad([(0.0, 0.0), (n, 1.0), (n, 2.0), (0.0, 3.0)]);
    let (aspect, angle, side) = quad_metrics::<Ieee>(&c);
    assert!(f(aspect) >= 1.0 && f(aspect) < f32::INFINITY);
    assert!((0.0..=1.0).contains(&f(angle)) && (0.0..=1.0).contains(&f(side)));
}

#[test]
fn metrics_of_a_trapezium() {
    // Parallel sides 8 and 4, height 2: the angles are 45 and 135 degrees.
    let c = quad([(2.0, 0.0), (6.0, 0.0), (8.0, 2.0), (0.0, 2.0)]);
    let (aspect, angle, side) = quad_metrics::<Ieee>(&c);
    assert!((f(aspect) - 6.0 / 8.0f32.sqrt()).abs() < 1e-5);
    assert!(f(angle).abs() < 1e-5);
    assert!((f(side) - 2.0 / 3.0).abs() < 1e-6);
}

#[test]
fn metrics_of_degenerate_corners() {
    let thin = quad([(0.0, 0.0), (9.0, 0.0), (9.0, 1.0), (0.0, 1.0)]);
    let (aspect, angle, side) = quad_metrics::<Ieee>(&thin);
    assert_eq!((f(aspect), f(angle), f(side)), (1.0, 0.0, 0.0));
    let triangle = quad([(0.0, 0.0), (9.0, 0.0), (9.0, 0.0), (0.0, 9.0)]);
    assert_eq!(f(quad_metrics::<Ieee>(&triangle).1), 0.0);
}

#[test]
fn assessment_of_a_card() {
    let c = quad([(0.0, 0.0), (1585.0, 0.0), (1585.0, 1000.0), (0.0, 1000.0)]);
    let det = assess::<Ieee>(c, 2000, 2000, &Params::default());
    assert!(det.found);
    assert_eq!(det.type_code, 1);
    assert_eq!(plain(&det.corners), plain(&c));
    assert!((f(det.confidence) - 1.0).abs() < 1e-6 && f(det.confidence) <= 1.0);
}

#[test]
fn assessment_of_a_document() {
    let c = quad([(0.0, 0.0), (2000.0, 0.0), (2000.0, 1000.0), (0.0, 1000.0)]);
    let det = assess::<Ieee>(c, 2000, 2000, &Params::default());
    assert_eq!(det.type_code, 2);
    assert!((f(det.confidence) - 0.945).abs() < 1e-5);
}

#[test]
fn assessment_at_the_limits_of_a_card() {
    for (width, code) in [(1444.0, 2), (1446.0, 1), (1724.0, 1), (1726.0, 2)] {
        let c = quad([(0.0, 0.0), (width, 0.0), (width, 1000.0), (0.0, 1000.0)]);
        assert_eq!(assess::<Ieee>(c, 2000, 2000, &Params::default()).type_code, code);
    }
}

#[test]
fn assessment_rejects_by_size_and_shape() {
    let c = quad([(0.0, 0.0), (100.0, 0.0), (100.0, 60.0), (0.0, 60.0)]);
    assert!(!assess::<Ieee>(c, 2000, 2000, &Params::default()).found);
    assert!(!assess::<Ieee>(c, 100, 60, &Params::default()).found);
    assert!(assess::<Ieee>(c, 120, 80, &Params::default()).found);
    // A wider limit keeps the answer of a narrower one.
    let mut wider = Params::default();
    wider.max_area_frac = s(1.0);
    let a = assess::<Ieee>(c, 120, 80, &Params::default());
    let b = assess::<Ieee>(c, 120, 80, &wider);
    assert_eq!((a.type_code, a.confidence.bits), (b.type_code, b.confidence.bits));
    assert!(assess::<Ieee>(c, 100, 60, &wider).found);
    let bent = quad([(50.0, 0.0), (51.0, 0.0), (101.0, 50.0), (0.0, 50.0)]);
    assert!(!assess::<Ieee>(bent, 110, 60, &Params::default()).found);
}

#[test]
fn packed_answer() {
    let d = Detection {
        found: true,
        corners: quad([(1.0, 2.0), (3.0, 4.0), (5.0, 6.0), (7.0, 8.0)]),
        type_code: 2,
        confidence: s(0.5),
    };
    let out = floats(&pack::<Ieee>(&d));
    assert_eq!(out, vec![1.0, 1.0, 2.0, 3.0, 4.0, 5.0, 6.0, 7.0, 8.0, 2.0, 0.5]);
    assert_eq!(floats(&pack::<Ieee>(&Detection::none())), vec![0.0; 11]);
}

#[test]
fn linear_systems() {
    let mut a = [[d(0.0), d(2.0)], [d(3.0), d(0.0)]];
    let x = solve_linear::<Ieee, 2>(&mut a, &mut [d(4.0), d(9.0)]).unwrap();
    assert_eq!((g(x[0]), g(x[1])), (3.0, 2.0));
    let mut a = [
        [d(2.0), d(1.0), d(-1.0)],
        [d(-3.0), d(-1.0), d(2.0)],
        [d(-2.0), d(1.0), d(2.0)],
    ];
    let x = solve_linear::<Ieee, 3>(&mut a, &mut [d(8.0), d(-11.0), d(-3.0)]).unwrap();
    for (got, want) in x.iter().zip([2.0, 3.0, -1.0]) {
        assert!((g(*got) - want).abs() < 1e-12);
    }
}

#[test]
fn singular_systems() {
    let mut a = [[d(1.0), d(2.0)], [d(2.0), d(4.0)]];
    assert!(solve_linear::<Ieee, 2>(&mut a, &mut [d(1.0), d(2.0)]).is_none());
    let mut a = [[d(1e-13)]];
    assert!(solve_linear::<Ieee, 1>(&mut a, &mut [d(1.0)]).is_none());
}

#[test]
fn homography_takes_corners_over() {
    let from = quad([(0.0, 0.0), (9.0, 0.0), (9.0, 4.0), (0.0, 4.0)]);
    let to = quad([(3.0, 2.0), (40.0, 6.0), (35.0, 30.0), (1.0, 25.0)]);
    let m: Vec<f64> = homography::<Ieee>(&from, &to).unwrap().iter().map(|x| g(*x)).collect();
    for i in 0..4 {
        let (x, y) = (f(from[i].0) as f64, f(from[i].1) as f64);
        let w = m[6] * x + m[7] * y + 1.0;
        let u = (m[0] * x + m[1] * y + m[2]) / w;
        let v = (m[3] * x + m[4] * y + m[5]) / w;
        assert!((u - f(to[i].0) as f64).abs() < 1e-9);
        assert!((v - f(to[i].1) as f64).abs() < 1e-9);
    }
}

#[test]
fn homography_of_coincident_corners() {
    let from = quad([(0.0, 0.0), (0.0, 0.0), (9.0, 4.0), (0.0, 4.0)]);
    let to = quad([(3.0, 2.0), (40.0, 6.0), (35.0, 30.0), (1.0, 25.0)]);
    assert!(homography::<Ieee>(&from, &to).is_none());
}

#[test]
fn samples_blend_four_pixels() {
    // Levels 0 100 / 50 150 in the first channel, 0 1 / 0 1 in the second.
    let img = [0, 0, 7, 255, 100, 1, 7, 255, 50, 0, 7, 255, 150, 1, 7, 255];
    let at = |x: f32, y: f32| sample_bilinear::<Ieee>(&img, 2, 2, s(x), s(y));
    assert_eq!(at(0.0, 0.0), [0, 0, 7, 255]);
    assert_eq!(at(1.0, 1.0), [150, 1, 7, 255]);
    assert_eq!(at(0.5, 0.5), [75, 1, 7, 255]);
    assert_eq!(at(0.25, 0.0), [25, 0, 7, 255]);
    assert_eq!(at(0.0, 0.5), [25, 0, 7, 255]);
}

#[test]
fn samples_outside_read_the_edge() {
    let img = [0, 0, 7, 255, 100, 1, 7, 255, 50, 0, 7, 255, 150, 1, 7, 255];
    let at = |x: f32, y: f32| sample_bilinear::<Ieee>(&img, 2, 2, s(x), s(y));
    assert_eq!(at(-5.0, -5.0), at(0.0, 0.0));
    assert_eq!(at(9.0, 9.0), at(1.0, 1.0));
    assert_eq!(at(f32::INFINITY, f32::NEG_INFINITY), at(1.0, 0.0));
    assert_eq!(at(f32::NAN, 0.0), [0, 0, 0, 0]);
    assert_eq!(sample_bilinear::<Ieee>(&img, 1, 1, s(3.0), s(3.0)), [0, 0, 7, 255]);
}
