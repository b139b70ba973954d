//! Bit patterns, edge maps, components and hulls: nothing here rounds.

use edgesnap::component::largest_component_points;
use edgesnap::detect;
use edgesnap::edge;
use edgesnap::edge::link_edges;
use edgesnap::filter;
use edgesnap::frame::holds_frame;
use edgesnap::hull::convex_hull;
use edgesnap::hysteresis::hysteresis;
use edgesnap::linear;
use edgesnap::morphology::dilate3;
use edgesnap::number;
use edgesnap::polygon;
use edgesnap::quad;
use edgesnap::rectify;
use edgesnap::{Double, Single};

fn s(x: f32) -> Single {
    Single { bits: x.to_bits() }
}

fn d(x: f64) -> Double {
    Double { bits: x.to_bits() }
}

/// A map drawn with `#` for set pixels.
fn map(rows: &[&str]) -> Vec<bool> {
    rows.iter().flat_map(|r| r.chars().map(|c| c == '#')).collect()
}

fn singles() -> Vec<f32> {
    vec![
        f32::NEG_INFINITY,
        f32::MIN,
        -1.5,
        -1.0,
        -f32::MIN_POSITIVE,
        -1e-45,
        -0.0,
        0.0,
        1e-45,
        f32::MIN_POSITIVE,
        0.4,
        1.0,
        2.5,
        f32::MAX,
        f32::INFINITY,
        f32::NAN,
        -f32::NAN,
    ]
}

#[test]
fn singles_compare_as_numbers() {
    for a in singles() {
        assert_eq!(s(a).is_nan(), a.is_nan());
        assert_eq!(s(a).abs().bits, a.abs().to_bits());
        for b in singles() {
            assert_eq!(s(a).less(s(b)), a < b, "{} < {}", a, b);
            assert_eq!(s(a).at_most(s(b)), a <= b, "{} <= {}", a, b);
            assert_eq!(s(a).equals(s(b)), a == b, "{} == {}", a, b);
            if !a.is_nan() && !b.is_nan() && a != b {
                assert_eq!(s(a).larger(s(b)).bits, a.max(b).to_bits());
                assert_eq!(s(a).smaller(s(b)).bits, a.min(b).to_bits());
            }
        }
    }
    assert_eq!(s(f32::NAN).larger(s(1.0)).bits, s(1.0).bits);
    assert_eq!(s(1.0).larger(s(f32::NAN)).bits, s(1.0).bits);
    assert_eq!(s(f32::NAN).smaller(s(1.0)).bits, s(1.0).bits);
    assert_eq!(s(1.0).smaller(s(f32::NAN)).bits, s(1.0).bits);
}

#[test]
fn singles_are_clamped() {
    for a in singles() {
        let r = s(a).clamp(s(0.0), s(1.0));
        if a.is_nan() {
            assert!(r.is_nan());
        } else {
            assert_eq!(f32::from_bits(r.bits), a.clamp(0.0, 1.0));
        }
    }
}

#[test]
fn doubles_compare_as_numbers() {
    let values = [
        f64::NEG_INFINITY,
        -2.0,
        -1e-12,
        -0.0,
        0.0,
        5e-324,
        1e-12,
        1.0,
        f64::MAX,
        f64::INFINITY,
        f64::NAN,
    ];
    for a in values {
        assert_eq!(d(a).is_nan(), a.is_nan());
        assert_eq!(d(a).abs().bits, a.abs().to_bits());
        assert_eq!(d(a).negated().bits, (-a).to_bits());
        for b in values {
            assert_eq!(d(a).less(d(b)), a < b);
            assert_eq!(d(a).at_most(d(b)), a <= b);
            assert_eq!(d(a).equals(d(b)), a == b);
        }
    }
}

#[test]
fn bit_patterns_stand_for_their_numbers() {
    let patterns = [
        (number::ZERO, 0.0f32),
        (number::ONE, 1.0),
        (number::INFINITY, f32::INFINITY),
        (number::NEG_INFINITY, f32::NEG_INFINITY),
        (filter::RED_WEIGHT, 0.299),
        (filter::GREEN_WEIGHT, 0.587),
        (filter::BLUE_WEIGHT, 0.114),
        (filter::THREE, 3.0),
        (edge::TWO, 2.0),
        (edge::LOW_PART, 0.4),
        (edge::HALF_TURN, 180.0),
        (edge::SECTOR_1, 22.5),
        (edge::SECTOR_2, 67.5),
        (edge::SECTOR_3, 112.5),
        (edge::SECTOR_4, 157.5),
        (polygon::TINY_LENGTH, 1e-6),
        (polygon::TOLERANCE_1, 0.02),
        (polygon::TOLERANCE_2, 0.03),
        (polygon::TOLERANCE_3, 0.05),
        (polygon::TOLERANCE_4, 0.08),
        (polygon::TOLERANCE_5, 0.10),
        (quad::HALF, 0.5),
        (quad::MINUS_ONE, -1.0),
        (quad::SHORT_SIDE, 1e-3),
        (quad::FOUR, 4.0),
        (quad::EIGHTH_TURN, 45.0),
        (quad::QUARTER_TURN, 90.0),
        (rectify::CHANNEL_MAX, 255.0),
        (detect::ID1_ASPECT, 1.585),
        (detect::ID1_TOL, 0.14),
        (detect::ANGLE_WEIGHT, 0.45),
        (detect::SIDE_WEIGHT, 0.35),
        (detect::ASPECT_WEIGHT, 0.20),
        (detect::DEFAULT_STRONG_FRAC, 0.30),
        (detect::DEFAULT_MIN_AREA_FRAC, 0.10),
        (detect::DEFAULT_MAX_AREA_FRAC, 0.97),
    ];
    for (bits, value) in patterns {
        assert_eq!(bits, value.to_bits(), "{}", value);
    }
    let wide = [
        (number::WIDE_ZERO, 0.0f64),
        (number::WIDE_ONE, 1.0),
        (linear::TINY_PIVOT, 1e-12),
        (rectify::DENOMINATOR_MIN, 1e-9),
    ];
    for (bits, value) in wide {
        assert_eq!(bits, value.to_bits(), "{}", value);
    }
}

#[test]
fn frame_sizes() {
    assert!(holds_frame(24, 2, 3));
    assert!(holds_frame(25, 2, 3));
    assert!(!holds_frame(23, 2, 3));
    assert!(holds_frame(0, 0, usize::MAX));
    assert!(!holds_frame(usize::MAX, usize::MAX, 2));
    assert!(!holds_frame(usize::MAX, usize::MAX / 2, 1));
}

#[test]
fn dilation_sets_the_block_around() {
    let src = map(&[".....", ".....", "..#..", ".....", "....."]);
    let want = map(&[".....", ".###.", ".###.", ".###.", "....."]);
    assert_eq!(dilate3(&src, 5, 5), want);
}

#[test]
fn dilation_does_not_wrap_around() {
    let src = map(&["...#", "....", "#..."]);
    let want = map(&["..##", "####", "##.."]);
    assert_eq!(dilate3(&src, 4, 3), want);
}

#[test]
fn dilation_of_an_empty_map() {
    assert_eq!(dilate3(&[false; 12], 4, 3), vec![false; 12]);
    assert!(dilate3(&[], 0, 3).is_empty());
}

#[test]
fn dilation_bridges_two_pixels() {
    let src = map(&["......", "#..#..", "......"]);
    let wide = dilate3(&src, 6, 3);
    assert_eq!(largest_component_points(&src, 6, 3, 1).unwrap().len(), 1);
    assert_eq!(largest_component_points(&wide, 6, 3, 1).unwrap().len(), 15);
}

#[test]
fn hysteresis_keeps_what_hangs_on_strong_pixels() {
    let kept = map(&["#.#..", ".#...", "....#"]);
    let strong = map(&["#....", ".....", "....."]);
    let want = map(&["#.#..", ".#...", "....."]);
    assert_eq!(hysteresis(&kept, &strong, 5, 3), want);
}

#[test]
fn hysteresis_needs_a_strong_pixel() {
    let kept = map(&["###", "###"]);
    assert_eq!(hysteresis(&kept, &vec![false; 6], 3, 2), vec![false; 6]);
}

#[test]
fn double_threshold_links_weak_pixels() {
    let nms = [s(0.0), s(5.0), s(3.0), s(0.0), s(3.0), s(4.9)];
    let out = link_edges(&nms, 6, 1, s(3.0), s(5.0));
    assert_eq!(out, vec![false, true, true, false, false, false]);
}

#[test]
fn largest_component_has_the_largest_box() {
    // The diagonal has fewer pixels than the block and a larger box.
    let edges = map(&["###....", "###.#..", "###..#.", "......#", "......."]);
    let mut points = largest_component_points(&edges, 7, 5, 1).unwrap();
    points.sort();
    assert_eq!(points.len(), 9);
    let edges = map(&["##....#", "##...#.", "....#..", "...#...", "......."]);
    let mut points = largest_component_points(&edges, 7, 5, 1).unwrap();
    points.sort();
    assert_eq!(points, vec![(3, 3), (4, 2), (5, 1), (6, 0)]);
}

#[test]
fn component_of_the_least_size_counts() {
    let edges = map(&["##.#", "##..", "...."]);
    assert_eq!(largest_component_points(&edges, 4, 3, 4).unwrap().len(), 4);
    assert!(largest_component_points(&edges, 4, 3, 5).is_none());
    assert!(largest_component_points(&[false; 12], 4, 3, 0).is_none());
    assert!(largest_component_points(&[], 0, 0, 0).is_none());
}

#[test]
fn first_of_equal_components_is_taken() {
    let edges = map(&["..##", "....", "##.."]);
    let mut points = largest_component_points(&edges, 4, 3, 1).unwrap();
    points.sort();
    assert_eq!(points, vec![(2, 0), (3, 0)]);
}

#[test]
fn flood_fill_goes_on_from_the_last_neighbour() {
    let edges = map(&["##", "##"]);
    let points = largest_component_points(&edges, 2, 2, 1).unwrap();
    assert_eq!(points, vec![(0, 0), (1, 0), (1, 1), (0, 1)]);
}

#[test]
fn hull_drops_inner_and_collinear_points() {
    let pts = [(2, 2), (1, 1), (0, 2), (2, 0), (1, 0), (0, 0), (2, 1), (0, 0), (2, 2)];
    assert_eq!(convex_hull(&pts), vec![(0, 0), (2, 0), (2, 2), (0, 2)]);
}

#[test]
fn hull_ignores_the_order_of_points() {
    let mut pts = vec![(3, 0), (0, 1), (5, 4), (2, 6), (1, 1), (4, 3), (0, 5)];
    let hull = convex_hull(&pts);
    pts.reverse();
    assert_eq!(convex_hull(&pts), hull);
    pts.swap(1, 4);
    pts.push((5, 4));
    assert_eq!(convex_hull(&pts), hull);
    assert_eq!(convex_hull(&hull), hull);
}

#[test]
fn hulls_of_few_points() {
    assert!(convex_hull(&[]).is_empty());
    assert_eq!(convex_hull(&[(4, 7), (4, 7)]), vec![(4, 7)]);
    assert_eq!(convex_hull(&[(4, 7), (1, 9)]), vec![(1, 9), (4, 7)]);
    assert_eq!(convex_hull(&[(3, 3), (0, 0), (1, 1), (2, 2)]), vec![(0, 0), (3, 3)]);
    assert_eq!(convex_hull(&[(2, 5), (2, 1), (2, 3)]), vec![(2, 1), (2, 5)]);
}

#[test]
fn hull_of_extreme_coordinates() {
    let (a, b) = (i32::MIN, i32::MAX);
    assert_eq!(
        convex_hull(&[(b, b), (a, a), (a, b), (0, 0), (b, a)]),
        vec![(a, a), (b, a), (b, b), (a, b)]
    );
}

#[test]
fn dilation_of_more_is_more() {
    let fewer = map(&["#....", ".....", "....."]);
    let more = map(&["#....", ".....", "...#."]);
    let (a, b) = (dilate3(&fewer, 5, 3), dilate3(&more, 5, 3));
    assert!(a.iter().zip(&b).all(|(x, y)| !x || *y));
    assert!(more.iter().zip(&b).all(|(x, y)| !x || *y));
}

#[test]
fn components_do_not_overlap() {
    // Three components of different boxes: each is found once the larger ones
    // are gone.
    let mut edges = map(&["###..#", "###.#.", "......", "##...."]);
    let mut seen = Vec::new();
    while let Some(points) = largest_component_points(&edges, 6, 4, 1) {
        for (x, y) in points {
            assert!(edges[y as usize * 6 + x as usize]);
            edges[y as usize * 6 + x as usize] = false;
            seen.push((x, y));
        }
    }
    assert_eq!(seen.len(), 10);
}
