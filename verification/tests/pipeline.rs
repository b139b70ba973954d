//! The pipeline as a whole, on IEEE 754 arithmetic.

use edgesnap::quad::quad_area;
use edgesnap::{
    detect, detect_frame, warp_card, warp_perspective, Arithmetic, Double, Params, Single,
    RESULT_LEN,
};

struct Ieee;

fn s(x: f32) -> Single {
    Single { bits: x.to_bits() }
}

fn f(x: Single) -> f32 {
    f32::from_bits(x.bits)
}

fn d(x: f64) -> Double {
    Double { bits: x.to_bits() }
}

fn g(x: Double) -> f64 {
    f64::from_bits(x.bits)
}

impl Arithmetic for Ieee {
    fn sum(a: Single, b: Single) -> Single {
        s(f(a) + f(b))
    }
    fn diff(a: Single, b: Single) -> Single {
        s(f(a) - f(b))
    }
    fn prod(a: Single, b: Single) -> Single {
        s(f(a) * f(b))
    }
    fn quot(a: Single, b: Single) -> Single {
        s(f(a) / f(b))
    }
    fn rem(a: Single, b: Single) -> Single {
        s(f(a) % f(b))
    }
    fn sqrt(a: Single) -> Single {
        s(f(a).sqrt())
    }
    fn atan2(a: Single, b: Single) -> Single {
        s(f(a).atan2(f(b)))
    }
    fn acos(a: Single) -> Single {
        s(f(a).acos())
    }
    fn degrees(a: Single) -> Single {
        s(f(a).to_degrees())
    }
    fn floor(a: Single) -> Single {
        s(f(a).floor())
    }
    fn round(a: Single) -> Single {
        s(f(a).round())
    }
    fn from_usize(a: usize) -> Single {
        s(a as f32)
    }
    fn from_i32(a: i32) -> Single {
        s(a as f32)
    }
    fn to_usize(a: Single) -> usize {
        f(a) as usize
    }
    fn to_u8(a: Single) -> u8 {
        f(a) as u8
    }
    fn widen(a: Single) -> Double {
        d(f(a) as f64)
    }
    fn narrow(a: Double) -> Single {
        s(g(a) as f32)
    }
    fn wide_from_usize(a: usize) -> Double {
        d(a as f64)
    }
    fn wide_sum(a: Double, b: Double) -> Double {
        d(g(a) + g(b))
    }
    fn wide_diff(a: Double, b: Double) -> Double {
        d(g(a) - g(b))
    }
    fn wide_prod(a: Double, b: Double) -> Double {
        d(g(a) * g(b))
    }
    fn wide_quot(a: Double, b: Double) -> Double {
        d(g(a) / g(b))
    }
}

/// Dark frame with one bright filled rectangle.
fn make_card(w: usize, h: usize, rx: usize, ry: usize, rw: usize, rh: usize) -> Vec<u8> {
    let mut img = vec![0u8; w * h * 4];
    for px in img.chunks_exact_mut(4) {
        px[0] = 20;
        px[1] = 20;
        px[2] = 20;
        px[3] = 255;
    }
    for y in ry..ry + rh {
        for x in rx..rx + rw {
            let i = (y * w + x) * 4;
            img[i] = 230;
            img[i + 1] = 230;
            img[i + 2] = 230;
            img[i + 3] = 255;
        }
    }
    img
}

#[test]
fn detects_id_card_aspect() {
    let (w, h) = (480, 360);
    let (rw, rh) = (254, 160); // 254/160 = 1.5875, an ID-1 aspect
    let (rx, ry) = ((w - rw) / 2, (h - rh) / 2);
    let img = make_card(w, h, rx, ry, rw, rh);

    let det = detect::<Ieee>(&img, w, h, &Params::default());
    assert!(det.found, "expected a detection");
    assert_eq!(det.type_code, 1, "expected id_card classification");
    assert!(f(det.confidence) > 0.6, "confidence too low: {}", f(det.confidence));

    let tl = (f(det.corners[0].0), f(det.corners[0].1));
    assert!(
        (tl.0 - rx as f32).abs() < 8.0 && (tl.1 - ry as f32).abs() < 8.0,
        "TL corner off: {:?} (want ~({},{}))",
        tl,
        rx,
        ry
    );
    let br = (f(det.corners[2].0), f(det.corners[2].1));
    assert!(
        (br.0 - (rx + rw - 1) as f32).abs() < 8.0 && (br.1 - (ry + rh - 1) as f32).abs() < 8.0,
        "BR corner off: {:?}",
        br
    );
}

#[test]
fn wide_rectangle_classified_as_document() {
    let (w, h) = (480, 360);
    let (rw, rh) = (300, 150); // aspect 2.0 -> document, not an ID card
    let (rx, ry) = ((w - rw) / 2, (h - rh) / 2);
    let img = make_card(w, h, rx, ry, rw, rh);

    let det = detect::<Ieee>(&img, w, h, &Params::default());
    assert!(det.found);
    assert_eq!(det.type_code, 2, "expected document classification");
}

#[test]
fn flat_frame_yields_no_detection() {
    let (w, h) = (320, 240);
    let img = vec![20u8; w * h * 4];
    let det = detect::<Ieee>(&img, w, h, &Params::default());
    assert!(!det.found);
}

#[test]
fn rejects_undersized_input() {
    let det = detect::<Ieee>(&[0u8; 4], 1, 1, &Params::default());
    assert!(!det.found);
}

/// R grows left to right, G grows top to bottom.
fn make_gradient(w: usize, h: usize) -> Vec<u8> {
    let mut img = vec![0u8; w * h * 4];
    for y in 0..h {
        for x in 0..w {
            let i = (y * w + x) * 4;
            img[i] = (x * 255 / (w - 1)) as u8;
            img[i + 1] = (y * 255 / (h - 1)) as u8;
            img[i + 3] = 255;
        }
    }
    img
}

#[test]
fn warp_rectifies_full_rect() {
    let (w, h) = (100, 100);
    let img = make_gradient(w, h);
    let src = [
        (s(0.0), s(0.0)),
        (s(99.0), s(0.0)),
        (s(99.0), s(99.0)),
        (s(0.0), s(99.0)),
    ];
    let out = warp_perspective::<Ieee>(&img, w, h, &src, 50, 50);
    let tl = &out[0..4];
    assert!(tl[0] < 30 && tl[1] < 30, "TL should be the dark corner: {:?}", tl);
    let br = &out[(49 * 50 + 49) * 4..(49 * 50 + 49) * 4 + 4];
    assert!(br[0] > 200 && br[1] > 200, "BR should be the bright corner: {:?}", br);
}

#[test]
fn all_four_corners_are_found() {
    let img = make_card(480, 360, 113, 100, 254, 160);
    let det = detect::<Ieee>(&img, 480, 360, &Params::default());
    let corners: Vec<(f32, f32)> = det.corners.iter().map(|c| (f(c.0), f(c.1))).collect();
    let want: [(f32, f32); 4] = [(113.0, 100.0), (366.0, 100.0), (366.0, 259.0), (113.0, 259.0)];
    for (got, want) in corners.iter().zip(want) {
        assert!((got.0 - want.0).abs() <= 3.0);
        assert!((got.1 - want.1).abs() <= 3.0);
    }
}

/// Dark frame with one bright rectangle about the middle, turned by `angle`, and
/// its corners in the order in which they start out.
fn make_turned_card(
    w: usize,
    h: usize,
    rw: f32,
    rh: f32,
    angle: f32,
) -> (Vec<u8>, [(f32, f32); 4]) {
    let (cx, cy) = (w as f32 / 2.0, h as f32 / 2.0);
    let (sin, cos) = angle.to_radians().sin_cos();
    let mut img = vec![20u8; w * h * 4];
    for y in 0..h {
        for x in 0..w {
            let (dx, dy) = (x as f32 - cx, y as f32 - cy);
            let (u, v) = (dx * cos + dy * sin, dy * cos - dx * sin);
            if u.abs() <= rw / 2.0 && v.abs() <= rh / 2.0 {
                for c in 0..3 {
                    img[(y * w + x) * 4 + c] = 230;
                }
            }
        }
    }
    let corners = [(-1.0, -1.0), (1.0, -1.0), (1.0, 1.0), (-1.0, 1.0)].map(|(a, b): (f32, f32)| {
        let (u, v) = (a * rw / 2.0, b * rh / 2.0);
        (cx + u * cos - v * sin, cy + u * sin + v * cos)
    });
    (img, corners)
}

#[test]
fn turned_cards_are_found() {
    for angle in [-25.0, -10.0, 10.0, 25.0] {
        let (img, want) = make_turned_card(480, 360, 254.0, 160.0, angle);
        let det = detect::<Ieee>(&img, 480, 360, &Params::default());
        assert!(det.found, "{}", angle);
        assert_eq!(det.type_code, 1, "{}", angle);
        assert!((0.0..=1.0).contains(&f(det.confidence)), "{}", angle);
        for (got, want) in det.corners.iter().zip(want) {
            assert!((f(got.0) - want.0).abs() < 8.0, "{}", angle);
            assert!((f(got.1) - want.1).abs() < 8.0, "{}", angle);
        }
    }
}

#[test]
fn frames_below_sixteen_pixels_hold_nothing() {
    let img = make_card(64, 15, 8, 3, 40, 9);
    assert!(!detect::<Ieee>(&img, 64, 15, &Params::default()).found);
    let img = make_card(15, 64, 3, 8, 9, 40);
    assert!(!detect::<Ieee>(&img, 15, 64, &Params::default()).found);
}

#[test]
fn short_buffer_holds_nothing() {
    let mut img = make_card(480, 360, 113, 100, 254, 160);
    assert!(detect::<Ieee>(&img, 480, 360, &Params::default()).found);
    img.pop();
    let det = detect::<Ieee>(&img, 480, 360, &Params::default());
    assert!(!det.found);
    assert_eq!(det.type_code, 0);
    assert_eq!(f(det.confidence), 0.0);
    for corner in det.corners {
        assert_eq!((f(corner.0), f(corner.1)), (0.0, 0.0));
    }
}

#[test]
fn size_that_overflows_holds_nothing() {
    let half = usize::MAX / 2 + 1;
    assert!(!detect::<Ieee>(&[0u8; 16], half, 16, &Params::default()).found);
    assert!(!detect::<Ieee>(&[0u8; 16], half, half, &Params::default()).found);
}

#[test]
fn area_limits_gate_the_answer() {
    let img = make_card(480, 360, 113, 100, 254, 160);
    let mut p = Params::default();
    p.min_area_frac = s(0.5);
    assert!(!detect::<Ieee>(&img, 480, 360, &p).found);
    let mut p = Params::default();
    p.max_area_frac = s(0.2);
    assert!(!detect::<Ieee>(&img, 480, 360, &p).found);
    let mut p = Params::default();
    p.min_component_px = 480 * 360;
    assert!(!detect::<Ieee>(&img, 480, 360, &p).found);
}

#[test]
fn found_area_is_between_the_limits() {
    let img = make_card(480, 360, 113, 100, 254, 160);
    let p = Params::default();
    let det = detect::<Ieee>(&img, 480, 360, &p);
    let share = f(quad_area::<Ieee>(&det.corners)) / (480.0 * 360.0);
    assert!(det.found);
    assert!(f(p.min_area_frac) <= share && share <= f(p.max_area_frac));
}

#[test]
fn default_parameters() {
    let p = Params::default();
    assert_eq!(f(p.strong_frac), 0.30);
    assert_eq!(f(p.min_area_frac), 0.10);
    assert_eq!(f(p.max_area_frac), 0.97);
    assert_eq!(p.min_component_px, 60);
}

#[test]
fn packed_result_of_a_card() {
    let img = make_card(480, 360, 113, 100, 254, 160);
    let det = detect::<Ieee>(&img, 480, 360, &Params::default());
    let out = detect_frame::<Ieee>(&img, 480, 360);
    assert_eq!(out.len(), RESULT_LEN);
    assert_eq!(RESULT_LEN, 11);
    let out: Vec<f32> = out.iter().map(|x| f(*x)).collect();
    assert_eq!(out[0], 1.0);
    for i in 0..4 {
        assert_eq!(out[1 + 2 * i], f(det.corners[i].0));
        assert_eq!(out[2 + 2 * i], f(det.corners[i].1));
    }
    assert_eq!(out[9], 1.0);
    assert_eq!(out[10], f(det.confidence));
    assert!(out[10] > 0.0 && out[10] <= 1.0);
}

#[test]
fn packed_result_of_a_document() {
    let img = make_card(480, 360, 90, 105, 300, 150);
    let out = detect_frame::<Ieee>(&img, 480, 360);
    assert_eq!(f(out[0]), 1.0);
    assert_eq!(f(out[9]), 2.0);
}

#[test]
fn packed_result_of_nothing() {
    let out = detect_frame::<Ieee>(&[20u8; 64 * 64 * 4], 64, 64);
    assert_eq!(out.len(), 11);
    assert!(out.iter().all(|x| f(*x) == 0.0));
}

#[test]
fn warp_of_a_whole_frame_keeps_it() {
    let img = make_gradient(20, 10);
    let src = [
        (s(0.0), s(0.0)),
        (s(19.0), s(0.0)),
        (s(19.0), s(9.0)),
        (s(0.0), s(9.0)),
    ];
    assert_eq!(warp_perspective::<Ieee>(&img, 20, 10, &src, 20, 10), img);
}

#[test]
fn warp_turns_a_frame() {
    // Corners given a quarter turn on: the output's top left is the input's
    // top right.
    let img = make_gradient(8, 8);
    let src = [
        (s(7.0), s(0.0)),
        (s(7.0), s(7.0)),
        (s(0.0), s(7.0)),
        (s(0.0), s(0.0)),
    ];
    let out = warp_perspective::<Ieee>(&img, 8, 8, &src, 8, 8);
    for y in 0..8 {
        for x in 0..8 {
            let from = (x * 8 + (7 - y)) * 4;
            let to = (y * 8 + x) * 4;
            assert_eq!(out[to..to + 4], img[from..from + 4]);
        }
    }
}

#[test]
fn warp_of_four_equal_corners_is_blank() {
    // Corners that coincide give no transform.
    let img = make_gradient(8, 8);
    let src = [(s(3.0), s(3.0)); 4];
    assert_eq!(warp_perspective::<Ieee>(&img, 8, 8, &src, 4, 4), vec![0u8; 64]);
}

#[test]
fn warp_into_one_column_is_blank() {
    // An image of one column has coincident corners of its own.
    let img = make_gradient(8, 8);
    let whole = [
        (s(0.0), s(0.0)),
        (s(7.0), s(0.0)),
        (s(7.0), s(7.0)),
        (s(0.0), s(7.0)),
    ];
    assert_eq!(warp_perspective::<Ieee>(&img, 8, 8, &whole, 1, 4), vec![0u8; 16]);
}

#[test]
fn warp_of_a_bad_frame_is_blank() {
    let src = [
        (s(0.0), s(0.0)),
        (s(7.0), s(0.0)),
        (s(7.0), s(7.0)),
        (s(0.0), s(7.0)),
    ];
    assert_eq!(warp_perspective::<Ieee>(&[9u8; 255], 8, 8, &src, 3, 2), vec![0u8; 24]);
    assert_eq!(warp_perspective::<Ieee>(&[9u8; 400], 1, 8, &src, 3, 2), vec![0u8; 24]);
    assert_eq!(warp_perspective::<Ieee>(&[9u8; 400], 8, 1, &src, 3, 2), vec![0u8; 24]);
    assert!(warp_perspective::<Ieee>(&[9u8; 256], 8, 8, &src, 0, 2).is_empty());
    assert!(warp_perspective::<Ieee>(&[9u8; 256], 8, 8, &src, 2, 0).is_empty());
}

#[test]
fn warp_card_reads_eight_coordinates() {
    let img = make_gradient(20, 10);
    let corners = [
        s(0.0),
        s(0.0),
        s(19.0),
        s(0.0),
        s(19.0),
        s(9.0),
        s(0.0),
        s(9.0),
        s(5.0),
    ];
    assert_eq!(warp_card::<Ieee>(&img, 20, 10, &corners, 20, 10), img);
    assert_eq!(warp_card::<Ieee>(&img, 20, 10, &corners[..8], 20, 10), img);
}

#[test]
fn warp_card_is_empty_on_bad_input() {
    let img = make_gradient(20, 10);
    let corners = [s(0.0), s(0.0), s(19.0), s(0.0), s(19.0), s(9.0), s(0.0), s(9.0)];
    assert!(warp_card::<Ieee>(&img, 20, 10, &corners[..7], 20, 10).is_empty());
    assert!(warp_card::<Ieee>(&img[1..], 20, 10, &corners, 20, 10).is_empty());
    assert!(warp_card::<Ieee>(&img, 1, 10, &corners, 20, 10).is_empty());
    assert!(warp_card::<Ieee>(&img, 20, 1, &corners, 20, 10).is_empty());
    assert!(warp_card::<Ieee>(&img, 20, 10, &corners, 0, 10).is_empty());
}

#[test]
fn opacity_and_trailing_bytes_do_not_matter() {
    let img = make_card(480, 360, 113, 100, 254, 160);
    let want = detect_frame::<Ieee>(&img, 480, 360);
    let mut other = img.clone();
    for (i, px) in other.chunks_exact_mut(4).enumerate() {
        px[3] = (i % 251) as u8;
    }
    other.extend([200, 3, 77, 1, 9]);
    assert_eq!(detect_frame::<Ieee>(&other, 480, 360), want);
}

#[test]
fn every_flat_colour_yields_nothing() {
    for (r, g, b) in [(0, 0, 0), (255, 255, 255), (10, 200, 90), (255, 0, 1)] {
        let mut img = vec![255u8; 40 * 30 * 4];
        for px in img.chunks_exact_mut(4) {
            px[0] = r;
            px[1] = g;
            px[2] = b;
        }
        assert!(!detect::<Ieee>(&img, 40, 30, &Params::default()).found);
    }
}

#[test]
fn wider_area_limits_keep_an_answer() {
    let img = make_card(480, 360, 113, 100, 254, 160);
    let mut wider = Params::default();
    wider.min_area_frac = s(0.01);
    wider.max_area_frac = s(1.0);
    let a = detect::<Ieee>(&img, 480, 360, &Params::default());
    let b = detect::<Ieee>(&img, 480, 360, &wider);
    assert!(a.found && b.found);
    assert_eq!(a.corners, b.corners);
    assert_eq!((a.type_code, a.confidence), (b.type_code, b.confidence));
}

#[test]
fn warp_ignores_trailing_bytes() {
    let img = make_gradient(20, 10);
    let mut longer = img.clone();
    longer.extend([255u8; 80]);
    let src = [
        (s(2.0), s(1.0)),
        (s(17.5), s(0.5)),
        (s(25.0), s(12.0)),
        (s(-3.0), s(8.0)),
    ];
    let out = warp_perspective::<Ieee>(&img, 20, 10, &src, 9, 7);
    assert_eq!(out.len(), 9 * 7 * 4);
    assert_eq!(warp_perspective::<Ieee>(&longer, 20, 10, &src, 9, 7), out);
}

#[test]
fn corner_pixels_are_read_at_the_corners() {
    let img = make_gradient(20, 10);
    let src = [
        (s(2.0), s(1.0)),
        (s(17.0), s(2.0)),
        (s(18.0), s(9.0)),
        (s(3.0), s(8.0)),
    ];
    let out = warp_perspective::<Ieee>(&img, 20, 10, &src, 9, 7);
    let at = |x: usize, y: usize| out[(y * 9 + x) * 4..(y * 9 + x) * 4 + 4].to_vec();
    let pixel = |x: usize, y: usize| img[(y * 20 + x) * 4..(y * 20 + x) * 4 + 4].to_vec();
    assert_eq!(at(0, 0), pixel(2, 1));
    assert_eq!(at(8, 0), pixel(17, 2));
    assert_eq!(at(8, 6), pixel(18, 9));
    assert_eq!(at(0, 6), pixel(3, 8));
}
