use strata::displacement::{estimate_displacement, image_difference, isqrt, mismatch, Score};
use strata::raster::{RasterImage, Rgb, Vector};

fn image(width: u32, height: u32, f: impl Fn(u32, u32) -> Rgb) -> RasterImage {
    let mut pixels = Vec::new();
    for y in 0..height {
        for x in 0..width {
            pixels.push(f(x, y));
        }
    }
    RasterImage::from_pixels(width, height, pixels).unwrap()
}

fn smooth(x: u32, y: u32) -> Rgb {
    Rgb { r: (x * 4) as u8, g: (y * 4) as u8, b: ((x * y) / 16) as u8 }
}

fn crop(base: &RasterImage, x0: u32, y0: u32, width: u32, height: u32) -> RasterImage {
    image(width, height, |x, y| base.get_pixel(x0 + x, y0 + y))
}

#[test]
fn integer_square_root() {
    assert_eq!(isqrt(0), 0);
    assert_eq!(isqrt(1), 1);
    assert_eq!(isqrt(15), 3);
    assert_eq!(isqrt(16), 4);
    assert_eq!(isqrt(65536 * 25), 1280);
}

#[test]
fn sample_mismatch_is_scaled_distance() {
    let black = Rgb { r: 0, g: 0, b: 0 };
    assert_eq!(mismatch(black, black), 0);
    assert_eq!(mismatch(black, Rgb { r: 3, g: 4, b: 0 }), 1280);
    // floor(256 * 255 * sqrt(3))
    assert_eq!(mismatch(black, Rgb { r: 255, g: 255, b: 255 }), 113068);
}

#[test]
fn difference_of_uniform_rasters() {
    let a = RasterImage::filled(4, 3, Rgb { r: 0, g: 0, b: 0 });
    let b = RasterImage::filled(2, 2, Rgb { r: 3, g: 4, b: 0 });
    assert_eq!(image_difference(&a, &b, Vector::new(1, 1), 1), Some(Score { total: 4 * 1280, samples: 4 }));
    assert_eq!(image_difference(&a, &a, Vector::zeros(), 1), Some(Score { total: 0, samples: 12 }));
}

#[test]
fn difference_without_overlap_is_none() {
    let a = RasterImage::filled(4, 3, Rgb { r: 0, g: 0, b: 0 });
    assert_eq!(image_difference(&a, &a, Vector::new(4, 0), 1), None);
    assert_eq!(image_difference(&a, &a, Vector::new(0, -3), 1), None);
    assert_eq!(image_difference(&a, &a, Vector::new(3, 2), 1), Some(Score { total: 0, samples: 1 }));
}

#[test]
fn difference_counts_sampled_overlap_only() {
    // b overlaps a in columns 2..4 of a; the left half of the overlap differs.
    let a = image(4, 1, |x, _| if x < 3 { Rgb { r: 0, g: 0, b: 0 } } else { Rgb { r: 0, g: 0, b: 10 } });
    let b = RasterImage::filled(5, 1, Rgb { r: 0, g: 0, b: 10 });
    // overlap samples: (black, b) and (blue, b), mismatches 2560 and 0
    assert_eq!(image_difference(&a, &b, Vector::new(2, 0), 1), Some(Score { total: 2560, samples: 2 }));
    // at stride 2 only the first overlap column is sampled
    assert_eq!(image_difference(&a, &b, Vector::new(2, 0), 2), Some(Score { total: 2560, samples: 1 }));
}

#[test]
fn self_alignment_gives_zero_offset_and_score() {
    let a = image(48, 40, smooth);
    let copy = image(48, 40, smooth);
    let d = estimate_displacement(&a, &copy).unwrap();
    assert_eq!(d.offset, Vector::new(0, 0));
    assert_eq!(d.cost, 0);
}

#[test]
fn known_shift_is_recovered() {
    let base = image(64, 64, smooth);
    let shifted = crop(&base, 11, 7, 40, 40);
    let d = estimate_displacement(&base, &shifted).unwrap();
    assert_eq!(d.offset, Vector::new(11, 7));
    assert_eq!(d.cost, 0);
    let even = crop(&base, 10, 20, 36, 36);
    let d = estimate_displacement(&base, &even).unwrap();
    assert_eq!(d.offset, Vector::new(10, 20));
    assert_eq!(d.cost, 0);
}

#[test]
fn known_shift_in_the_other_direction() {
    let base = image(64, 64, smooth);
    let shifted = crop(&base, 11, 7, 40, 40);
    let d = estimate_displacement(&shifted, &base).unwrap();
    assert_eq!(d.offset, Vector::new(-11, -7));
    assert_eq!(d.cost, 0);
}

#[test]
fn estimation_is_repeatable() {
    let base = image(64, 64, smooth);
    let other = image(50, 30, |x, y| smooth(x + 5, y + 9));
    let first = estimate_displacement(&base, &other);
    let second = estimate_displacement(&base, &other);
    assert_eq!(first, second);
}

#[test]
fn empty_raster_has_no_estimate() {
    let a = RasterImage::filled(0, 5, Rgb { r: 0, g: 0, b: 0 });
    let b = RasterImage::filled(5, 5, Rgb { r: 0, g: 0, b: 0 });
    assert_eq!(estimate_displacement(&a, &b), None);
}

#[test]
fn one_step_difference_is_not_a_match() {
    let a = RasterImage::filled(257, 1, Rgb { r: 0, g: 0, b: 0 });
    let b = image(257, 1, |x, _| if x == 100 { Rgb { r: 0, g: 0, b: 1 } } else { Rgb { r: 0, g: 0, b: 0 } });
    let s = image_difference(&a, &b, Vector::zeros(), 1).unwrap();
    assert_eq!(s, Score { total: 256, samples: 257 });
    assert!(s.cost() > 0);
    // ceil(256 * 65536 / 257)
    assert_eq!(s.cost(), 65281);
    let exact = image_difference(&a, &a, Vector::zeros(), 1).unwrap();
    assert_eq!(exact.cost(), 0);
    assert!(exact.below(&s));
    assert!(!s.below(&exact));
}

#[test]
fn means_are_compared_exactly() {
    let third = Score { total: 1, samples: 3 };
    let half = Score { total: 1, samples: 2 };
    let two_quarters = Score { total: 2, samples: 4 };
    assert!(third.below(&half));
    assert!(!half.below(&third));
    assert!(!half.below(&two_quarters));
    assert!(!two_quarters.below(&half));
    let close = Score { total: 1_000_000_001, samples: 1_000_000_000 };
    let one = Score { total: 1, samples: 1 };
    assert!(one.below(&close));
    assert_eq!(Score { total: 1280, samples: 1 }.cost(), 1280 * 65536);
}
