use panels::crop::{crop, judge};
use panels::irrigate::{Area, Flag};
use panels::pixel::{Pixel, PixelBuffer};
use panels::PanelError;

fn white() -> Pixel {
    Pixel::new(255, 255, 255, 255)
}

fn black() -> Pixel {
    Pixel::new(0, 0, 0, 255)
}

#[test]
fn judge_zero_tolerance_rejects_identical_pixel() {
    let p = white();
    assert!(!judge(&p, &p, 0));
    let q = black();
    assert!(!judge(&q, &q, 0));
}

#[test]
fn judge_accepts_identical_pixel_with_positive_tolerance() {
    let p = white();
    assert!(judge(&p, &p, 1));
    assert!(judge(&p, &p, 100));
}

#[test]
fn judge_is_strict_on_the_boundary() {
    let p = Pixel::new(10, 0, 0, 255);
    let s = Pixel::new(0, 0, 0, 255);
    // squared distance 100 is not strictly below tolerance squared 100
    assert!(!judge(&p, &s, 10));
    let q = Pixel::new(9, 0, 0, 255);
    // squared distance 81 is strictly below 100
    assert!(judge(&q, &s, 10));
}

#[test]
fn judge_sums_all_four_channels() {
    let p = Pixel::new(3, 4, 0, 0);
    let s = Pixel::new(0, 0, 3, 4);
    // squared distance 9 + 16 + 9 + 16 = 50
    assert!(judge(&p, &s, 8));
    assert!(!judge(&p, &s, 7));
}

#[test]
fn flag_next_counts_up_from_the_frame() {
    assert_eq!(Flag::Flame.next(), Flag::Territory(0));
    assert_eq!(Flag::Territory(0).next(), Flag::Territory(1));
    assert_eq!(Flag::Territory(41).next(), Flag::Territory(42));
}

#[test]
fn area_calibrate_widens_only_as_needed() {
    let mut a = Area { x_start: 2, x_end: 4, y_start: 2, y_end: 4 };
    a.calibrate(0, 5);
    assert_eq!(a, Area { x_start: 0, x_end: 4, y_start: 2, y_end: 6 });
    let before = a;
    a.calibrate(1, 3);
    assert_eq!(a, before);
}

#[test]
fn area_merge_takes_the_enclosing_box() {
    let a = Area { x_start: 0, x_end: 2, y_start: 1, y_end: 3 };
    let b = Area { x_start: 1, x_end: 5, y_start: 0, y_end: 2 };
    assert_eq!(a.merge(b), Area { x_start: 0, x_end: 5, y_start: 0, y_end: 3 });
}

#[test]
fn crop_finds_the_tight_content_box() {
    let mut buffer = PixelBuffer::new(4, 4, white());
    buffer.set(1, 1, black());
    buffer.set(2, 2, black());
    let bounds = crop(&buffer, 10, (0, 0)).unwrap();
    assert_eq!(bounds, (1, 3, 1, 3));
}

#[test]
fn crop_keeps_full_bounds_without_content() {
    let buffer = PixelBuffer::new(4, 3, white());
    let bounds = crop(&buffer, 10, (0, 0)).unwrap();
    assert_eq!(bounds, (0, 4, 0, 3));
}

#[test]
fn crop_rejects_a_reference_point_outside_the_page() {
    let buffer = PixelBuffer::new(4, 4, white());
    let err = crop(&buffer, 10, (4, 0)).unwrap_err();
    assert_eq!(
        err,
        PanelError::RangeError { x: 4, y: 0, x_start: 0, x_end: 4, y_start: 0, y_end: 4 }
    );
}

#[test]
fn crop_with_zero_tolerance_matches_nothing() {
    // every pixel counts as content, so the box spans the whole page
    let buffer = PixelBuffer::new(3, 3, white());
    let bounds = crop(&buffer, 0, (0, 0)).unwrap();
    assert_eq!(bounds, (0, 3, 0, 3));
}
