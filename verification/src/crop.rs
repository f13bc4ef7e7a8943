//! Color-distance matching and the margin-crop bounds scan.

use vstd::prelude::*;

use crate::pixel::{Pixel, PixelBuffer};
use crate::{PanelError, PanelResult};

verus! {

/// Sum of squared per-channel signed differences between two pixels.
pub open spec fn dist2(p: Pixel, s: Pixel) -> int {
    let dr = p.r as int - s.r as int;
    let dg = p.g as int - s.g as int;
    let db = p.b as int - s.b as int;
    let da = p.a as int - s.a as int;
    dr * dr + dg * dg + db * db + da * da
}

/// A pixel matches the reference exactly when its squared channel distance is
/// strictly below the squared tolerance.
pub open spec fn judge_spec(p: Pixel, s: Pixel, tolerance: u32) -> bool {
    dist2(p, s) < tolerance as int * tolerance as int
}

/// The squared channel distance is a sum of squares, hence non-negative.
pub proof fn lemma_dist2_nonneg(p: Pixel, s: Pixel)
    ensures
        dist2(p, s) >= 0,
{
    let dr = p.r as int - s.r as int;
    let dg = p.g as int - s.g as int;
    let db = p.b as int - s.b as int;
    let da = p.a as int - s.a as int;
    assert(dr * dr >= 0 && dg * dg >= 0 && db * db >= 0 && da * da >= 0) by (nonlinear_arith);
}

/// With tolerance zero no pixel matches, not even one identical to the
/// reference: the comparison `0 < 0` is false.
pub proof fn lemma_judge_zero_tolerance(p: Pixel, s: Pixel)
    ensures
        !judge_spec(p, s, 0),
{
    lemma_dist2_nonneg(p, s);
}

/// A pixel identical to the reference matches whenever the tolerance is at
/// least one.
pub proof fn lemma_judge_identical(p: Pixel, tolerance: u32)
    requires
        tolerance >= 1,
    ensures
        judge_spec(p, p, tolerance),
{
    assert(dist2(p, p) == 0);
    assert(tolerance as int * tolerance as int >= 1) by (nonlinear_arith)
        requires
            tolerance as int >= 1,
    ;
}

/// Decides whether `pixel` matches `standard` within `tolerance`.
pub fn judge(pixel: &Pixel, standard: &Pixel, tolerance: u32) -> (r: bool)
    ensures
        r == judge_spec(*pixel, *standard, tolerance),
{
    let dr: i32 = pixel.r as i32 - standard.r as i32;
    let dg: i32 = pixel.g as i32 - standard.g as i32;
    let db: i32 = pixel.b as i32 - standard.b as i32;
    let da: i32 = pixel.a as i32 - standard.a as i32;
    proof {
        assert(dr * dr >= 0 && dr * dr <= 255 * 255) by (nonlinear_arith)
            requires
                -255 <= dr as int <= 255,
        ;
        assert(dg * dg >= 0 && dg * dg <= 255 * 255) by (nonlinear_arith)
            requires
                -255 <= dg as int <= 255,
        ;
        assert(db * db >= 0 && db * db <= 255 * 255) by (nonlinear_arith)
            requires
                -255 <= db as int <= 255,
        ;
        assert(da * da >= 0 && da * da <= 255 * 255) by (nonlinear_arith)
            requires
                -255 <= da as int <= 255,
        ;
    }
    let d2: i32 = dr * dr + dg * dg + db * db + da * da;
    let t: u64 = tolerance as u64;
    proof {
        assert(t as int * t as int <= u64::MAX as int) by (nonlinear_arith)
            requires
                0 <= t as int <= 0xffff_ffff,
        ;
    }
    (d2 as u64) < t * t
}

/// True when the cell `(x, y)` holds page content: a pixel that does not
/// match the reference color.
pub open spec fn content_at(
    buffer: PixelBuffer,
    standard: Pixel,
    tolerance: u32,
    x: int,
    y: int,
) -> bool {
    buffer.in_bounds(x, y) && !judge_spec(buffer.pixel_at(x, y), standard, tolerance)
}

/// Computes the margin-crop bounds of a page: the tight half-open bounding box
/// `(x_start, x_end, y_start, y_end)` of every pixel that does not match the
/// reference color sampled at `zero_point`. A page with no such pixel keeps
/// its full bounds.
pub fn crop(buffer: &PixelBuffer, color_tolerance: u32, zero_point: (u32, u32)) -> (r:
    PanelResult<(u32, u32, u32, u32)>)
    requires
        buffer.wf(),
    ensures
        match r {
            Ok(b) => {
                let standard = buffer.pixel_at(zero_point.0 as int, zero_point.1 as int);
                &&& buffer.in_bounds(zero_point.0 as int, zero_point.1 as int)
                &&& if exists|x: int, y: int| content_at(*buffer, standard, color_tolerance, x, y) {
                    &&& forall|x: int, y: int|
                        content_at(*buffer, standard, color_tolerance, x, y) ==> b.0 as int <= x
                            < b.1 as int && b.2 as int <= y < b.3 as int
                    &&& exists|x: int, y: int|
                        content_at(*buffer, standard, color_tolerance, x, y) && x == b.0 as int
                    &&& exists|x: int, y: int|
                        content_at(*buffer, standard, color_tolerance, x, y) && x == b.1 as int - 1
                    &&& exists|x: int, y: int|
                        content_at(*buffer, standard, color_tolerance, x, y) && y == b.2 as int
                    &&& exists|x: int, y: int|
                        content_at(*buffer, standard, color_tolerance, x, y) && y == b.3 as int - 1
                } else {
                    b == (0u32, buffer.width, 0u32, buffer.height)
                }
            },
            Err(e) => {
                &&& !buffer.in_bounds(zero_point.0 as int, zero_point.1 as int)
                &&& e == (PanelError::RangeError {
                    x: zero_point.0,
                    y: zero_point.1,
                    x_start: 0,
                    x_end: buffer.width,
                    y_start: 0,
                    y_end: buffer.height,
                })
            },
        },
{
    if !(zero_point.0 < buffer.width && zero_point.1 < buffer.height) {
        return Err(
            PanelError::RangeError {
                x: zero_point.0,
                y: zero_point.1,
                x_start: 0,
                x_end: buffer.width,
                y_start: 0,
                y_end: buffer.height,
            },
        );
    }
    let standard = buffer.get(zero_point.0, zero_point.1);
    let ghost std_px = standard;
    let mut found: bool = false;
    let mut x_min: u32 = 0;
    let mut x_max: u32 = 0;
    let mut y_min: u32 = 0;
    let mut y_max: u32 = 0;
    let ghost mut w_xmin: (int, int) = (0int, 0int);
    let ghost mut w_xmax: (int, int) = (0int, 0int);
    let ghost mut w_ymin: (int, int) = (0int, 0int);
    let ghost mut w_ymax: (int, int) = (0int, 0int);
    let mut y: u32 = 0;
    while y < buffer.height
        invariant
            buffer.wf(),
            standard == std_px,
            std_px == buffer.pixel_at(zero_point.0 as int, zero_point.1 as int),
            y <= buffer.height,
            !found ==> forall|px: int, py: int|
                py < y as int ==> !content_at(*buffer, std_px, color_tolerance, px, py),
            found ==> {
                &&& x_min <= x_max < buffer.width
                &&& y_min <= y_max < buffer.height
                &&& forall|px: int, py: int|
                    content_at(*buffer, std_px, color_tolerance, px, py) && py < y as int
                        ==> x_min as int <= px <= x_max as int && y_min as int <= py <= y_max as int
                &&& content_at(*buffer, std_px, color_tolerance, w_xmin.0, w_xmin.1)
                &&& w_xmin.0 == x_min as int
                &&& content_at(*buffer, std_px, color_tolerance, w_xmax.0, w_xmax.1)
                &&& w_xmax.0 == x_max as int
                &&& content_at(*buffer, std_px, color_tolerance, w_ymin.0, w_ymin.1)
                &&& w_ymin.1 == y_min as int
                &&& content_at(*buffer, std_px, color_tolerance, w_ymax.0, w_ymax.1)
                &&& w_ymax.1 == y_max as int
            },
        decreases buffer.height - y,
    {
        let mut x: u32 = 0;
        while x < buffer.width
            invariant
                buffer.wf(),
                standard == std_px,
                std_px == buffer.pixel_at(zero_point.0 as int, zero_point.1 as int),
                y < buffer.height,
                x <= buffer.width,
                !found ==> forall|px: int, py: int|
                    py < y as int || (py == y as int && px < x as int) ==> !content_at(
                        *buffer,
                        std_px,
                        color_tolerance,
                        px,
                        py,
                    ),
                found ==> {
                    &&& x_min <= x_max < buffer.width
                    &&& y_min <= y_max < buffer.height
                    &&& forall|px: int, py: int|
                        content_at(*buffer, std_px, color_tolerance, px, py) && (py < y as int || (
                        py == y as int && px < x as int)) ==> x_min as int <= px <= x_max as int
                            && y_min as int <= py <= y_max as int
                    &&& content_at(*buffer, std_px, color_tolerance, w_xmin.0, w_xmin.1)
                    &&& w_xmin.0 == x_min as int
                    &&& content_at(*buffer, std_px, color_tolerance, w_xmax.0, w_xmax.1)
                    &&& w_xmax.0 == x_max as int
                    &&& content_at(*buffer, std_px, color_tolerance, w_ymin.0, w_ymin.1)
                    &&& w_ymin.1 == y_min as int
                    &&& content_at(*buffer, std_px, color_tolerance, w_ymax.0, w_ymax.1)
                    &&& w_ymax.1 == y_max as int
                },
            decreases buffer.width - x,
        {
            let p = buffer.get(x, y);
            if !judge(&p, &standard, color_tolerance) {
                proof {
                    assert(content_at(*buffer, std_px, color_tolerance, x as int, y as int));
                }
                if !found {
                    found = true;
                    x_min = x;
                    x_max = x;
                    y_min = y;
                    y_max = y;
                    proof {
                        w_xmin = (x as int, y as int);
                        w_xmax = (x as int, y as int);
                        w_ymin = (x as int, y as int);
                        w_ymax = (x as int, y as int);
                    }
                } else {
                    if x < x_min {
                        x_min = x;
                        proof {
                            w_xmin = (x as int, y as int);
                        }
                    }
                    if x > x_max {
                        x_max = x;
                        proof {
                            w_xmax = (x as int, y as int);
                        }
                    }
                    if y < y_min {
                        y_min = y;
                        proof {
                            w_ymin = (x as int, y as int);
                        }
                    }
                    if y > y_max {
                        y_max = y;
                        proof {
                            w_ymax = (x as int, y as int);
                        }
                    }
                }
            }
            x = x + 1;
        }
        y = y + 1;
    }
    if found {
        proof {
            assert(content_at(*buffer, std_px, color_tolerance, w_xmin.0, w_xmin.1) && w_xmin.0
                == x_min as int);
            assert(content_at(*buffer, std_px, color_tolerance, w_xmax.0, w_xmax.1) && w_xmax.0
                == (x_max + 1) as int - 1);
            assert(content_at(*buffer, std_px, color_tolerance, w_ymin.0, w_ymin.1) && w_ymin.1
                == y_min as int);
            assert(content_at(*buffer, std_px, color_tolerance, w_ymax.0, w_ymax.1) && w_ymax.1
                == (y_max + 1) as int - 1);
        }
        Ok((x_min, x_max + 1, y_min, y_max + 1))
    } else {
        Ok((0, buffer.width, 0, buffer.height))
    }
}

} // verus!
