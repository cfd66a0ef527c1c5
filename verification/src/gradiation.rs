//! Filling a rectangular region of a canvas with a two-point diagonal
//! linear gradient.

use vstd::prelude::*;
use vstd::arithmetic::mul::lemma_mul_upper_bound;
use crate::canvas::{Canvas, CanvasView, lemma_grid_index};
use crate::util::{Color, Mixer, mix_colors, lemma_mix_boundary};

verus! {

/// A two-point linear gradient: the colors at the start and end corners and
/// the two corner points in canvas coordinates.  Points beyond the canvas
/// are clamped to its edge before use.
#[derive(Debug)]
pub struct Gradiation {
    pub start_color: Color,
    pub end_color: Color,
    pub start_point: (u32, u32),
    pub end_point: (u32, u32),
}

/// The end point lies above or left of the start point once both are
/// clamped to the canvas, so the region's size would underflow.
#[derive(Debug, Clone, Copy, PartialEq, Eq)]
pub struct GeometryError;

/// A coordinate clamped to an inclusive upper bound.
pub open spec fn clamp_coord(v: u32, m: nat) -> int {
    if v > m {
        m as int
    } else {
        v as int
    }
}

/// The clamped start x of the gradient region.
pub open spec fn region_start_x(g: Gradiation, cv: CanvasView) -> int {
    clamp_coord(g.start_point.0, cv.width)
}

/// The clamped start y of the gradient region.
pub open spec fn region_start_y(g: Gradiation, cv: CanvasView) -> int {
    clamp_coord(g.start_point.1, cv.height)
}

/// The clamped end x of the gradient region (exclusive).
pub open spec fn region_end_x(g: Gradiation, cv: CanvasView) -> int {
    clamp_coord(g.end_point.0, cv.width)
}

/// The clamped end y of the gradient region (exclusive).
pub open spec fn region_end_y(g: Gradiation, cv: CanvasView) -> int {
    clamp_coord(g.end_point.1, cv.height)
}

/// The clamped region is a rectangle: its end does not precede its start.
pub open spec fn gradient_ok(g: Gradiation, cv: CanvasView) -> bool {
    &&& region_start_x(g, cv) <= region_end_x(g, cv)
    &&& region_start_y(g, cv) <= region_end_y(g, cv)
}

/// Whether canvas cell `(x, y)` lies inside the clamped gradient region.
pub open spec fn in_gradient_region(g: Gradiation, cv: CanvasView, x: int, y: int) -> bool {
    &&& region_start_x(g, cv) <= x < region_end_x(g, cv)
    &&& region_start_y(g, cv) <= y < region_end_y(g, cv)
}

/// The color the gradient writes at canvas cell `(x, y)`: the two colors
/// mixed at position `((dx / w) + (dy / h)) / 2`, the average of the two
/// normalized axis offsets, which yields a diagonal gradient.
pub open spec fn gradient_pixel(g: Gradiation, cv: CanvasView, x: int, y: int) -> Seq<u8> {
    let w = region_end_x(g, cv) - region_start_x(g, cv);
    let h = region_end_y(g, cv) - region_start_y(g, cv);
    let dx = x - region_start_x(g, cv);
    let dy = y - region_start_y(g, cv);
    mix_colors(g.start_color@, g.end_color@, (dx * h + dy * w) as u64, (2 * w * h) as u64)
}

/// The canvas after the gradient: cells inside the clamped region carry the
/// gradient color for their position, all other cells keep their value.
pub open spec fn gradient_result(cv: CanvasView, g: Gradiation) -> CanvasView {
    CanvasView {
        width: cv.width,
        height: cv.height,
        channels: cv.channels,
        pixels: Seq::new(
            cv.pixels.len(),
            |i: int|
                {
                    let x = i % (cv.width as int);
                    let y = i / (cv.width as int);
                    if in_gradient_region(g, cv, x, y) {
                        gradient_pixel(g, cv, x, y)
                    } else {
                        cv.pixels[i]
                    }
                },
        ),
    }
}

/// Fills the clamped gradient region of `canvas` in place.  Fails with
/// `GeometryError`, leaving the canvas untouched, exactly when the clamped
/// end point precedes the clamped start point on either axis.
pub fn linear_gradient(canvas: &mut Canvas, gradiation: &Gradiation) -> (r: Result<
    (),
    GeometryError,
>)
    requires
        old(canvas)@.wf(),
        gradiation.start_color@.len() == old(canvas)@.channels,
        gradiation.end_color@.len() == old(canvas)@.channels,
    ensures
        final(canvas)@.wf(),
        r is Ok <==> gradient_ok(*gradiation, old(canvas)@),
        r is Ok ==> final(canvas)@ =~~= gradient_result(old(canvas)@, *gradiation),
        r is Err ==> final(canvas)@ =~~= old(canvas)@,
{
    let ghost g = *gradiation;
    let ghost cv0 = old(canvas)@;
    let canvas_width = canvas.width();
    let canvas_height = canvas.height();
    let end_x = if gradiation.end_point.0 > canvas_width {
        canvas_width
    } else {
        gradiation.end_point.0
    };
    let end_y = if gradiation.end_point.1 > canvas_height {
        canvas_height
    } else {
        gradiation.end_point.1
    };
    let start_x = if gradiation.start_point.0 > canvas_width {
        canvas_width
    } else {
        gradiation.start_point.0
    };
    let start_y = if gradiation.start_point.1 > canvas_height {
        canvas_height
    } else {
        gradiation.start_point.1
    };
    if end_x < start_x || end_y < start_y {
        return Err(GeometryError);
    }
    let width = end_x - start_x;
    let height = end_y - start_y;
    if width == 0 || height == 0 {
        assert(final(canvas)@ =~~= gradient_result(cv0, g));
        return Ok(());
    }
    proof {
        lemma_mul_upper_bound(width as int, canvas_width as int, height as int, canvas_height as int);
        assert((2 * (width as int)) * (height as int) == 2 * ((width as int) * (height as int)))
            by (nonlinear_arith);
        assert((width as int) * (height as int) >= 1) by (nonlinear_arith)
            requires width >= 1, height >= 1;
    }
    let den: u64 = 2 * (width as u64) * (height as u64);
    let mixer = Mixer::new(&gradiation.start_color, &gradiation.end_color);
    let mut x: u32 = 0;
    while x < width
        invariant
            canvas@.wf(),
            canvas@.width == cv0.width,
            canvas@.height == cv0.height,
            canvas@.channels == cv0.channels,
            canvas@.pixels.len() == cv0.pixels.len(),
            g.start_color@.len() == cv0.channels,
            g.end_color@.len() == cv0.channels,
            mixer.color1@ == g.start_color@,
            mixer.color2@ == g.end_color@,
            cv0.wf(),
            x <= width,
            width == region_end_x(g, cv0) - region_start_x(g, cv0),
            height == region_end_y(g, cv0) - region_start_y(g, cv0),
            start_x == region_start_x(g, cv0),
            start_y == region_start_y(g, cv0),
            canvas_width == cv0.width,
            canvas_height == cv0.height,
            end_x <= canvas_width,
            end_y <= canvas_height,
            end_x == start_x + width,
            end_y == start_y + height,
            den == 2 * (width as int) * (height as int),
            den > 0,
            forall|i: int|
                0 <= i < cv0.pixels.len() ==> #[trigger] canvas@.pixels[i] == (if in_gradient_region(
                    g,
                    cv0,
                    i % (cv0.width as int),
                    i / (cv0.width as int),
                ) && i % (cv0.width as int) - region_start_x(g, cv0) < x {
                    gradient_result(cv0, g).pixels[i]
                } else {
                    cv0.pixels[i]
                }),
        decreases width - x,
    {
        let mut y: u32 = 0;
        while y < height
            invariant
                canvas@.wf(),
                canvas@.width == cv0.width,
                canvas@.height == cv0.height,
                canvas@.channels == cv0.channels,
                canvas@.pixels.len() == cv0.pixels.len(),
                g.start_color@.len() == cv0.channels,
                g.end_color@.len() == cv0.channels,
                mixer.color1@ == g.start_color@,
                mixer.color2@ == g.end_color@,
                cv0.wf(),
                x < width,
                y <= height,
                width == region_end_x(g, cv0) - region_start_x(g, cv0),
                height == region_end_y(g, cv0) - region_start_y(g, cv0),
                start_x == region_start_x(g, cv0),
                start_y == region_start_y(g, cv0),
                canvas_width == cv0.width,
                canvas_height == cv0.height,
                end_x <= canvas_width,
                end_y <= canvas_height,
                end_x == start_x + width,
                end_y == start_y + height,
                den == 2 * (width as int) * (height as int),
                den > 0,
                forall|i: int|
                    0 <= i < cv0.pixels.len() ==> #[trigger] canvas@.pixels[i] == (if in_gradient_region(
                        g,
                        cv0,
                        i % (cv0.width as int),
                        i / (cv0.width as int),
                    ) && (i % (cv0.width as int) - region_start_x(g, cv0) < x || (i % (
                    cv0.width as int) - region_start_x(g, cv0) == x && i / (cv0.width as int)
                        - region_start_y(g, cv0) < y)) {
                        gradient_result(cv0, g).pixels[i]
                    } else {
                        cv0.pixels[i]
                    }),
            decreases height - y,
        {
            proof {
                assert((x as int) * (height as int) + (y as int) * (width as int) < 2 * ((
                width as int) * (height as int))) by (nonlinear_arith)
                    requires x < width, y < height, width >= 1, height >= 1;
                assert((x as int) * (height as int) >= 0 && (y as int) * (width as int) >= 0)
                    by (nonlinear_arith);
                lemma_mul_upper_bound(x as int, 0xFFFF_FFFF, height as int, 0xFFFF_FFFF);
                lemma_mul_upper_bound(y as int, 0xFFFF_FFFF, width as int, 0xFFFF_FFFF);
            }
            proof {
                assert((2 * (width as int)) * (height as int) == 2 * ((width as int) * (
                height as int))) by (nonlinear_arith);
            }
            let num: u64 = (x as u64) * (height as u64) + (y as u64) * (width as u64);
            let point_color = mixer.at(num, den);
            let cx = x + start_x;
            let cy = y + start_y;
            let ghost idx = (cy as int) * (cv0.width as int) + (cx as int);
            let ghost pre = canvas@;
            proof {
                lemma_grid_index(cx as int, cy as int, cv0.width as int, cv0.height as int);
            }
            canvas.draw_pixel(cx, cy, point_color);
            proof {
                assert(idx % (cv0.width as int) == cx && idx / (cv0.width as int) == cy);
                assert(in_gradient_region(g, cv0, cx as int, cy as int));
                assert(canvas@.pixels[idx] == gradient_result(cv0, g).pixels[idx]);
                assert forall|i: int|
                    0 <= i < cv0.pixels.len() implies #[trigger] canvas@.pixels[i] == (if in_gradient_region(
                        g,
                        cv0,
                        i % (cv0.width as int),
                        i / (cv0.width as int),
                    ) && (i % (cv0.width as int) - region_start_x(g, cv0) < x || (i % (
                    cv0.width as int) - region_start_x(g, cv0) == x && i / (cv0.width as int)
                        - region_start_y(g, cv0) < y + 1)) {
                        gradient_result(cv0, g).pixels[i]
                    } else {
                        cv0.pixels[i]
                    }) by {
                    let wdt = cv0.width as int;
                    vstd::arithmetic::div_mod::lemma_fundamental_div_mod(i, wdt);
                    assert(wdt * (i / wdt) == (i / wdt) * wdt) by (nonlinear_arith);
                    if i != idx {
                        assert(canvas@.pixels[i] == pre.pixels.update(idx, point_color@)[i]);
                        assert(canvas@.pixels[i] == pre.pixels[i]);
                        assert(!(i % wdt == cx && i / wdt == cy));
                    }
                }
            }
            y += 1;
        }
        x += 1;
    }
    assert(final(canvas)@ =~~= gradient_result(cv0, g));
    Ok(())
}

/// The allocating variant: leaves `canvas` untouched and returns a fresh
/// canvas that carries its pixels with the gradient applied.
pub fn linear_gradient_copy(canvas: &Canvas, gradiation: &Gradiation) -> (r: Result<
    Canvas,
    GeometryError,
>)
    requires
        canvas@.wf(),
        gradiation.start_color@.len() == canvas@.channels,
        gradiation.end_color@.len() == canvas@.channels,
    ensures
        r is Ok <==> gradient_ok(*gradiation, canvas@),
        r matches Ok(c) ==> c@.wf() && c@ =~~= gradient_result(canvas@, *gradiation),
{
    let mut copy = canvas.duplicate();
    match linear_gradient(&mut copy, gradiation) {
        Ok(()) => Ok(copy),
        Err(e) => Err(e),
    }
}

/// In a gradient across the whole canvas the top-left pixel carries the
/// start color exactly, and the bottom-right pixel the mix at position
/// `1 - (W + H) / (2 * W * H)`, one step short of 1.
pub proof fn lemma_gradient_corners(cv: CanvasView, g: Gradiation)
    requires
        cv.wf(),
        cv.width >= 1,
        cv.height >= 1,
        g.start_point.0 == 0,
        g.start_point.1 == 0,
        g.end_point.0 == cv.width,
        g.end_point.1 == cv.height,
        g.start_color@.len() == g.end_color@.len(),
    ensures
        gradient_result(cv, g).pix(0, 0) =~= g.start_color@,
        gradient_result(cv, g).pix(cv.width - 1, cv.height - 1) =~= mix_colors(
            g.start_color@,
            g.end_color@,
            (2 * cv.width * cv.height - cv.width - cv.height) as u64,
            (2 * cv.width * cv.height) as u64,
        ),
{
    let w = cv.width as int;
    let h = cv.height as int;
    assert(w * h >= 1 && w * h >= w && w * h >= h) by (nonlinear_arith)
        requires w >= 1, h >= 1;
    assert(2 * w * h == 2 * (w * h)) by (nonlinear_arith);
    lemma_grid_index(0, 0, w, h);
    lemma_grid_index(w - 1, h - 1, w, h);
    assert(in_gradient_region(g, cv, 0, 0));
    assert(gradient_result(cv, g).pix(0, 0) == gradient_pixel(g, cv, 0, 0));
    lemma_mix_boundary(g.start_color@, g.end_color@, (2 * w * h) as u64);
    assert(0 * h + 0 * w == 0) by (nonlinear_arith);
    assert(gradient_pixel(g, cv, 0, 0) =~= g.start_color@);
    assert(in_gradient_region(g, cv, w - 1, h - 1));
    assert(gradient_result(cv, g).pix(w - 1, h - 1) == gradient_pixel(g, cv, w - 1, h - 1));
    assert((w - 1) * h + (h - 1) * w == 2 * w * h - w - h) by (nonlinear_arith);
}

/// Asking for an end point beyond the canvas bounds produces the same
/// output as asking for it clamped to the canvas size.
pub proof fn lemma_gradient_clamping(cv: CanvasView, g1: Gradiation, g2: Gradiation)
    requires
        g1.start_color@ == g2.start_color@,
        g1.end_color@ == g2.end_color@,
        g1.start_point == g2.start_point,
        g2.end_point.0 == clamp_coord(g1.end_point.0, cv.width),
        g2.end_point.1 == clamp_coord(g1.end_point.1, cv.height),
    ensures
        gradient_result(cv, g1) =~~= gradient_result(cv, g2),
{
    assert(region_end_x(g1, cv) == region_end_x(g2, cv));
    assert(region_end_y(g1, cv) == region_end_y(g2, cv));
    assert forall|i: int|
        0 <= i < cv.pixels.len() implies gradient_result(cv, g1).pixels[i] =~= gradient_result(
        cv,
        g2,
    ).pixels[i] by {
        let x = i % (cv.width as int);
        let y = i / (cv.width as int);
        if in_gradient_region(g1, cv, x, y) {
            assert(gradient_pixel(g1, cv, x, y) =~= gradient_pixel(g2, cv, x, y));
        }
    }
}

} // verus!
