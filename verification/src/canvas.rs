//! The raster canvas: a mutable two-dimensional grid of colors.

use vstd::prelude::*;
use vstd::pervasive::VecAdditionalExecFns;
use vstd::arithmetic::mul::{lemma_mul_inequality, lemma_mul_upper_bound};
use vstd::arithmetic::div_mod::{lemma_fundamental_div_mod, lemma_multiply_divide_lt};
use crate::util::Color;

verus! {

/// The mathematical value of a canvas: its size, its channel count and its
/// pixels in row-major order.
#[verifier::ext_equal]
pub struct CanvasView {
    pub width: nat,
    pub height: nat,
    pub channels: nat,
    pub pixels: Seq<Seq<u8>>,
}

impl CanvasView {
    /// A well-formed canvas has one pixel per grid cell, every pixel has
    /// the canvas's channel count, and the cell count fits the index
    /// arithmetic of the drawing routines.
    pub open spec fn wf(self) -> bool {
        &&& self.pixels.len() == self.width * self.height
        &&& self.width * self.height <= u32::MAX
        &&& forall|i: int| 0 <= i < self.pixels.len() ==> (#[trigger] self.pixels[i]).len() == self.channels
    }

    /// The pixel at column `x` of row `y`.
    pub open spec fn pix(self, x: int, y: int) -> Seq<u8> {
        self.pixels[y * self.width + x]
    }
}

/// Row-major index arithmetic: a coordinate inside the grid addresses a
/// cell inside the pixel sequence.
pub proof fn lemma_grid_index(x: int, y: int, w: int, h: int)
    requires
        0 <= x < w,
        0 <= y < h,
    ensures
        0 <= y * w + x < w * h,
        (y * w + x) % w == x,
        (y * w + x) / w == y,
{
    assert(0 <= y * w + x < w * h && (y * w + x) % w == x && (y * w + x) / w == y)
        by (nonlinear_arith)
        requires 0 <= x < w, 0 <= y < h;
}

/// A mutable two-dimensional grid of colors, addressed by `(x, y)` with the
/// origin in the top-left corner.
#[derive(Debug)]
pub struct Canvas {
    width: u32,
    height: u32,
    channels: usize,
    pixels: Vec<Color>,
}

impl View for Canvas {
    type V = CanvasView;

    closed spec fn view(&self) -> CanvasView {
        CanvasView {
            width: self.width as nat,
            height: self.height as nat,
            channels: self.channels as nat,
            pixels: Seq::new(self.pixels@.len(), |i: int| self.pixels@[i]@),
        }
    }
}

impl Canvas {
    /// A fresh canvas of the given size with every pixel set to
    /// `background`.  Returns `None` when the cell count would overflow the
    /// index arithmetic.
    pub fn new(width: u32, height: u32, background: &Color) -> (r: Option<Canvas>)
        ensures
            match r {
                Some(c) => {
                    &&& c@.wf()
                    &&& c@.width == width
                    &&& c@.height == height
                    &&& c@.channels == background@.len()
                    &&& forall|i: int| 0 <= i < c@.pixels.len() ==> #[trigger] c@.pixels[i] == background@
                },
                None => (width as int) * (height as int) > u32::MAX,
            },
    {
        proof {
            lemma_mul_upper_bound(width as int, u32::MAX as int, height as int, u32::MAX as int);
        }
        let total: u64 = (width as u64) * (height as u64);
        if total > (u32::MAX as u64) {
            return None;
        }
        let mut pixels: Vec<Color> = Vec::new();
        let mut i: u64 = 0;
        while i < total
            invariant
                total <= u32::MAX,
                i <= total,
                pixels@.len() == i,
                forall|j: int| 0 <= j < i ==> (#[trigger] pixels@[j])@ == background@,
            decreases total - i,
        {
            pixels.push(background.duplicate());
            i += 1;
        }
        Some(Canvas { width, height, channels: background.channels.len(), pixels })
    }

    pub fn width(&self) -> (r: u32)
        ensures
            r == self@.width,
    {
        self.width
    }

    pub fn height(&self) -> (r: u32)
        ensures
            r == self@.height,
    {
        self.height
    }

    /// The channel count shared by every pixel.
    pub fn channels(&self) -> (r: usize)
        ensures
            r == self@.channels,
    {
        self.channels
    }

    /// The color stored at `(x, y)`.
    pub fn get_pixel(&self, x: u32, y: u32) -> (r: Color)
        requires
            self@.wf(),
            x < self@.width,
            y < self@.height,
        ensures
            r@ == self@.pix(x as int, y as int),
    {
        proof {
            lemma_grid_index(x as int, y as int, self@.width as int, self@.height as int);
        }
        let idx: u64 = (y as u64) * (self.width as u64) + (x as u64);
        self.pixels[idx as usize].duplicate()
    }

    /// Stores `color` at `(x, y)`; every other pixel keeps its value.
    pub fn draw_pixel(&mut self, x: u32, y: u32, color: Color)
        requires
            old(self)@.wf(),
            x < old(self)@.width,
            y < old(self)@.height,
            color@.len() == old(self)@.channels,
        ensures
            final(self)@.wf(),
            final(self)@.width == old(self)@.width,
            final(self)@.height == old(self)@.height,
            final(self)@.channels == old(self)@.channels,
            final(self)@.pixels =~= old(self)@.pixels.update(
                (y as int) * (old(self)@.width as int) + (x as int),
                color@,
            ),
    {
        proof {
            lemma_grid_index(x as int, y as int, self@.width as int, self@.height as int);
        }
        let idx: u64 = (y as u64) * (self.width as u64) + (x as u64);
        self.pixels.set(idx as usize, color);
        proof {
            let i = (y as int) * (old(self)@.width as int) + (x as int);
            assert(self@.pixels =~= old(self)@.pixels.update(i, color@));
            assert forall|j: int| 0 <= j < self@.pixels.len()
                implies (#[trigger] self@.pixels[j]).len() == self@.channels by {
                if j != i {
                    assert(self@.pixels[j] == old(self)@.pixels[j]);
                }
            }
        }
    }

    /// A fresh canvas with the same size and pixel values.
    pub fn duplicate(&self) -> (r: Canvas)
        ensures
            r@ =~~= self@,
    {
        let mut pixels: Vec<Color> = Vec::new();
        let n = self.pixels.len();
        let mut i: usize = 0;
        while i < n
            invariant
                n == self.pixels@.len(),
                i <= n,
                pixels@.len() == i,
                forall|j: int| 0 <= j < i ==> (#[trigger] pixels@[j])@ == self.pixels@[j]@,
            decreases n - i,
        {
            pixels.push(self.pixels[i].duplicate());
            i += 1;
        }
        Canvas { width: self.width, height: self.height, channels: self.channels, pixels }
    }
}


/// The canvas scaled to `nw` by `nh` cells with nearest-neighbor
/// sampling: output cell `(x, y)` carries the input cell
/// `(x * width / nw, y * height / nh)`.
pub open spec fn resize_view(cv: CanvasView, nw: nat, nh: nat) -> CanvasView {
    CanvasView {
        width: nw,
        height: nh,
        channels: cv.channels,
        pixels: Seq::new(
            nw * nh,
            |i: int|
                {
                    let x = i % (nw as int);
                    let y = i / (nw as int);
                    cv.pix(
                        x * (cv.width as int) / (nw as int),
                        y * (cv.height as int) / (nh as int),
                    )
                },
        ),
    }
}

/// The canvas with `src` copied on top at offset `(ox, oy)`: cells under
/// `src` carry the matching `src` pixel, every other cell keeps its
/// value.  Parts of `src` falling outside the canvas are skipped.
pub open spec fn overlay_view(cv: CanvasView, sv: CanvasView, ox: int, oy: int) -> CanvasView {
    CanvasView {
        width: cv.width,
        height: cv.height,
        channels: cv.channels,
        pixels: Seq::new(
            cv.pixels.len(),
            |i: int|
                {
                    let sx = i % (cv.width as int) - ox;
                    let sy = i / (cv.width as int) - oy;
                    if 0 <= sx < sv.width && 0 <= sy < sv.height {
                        sv.pix(sx, sy)
                    } else {
                        cv.pixels[i]
                    }
                },
        ),
    }
}

impl Canvas {
    /// A fresh canvas of `nw` by `nh` cells sampled from this one by
    /// nearest neighbor.  Returns `None` when the new cell count would
    /// overflow the index arithmetic.
    pub fn resize_nearest(&self, nw: u32, nh: u32) -> (r: Option<Canvas>)
        requires
            self@.wf(),
            self@.width > 0,
            self@.height > 0,
        ensures
            match r {
                Some(c) => {
                    &&& (nw as int) * (nh as int) <= u32::MAX
                    &&& c@.wf()
                    &&& c@ =~~= resize_view(self@, nw as nat, nh as nat)
                },
                None => (nw as int) * (nh as int) > u32::MAX,
            },
    {
        proof {
            lemma_mul_upper_bound(nw as int, u32::MAX as int, nh as int, u32::MAX as int);
        }
        let total: u64 = (nw as u64) * (nh as u64);
        if total > (u32::MAX as u64) {
            return None;
        }
        let ghost target = resize_view(self@, nw as nat, nh as nat);
        let mut pixels: Vec<Color> = Vec::new();
        let mut y: u32 = 0;
        while y < nh
            invariant
                self@.wf(),
                self@.width > 0,
                self@.height > 0,
                y <= nh,
                (nw as int) * (nh as int) <= u32::MAX,
                target == resize_view(self@, nw as nat, nh as nat),
                pixels@.len() == y * nw,
                forall|i: int| 0 <= i < pixels@.len() ==> (#[trigger] pixels@[i])@ == target.pixels[i],
            decreases nh - y,
        {
            let mut x: u32 = 0;
            while x < nw
                invariant
                    self@.wf(),
                    self@.width > 0,
                    self@.height > 0,
                    y < nh,
                    x <= nw,
                    (nw as int) * (nh as int) <= u32::MAX,
                    target == resize_view(self@, nw as nat, nh as nat),
                    pixels@.len() == y * nw + x,
                    forall|i: int| 0 <= i < pixels@.len() ==> (#[trigger] pixels@[i])@ == target.pixels[i],
                decreases nw - x,
            {
                proof {
                    lemma_mul_upper_bound(x as int, u32::MAX as int, self@.width as int, u32::MAX as int);
                    lemma_mul_upper_bound(y as int, u32::MAX as int, self@.height as int, u32::MAX as int);
                    assert((x as int) * (self@.width as int) < (nw as int) * (self@.width as int))
                        by (nonlinear_arith)
                        requires x < nw, self@.width > 0;
                    assert((y as int) * (self@.height as int) < (nh as int) * (self@.height as int))
                        by (nonlinear_arith)
                        requires y < nh, self@.height > 0;
                    assert((x as int) * (self@.width as int) >= 0 && (y as int) * (self@.height as int) >= 0)
                        by (nonlinear_arith)
                        requires x >= 0, y >= 0, self@.width > 0, self@.height > 0;
                    lemma_multiply_divide_lt((x as int) * (self@.width as int), nw as int, self@.width as int);
                    lemma_multiply_divide_lt((y as int) * (self@.height as int), nh as int, self@.height as int);
                }
                let sx: u32 = (((x as u64) * (self.width as u64)) / (nw as u64)) as u32;
                let sy: u32 = (((y as u64) * (self.height as u64)) / (nh as u64)) as u32;
                let p = self.get_pixel(sx, sy);
                pixels.push(p);
                proof {
                    lemma_grid_index(x as int, y as int, nw as int, nh as int);
                    assert(pixels@.len() == y * nw + x + 1);
                    let i = (y as int) * (nw as int) + (x as int);
                    assert(i % (nw as int) == x as int && i / (nw as int) == y as int);
                    assert(pixels@[i]@ == target.pixels[i]);
                }
                x += 1;
            }
            proof {
                assert((y + 1) * (nw as int) == y * (nw as int) + nw) by (nonlinear_arith);
            }
            y += 1;
        }
        proof {
            assert(pixels@.len() == (nh as int) * (nw as int));
            assert((nh as int) * (nw as int) == (nw as int) * (nh as int)) by (nonlinear_arith);
        }
        let c = Canvas { width: nw, height: nh, channels: self.channels, pixels };
        proof {
            assert(c@ =~~= target);
            assert forall|i: int| 0 <= i < target.pixels.len()
                implies (#[trigger] target.pixels[i]).len() == self@.channels by {
                assert(target.pixels.len() == nw * nh);
                assert(nw > 0 && nh > 0) by (nonlinear_arith)
                    requires 0 <= i < (nw as nat) * (nh as nat);
                let xx = i % (nw as int);
                let yy = i / (nw as int);
                lemma_fundamental_div_mod(i, nw as int);
                assert(0 <= xx < nw);
                lemma_multiply_divide_lt(i, nw as int, nh as int);
                assert(0 <= yy < nh);
                assert(xx * (self@.width as int) < (nw as int) * (self@.width as int))
                    by (nonlinear_arith)
                    requires 0 <= xx < nw, self@.width > 0;
                assert(yy * (self@.height as int) < (nh as int) * (self@.height as int))
                    by (nonlinear_arith)
                    requires 0 <= yy < nh, self@.height > 0;
                assert(xx * (self@.width as int) >= 0 && yy * (self@.height as int) >= 0)
                    by (nonlinear_arith)
                    requires 0 <= xx, 0 <= yy, self@.width > 0, self@.height > 0;
                lemma_multiply_divide_lt(xx * (self@.width as int), nw as int, self@.width as int);
                lemma_multiply_divide_lt(yy * (self@.height as int), nh as int, self@.height as int);
                lemma_grid_index(
                    xx * (self@.width as int) / (nw as int),
                    yy * (self@.height as int) / (nh as int),
                    self@.width as int,
                    self@.height as int,
                );
            }
        }
        Some(c)
    }

    /// Copies `src` on top of this canvas at offset `(ox, oy)`, clipping
    /// the parts that fall outside.
    pub fn overlay(&mut self, src: &Canvas, ox: i64, oy: i64)
        requires
            old(self)@.wf(),
            src@.wf(),
            src@.channels == old(self)@.channels,
        ensures
            final(self)@.wf(),
            final(self)@.width == old(self)@.width,
            final(self)@.height == old(self)@.height,
            final(self)@.channels == old(self)@.channels,
            final(self)@ =~~= overlay_view(old(self)@, src@, ox as int, oy as int),
    {
        let ghost cv0 = old(self)@;
        let ghost sv = src@;
        let sw = src.width();
        let sh = src.height();
        let mut sy: u32 = 0;
        while sy < sh
            invariant
                self@.wf(),
                self@.width == cv0.width,
                self@.height == cv0.height,
                self@.channels == cv0.channels,
                self@.pixels.len() == cv0.pixels.len(),
                cv0.wf(),
                sv.wf(),
                sv.channels == cv0.channels,
                sw == sv.width,
                sh == sv.height,
                sv == src@,
                sy <= sh,
                forall|i: int|
                    0 <= i < cv0.pixels.len() ==> #[trigger] self@.pixels[i] == ({
                        let px = i % (cv0.width as int) - ox;
                        let py = i / (cv0.width as int) - oy;
                        if 0 <= px < sv.width && 0 <= py < sv.height && py < sy {
                            overlay_view(cv0, sv, ox as int, oy as int).pixels[i]
                        } else {
                            cv0.pixels[i]
                        }
                    }),
            decreases sh - sy,
        {
            let mut sx: u32 = 0;
            while sx < sw
                invariant
                    self@.wf(),
                    self@.width == cv0.width,
                    self@.height == cv0.height,
                    self@.channels == cv0.channels,
                    self@.pixels.len() == cv0.pixels.len(),
                    cv0.wf(),
                    sv.wf(),
                    sv.channels == cv0.channels,
                    sw == sv.width,
                    sh == sv.height,
                    sv == src@,
                    sy < sh,
                    sx <= sw,
                    forall|i: int|
                        0 <= i < cv0.pixels.len() ==> #[trigger] self@.pixels[i] == ({
                            let px = i % (cv0.width as int) - ox;
                            let py = i / (cv0.width as int) - oy;
                            if 0 <= px < sv.width && 0 <= py < sv.height && (py < sy || (py == sy
                                && px < sx)) {
                                overlay_view(cv0, sv, ox as int, oy as int).pixels[i]
                            } else {
                                cv0.pixels[i]
                            }
                        }),
                decreases sw - sx,
            {
                let dx: i128 = (ox as i128) + (sx as i128);
                let dy: i128 = (oy as i128) + (sy as i128);
                if dx >= 0 && dx < (self.width as i128) && dy >= 0 && dy < (self.height as i128) {
                    let ix: u32 = dx as u32;
                    let iy: u32 = dy as u32;
                    let ghost idx = (iy as int) * (cv0.width as int) + (ix as int);
                    proof {
                        lemma_grid_index(ix as int, iy as int, cv0.width as int, cv0.height as int);
                        lemma_grid_index(sx as int, sy as int, sv.width as int, sv.height as int);
                    }
                    let p = src.get_pixel(sx, sy);
                    let ghost pre = self@;
                    self.draw_pixel(ix, iy, p);
                    proof {
                        assert(idx % (cv0.width as int) == ix as int && idx / (cv0.width as int)
                            == iy as int);
                        assert(self@.pixels[idx] == overlay_view(
                            cv0,
                            sv,
                            ox as int,
                            oy as int,
                        ).pixels[idx]);
                        assert forall|i: int|
                            0 <= i < cv0.pixels.len() implies #[trigger] self@.pixels[i] == ({
                            let px = i % (cv0.width as int) - ox;
                            let py = i / (cv0.width as int) - oy;
                            if 0 <= px < sv.width && 0 <= py < sv.height && (py < sy || (py == sy
                                && px < sx + 1)) {
                                overlay_view(cv0, sv, ox as int, oy as int).pixels[i]
                            } else {
                                cv0.pixels[i]
                            }
                        }) by {
                            let wdt = cv0.width as int;
                            lemma_fundamental_div_mod(i, wdt);
                            assert(wdt * (i / wdt) == (i / wdt) * wdt) by (nonlinear_arith);
                            if i != idx {
                                assert(self@.pixels[i] == pre.pixels.update(idx, p@)[i]);
                                assert(self@.pixels[i] == pre.pixels[i]);
                                assert(!(i % wdt == ix as int && i / wdt == iy as int));
                            }
                        }
                    }
                } else {
                    proof {
                        assert forall|i: int|
                            0 <= i < cv0.pixels.len() implies #[trigger] self@.pixels[i] == ({
                            let px = i % (cv0.width as int) - ox;
                            let py = i / (cv0.width as int) - oy;
                            if 0 <= px < sv.width && 0 <= py < sv.height && (py < sy || (py == sy
                                && px < sx + 1)) {
                                overlay_view(cv0, sv, ox as int, oy as int).pixels[i]
                            } else {
                                cv0.pixels[i]
                            }
                        }) by {
                            let wdt = cv0.width as int;
                            lemma_fundamental_div_mod(i, wdt);
                            assert(wdt * (i / wdt) == (i / wdt) * wdt) by (nonlinear_arith);
                            let px = i % wdt - ox;
                            let py = i / wdt - oy;
                            if py == sy && px == sx {
                                assert(0 <= i % wdt < cv0.width);
                                assert(0 <= i / wdt < cv0.height) by {
                                    assert(i / wdt < cv0.height) by (nonlinear_arith)
                                        requires
                                            0 <= i < cv0.width * cv0.height,
                                            wdt == cv0.width,
                                            cv0.width > 0,
                                    ;
                                }
                                assert(false);
                            }
                        }
                    }
                }
                sx += 1;
            }
            sy += 1;
        }
        proof {
            assert(final(self)@ =~~= overlay_view(cv0, sv, ox as int, oy as int));
        }
    }
}

} // verus!
