//! Text layout: font fallback, glyph measurement, glyph compositing and
//! centered drawing.

use vstd::prelude::*;
use vstd::arithmetic::mul::lemma_mul_upper_bound;
use crate::canvas::{Canvas, CanvasView};
use crate::util::{Color, mix_colors, trunc_div};
use crate::canvas::{overlay_view, resize_view};
use vstd::arithmetic::div_mod::lemma_div_is_ordered;

verus! {

/// The pixel size of rendered glyphs, horizontal and vertical.  It also
/// drives the spacing after each character (`x / 15`) and the sizing of
/// embedded images.
#[derive(Debug, Clone, Copy, PartialEq, Eq, Structural)]
pub struct Scale {
    pub x: u32,
    pub y: u32,
}

/// The mathematical value of a rasterized glyph.
#[verifier::ext_equal]
pub struct GlyphView {
    pub min_x: int,
    pub min_y: int,
    pub width: int,
    pub height: int,
    pub coverage: Seq<u8>,
}

impl GlyphView {
    /// The coverage grid fills the bounding box and the box's far corner
    /// stays within signed 32-bit coordinates.
    pub open spec fn wf(self) -> bool {
        &&& self.width >= 0
        &&& self.height >= 0
        &&& self.coverage.len() == self.width * self.height
        &&& self.min_x + self.width <= i32::MAX
        &&& self.min_y + self.height <= i32::MAX
        &&& self.min_x >= i32::MIN
        &&& self.min_y >= i32::MIN
    }

    /// The coverage weight of glyph cell `(gx, gy)`.
    pub open spec fn cov(self, gx: int, gy: int) -> u8 {
        self.coverage[gy * self.width + gx]
    }
}

/// A glyph rasterized at some scale: its pixel bounding box, positioned so
/// that the font's ascent is already applied, and one anti-aliasing
/// coverage weight per box cell (0 empty, 255 fully covered), row-major.
#[derive(Debug)]
pub struct GlyphRaster {
    pub min_x: i32,
    pub min_y: i32,
    pub width: u32,
    pub height: u32,
    pub coverage: Vec<u8>,
}

impl View for GlyphRaster {
    type V = GlyphView;

    open spec fn view(&self) -> GlyphView {
        GlyphView {
            min_x: self.min_x as int,
            min_y: self.min_y as int,
            width: self.width as int,
            height: self.height as int,
            coverage: self.coverage@,
        }
    }
}

impl GlyphRaster {
    /// Whether the raster data is well formed.
    pub fn check_wf(&self) -> (r: bool)
        ensures
            r == self@.wf(),
    {
        proof {
            lemma_mul_upper_bound(self.width as int, u32::MAX as int, self.height as int, u32::MAX as int);
        }
        let wh: u64 = (self.width as u64) * (self.height as u64);
        let len_ok = (self.coverage.len() as u64) == wh;
        let bx = (self.min_x as i64) + (self.width as i64) <= (i32::MAX as i64);
        let by = (self.min_y as i64) + (self.height as i64) <= (i32::MAX as i64);
        len_ok && bx && by
    }

    /// A fresh raster with the same box and coverage.
    pub fn duplicate(&self) -> (r: GlyphRaster)
        ensures
            r@ =~= self@,
    {
        let mut coverage: Vec<u8> = Vec::new();
        let n = self.coverage.len();
        let mut i: usize = 0;
        while i < n
            invariant
                n == self.coverage@.len(),
                i <= n,
                coverage@ =~= self.coverage@.take(i as int),
            decreases n - i,
        {
            coverage.push(self.coverage[i]);
            assert(coverage@ =~= self.coverage@.take(i + 1));
            i += 1;
        }
        assert(coverage@ =~= self.coverage@);
        GlyphRaster {
            min_x: self.min_x,
            min_y: self.min_y,
            width: self.width,
            height: self.height,
            coverage,
        }
    }
}

/// A font capability: it can say whether it carries a real glyph for a
/// character, and rasterize any character at a scale.  The layout engine
/// is verified for every implementation that meets these contracts; an
/// outside rasterizer is adapted to this trait by unverified glue.
pub trait Font {
    /// Whether the font has a real (non-missing) glyph for `c`.
    spec fn supports_spec(&self, c: char) -> bool;

    /// The glyph produced for `c` at `scale`; `None` when the positioned
    /// glyph has no visible pixel bounding box (a space, for example).
    spec fn glyph_spec(&self, c: char, scale: Scale) -> Option<GlyphView>;

    fn supports(&self, c: char) -> (r: bool)
        ensures
            r == self.supports_spec(c),
    ;

    fn glyph(&self, c: char, scale: Scale) -> (r: Option<GlyphRaster>)
        ensures
            match r {
                Some(g) => self.glyph_spec(c, scale) == Some(g@) && g@.wf(),
                None => self.glyph_spec(c, scale) is None,
            },
    ;
}

/// A font held as plain data: the characters it claims to support, and one
/// prototype glyph returned for every character (as a fixed-shape test
/// face would).  A malformed prototype renders nothing.
#[derive(Debug)]
pub struct MemoryFont {
    pub supported: Vec<char>,
    pub proto: Option<GlyphRaster>,
}

impl Font for MemoryFont {
    open spec fn supports_spec(&self, c: char) -> bool {
        self.supported@.contains(c)
    }

    open spec fn glyph_spec(&self, c: char, scale: Scale) -> Option<GlyphView> {
        match self.proto {
            Some(p) => if p@.wf() {
                Some(p@)
            } else {
                None
            },
            None => None,
        }
    }

    fn supports(&self, c: char) -> (r: bool) {
        let n = self.supported.len();
        let mut i: usize = 0;
        while i < n
            invariant
                n == self.supported@.len(),
                i <= n,
                forall|j: int| 0 <= j < i ==> self.supported@[j] != c,
            decreases n - i,
        {
            if self.supported[i] == c {
                return true;
            }
            i += 1;
        }
        false
    }

    fn glyph(&self, c: char, scale: Scale) -> (r: Option<GlyphRaster>) {
        match &self.proto {
            Some(p) => {
                if p.check_wf() {
                    let g = p.duplicate();
                    proof {
                        assert(g@ =~= p@);
                    }
                    Some(g)
                } else {
                    None
                }
            },
            None => None,
        }
    }
}

/// Resolving a font for a character found no font at all: the list was
/// empty.
#[derive(Debug, Clone, Copy, PartialEq, Eq)]
pub struct NoFontAvailable;

/// The position of the first font at or after `i` that supports `c`.
pub open spec fn first_supporting<F: Font>(fonts: Seq<F>, c: char, i: int) -> Option<int>
    decreases fonts.len() - i when 0 <= i <= fonts.len()
{
    if i >= fonts.len() {
        None
    } else if fonts[i].supports_spec(c) {
        Some(i)
    } else {
        first_supporting(fonts, c, i + 1)
    }
}

/// The font the fallback policy picks for `c`: the first that supports it,
/// else the last font of a non-empty list as the fallback of last resort,
/// else nothing.
pub open spec fn picked_font<F: Font>(fonts: Seq<F>, c: char) -> Option<int> {
    match first_supporting(fonts, c, 0) {
        Some(i) => Some(i),
        None => if fonts.len() > 0 {
            Some(fonts.len() - 1)
        } else {
            None
        },
    }
}

/// An ordered list of fonts, ranked by preference.
#[derive(Debug)]
pub struct Fonts<F: Font> {
    pub fonts: Vec<F>,
}

impl<F: Font> Fonts<F> {
    pub fn new(fonts: Vec<F>) -> (r: Fonts<F>)
        ensures
            r.fonts@ == fonts@,
    {
        Fonts { fonts }
    }

    /// The first font that supports `char`, or the last font in the list
    /// when none does, or `None` only when the list is empty.
    pub fn get_avalible_font(&self, char: char) -> (r: Option<&F>)
        ensures
            match (r, picked_font(self.fonts@, char)) {
                (Some(f), Some(i)) => *f == self.fonts@[i],
                (None, None) => true,
                _ => false,
            },
    {
        let n = self.fonts.len();
        let mut i: usize = 0;
        while i < n
            invariant
                n == self.fonts@.len(),
                i <= n,
                first_supporting(self.fonts@, char, 0) == first_supporting(
                    self.fonts@,
                    char,
                    i as int,
                ),
            decreases n - i,
        {
            if self.fonts[i].supports(char) {
                return Some(&self.fonts[i]);
            }
            i += 1;
        }
        if n > 0 {
            Some(&self.fonts[n - 1])
        } else {
            None
        }
    }
}

/// The width a glyph contributes: the right edge of its box, at least 0.
pub open spec fn glyph_width(g: Option<GlyphView>) -> int {
    match g {
        Some(gv) => if gv.min_x + gv.width > 0 {
            gv.min_x + gv.width
        } else {
            0
        },
        None => 0,
    }
}

/// The height a glyph contributes: the bottom edge of its box, at least 0.
pub open spec fn glyph_height(g: Option<GlyphView>) -> int {
    match g {
        Some(gv) => if gv.min_y + gv.height > 0 {
            gv.min_y + gv.height
        } else {
            0
        },
        None => 0,
    }
}

/// The glyph that the picked font yields for `c`, if any.
pub open spec fn picked_glyph<F: Font>(fonts: Seq<F>, c: char, scale: Scale) -> Option<
    GlyphView,
> {
    match picked_font(fonts, c) {
        Some(i) => fonts[i].glyph_spec(c, scale),
        None => None,
    }
}

/// The cursor advance of one character: its glyph width plus the
/// scale-proportional spacing `scale.x / 15`.
pub open spec fn char_advance<F: Font>(fonts: Seq<F>, c: char, scale: Scale) -> int {
    glyph_width(picked_glyph(fonts, c, scale)) + (scale.x as int) / 15
}

/// The measured width of a text: the sum of its characters' advances.
pub open spec fn text_width<F: Font>(fonts: Seq<F>, s: Seq<char>, scale: Scale) -> int
    decreases s.len(),
{
    if s.len() == 0 {
        0
    } else {
        char_advance(fonts, s[0], scale) + text_width(fonts, s.drop_first(), scale)
    }
}

/// The measured height of a text: the tallest glyph seen.
pub open spec fn text_height<F: Font>(fonts: Seq<F>, s: Seq<char>, scale: Scale) -> int
    decreases s.len(),
{
    if s.len() == 0 {
        0
    } else {
        let h = glyph_height(picked_glyph(fonts, s[0], scale));
        let rest = text_height(fonts, s.drop_first(), scale);
        if h > rest {
            h
        } else {
            rest
        }
    }
}

/// A measured width is never negative.
pub proof fn lemma_text_width_nonneg<F: Font>(fonts: Seq<F>, s: Seq<char>, scale: Scale)
    ensures
        text_width(fonts, s, scale) >= 0,
    decreases s.len(),
{
    if s.len() > 0 {
        lemma_text_width_nonneg(fonts, s.drop_first(), scale);
    }
}

/// Measuring a concatenation adds the widths of the parts: layout is per
/// character, with no cross-character kerning.
pub proof fn lemma_text_width_additive<F: Font>(
    fonts: Seq<F>,
    s1: Seq<char>,
    s2: Seq<char>,
    scale: Scale,
)
    ensures
        text_width(fonts, s1 + s2, scale) == text_width(fonts, s1, scale) + text_width(
            fonts,
            s2,
            scale,
        ),
    decreases s1.len(),
{
    if s1.len() == 0 {
        assert(s1 + s2 =~= s2);
    } else {
        lemma_text_width_additive(fonts, s1.drop_first(), s2, scale);
        assert((s1 + s2).drop_first() =~= s1.drop_first() + s2);
        assert((s1 + s2)[0] == s1[0]);
    }
}

/// Measurement resolver capability: rewrites the text before it is
/// measured (localization or substitution at measurement time).
pub trait SizeResolver {
    /// The rewritten text.
    spec fn resolved_spec(&self, s: Seq<char>) -> Seq<char>;

    fn resolve(&self, s: &Vec<char>) -> (r: Vec<char>)
        ensures
            r@ == self.resolved_spec(s@),
    ;
}

/// A fresh vector with the same characters.
pub fn copy_chars(s: &Vec<char>) -> (r: Vec<char>)
    ensures
        r@ == s@,
{
    let mut out: Vec<char> = Vec::new();
    let n = s.len();
    let mut i: usize = 0;
    while i < n
        invariant
            n == s@.len(),
            i <= n,
            out@ =~= s@.take(i as int),
        decreases n - i,
    {
        out.push(s[i]);
        assert(out@ =~= s@.take(i + 1));
        i += 1;
    }
    assert(out@ =~= s@);
    out
}

/// The identity measurement resolution: the text itself, unchanged.
pub fn empty_size_resolver(s: &Vec<char>) -> (r: Vec<char>)
    ensures
        r@ == s@,
{
    copy_chars(s)
}

/// The identity measurement resolver: measurement sees the text unchanged.
#[derive(Debug, Clone, Copy, PartialEq, Eq, Structural)]
pub struct EmptySizeResolver;

impl SizeResolver for EmptySizeResolver {
    open spec fn resolved_spec(&self, s: Seq<char>) -> Seq<char> {
        s
    }

    fn resolve(&self, s: &Vec<char>) -> (r: Vec<char>) {
        empty_size_resolver(s)
    }
}

impl<F: Font> Fonts<F> {
    /// Lays out one glyph of `font` at the shared baseline: the width and
    /// height it contributes and the raster to composite, if the
    /// positioned glyph has a visible box.
    pub fn layout_glyphs(scale: Scale, font: &F, char: char) -> (r: (i32, i32, Option<
        GlyphRaster,
    >))
        ensures
            ({
                let g = font.glyph_spec(char, scale);
                &&& r.0 == glyph_width(g)
                &&& r.1 == glyph_height(g)
                &&& match r.2 {
                    Some(gr) => g == Some(gr@) && gr@.wf(),
                    None => g is None,
                }
            }),
    {
        match font.glyph(char, scale) {
            Some(g) => {
                let mx: i64 = (g.min_x as i64) + (g.width as i64);
                let my: i64 = (g.min_y as i64) + (g.height as i64);
                let w: i32 = if mx > 0 {
                    mx as i32
                } else {
                    0
                };
                let h: i32 = if my > 0 {
                    my as i32
                } else {
                    0
                };
                (w, h, Some(g))
            },
            None => (0, 0, None),
        }
    }

    /// Measures the resolved text: the width is the sum of the glyph
    /// advances with their spacing, the height the tallest glyph.  Fails
    /// exactly when the font list is empty while the resolved text is not.
    pub fn text_size<R: SizeResolver>(&self, text: &Vec<char>, scale: Scale, resolver: &R) -> (r:
        Result<(i32, i32), NoFontAvailable>)
        requires
            text_width(self.fonts@, resolver.resolved_spec(text@), scale) <= i32::MAX,
        ensures
            ({
                let rs = resolver.resolved_spec(text@);
                match r {
                    Ok(wh) => {
                        &&& (self.fonts@.len() > 0 || rs.len() == 0)
                        &&& wh.0 == text_width(self.fonts@, rs, scale)
                        &&& wh.1 == text_height(self.fonts@, rs, scale)
                    },
                    Err(e) => self.fonts@.len() == 0 && rs.len() > 0,
                }
            }),
    {
        let resolved = resolver.resolve(text);
        let ghost rs = resolved@;
        if resolved.len() > 0 && self.fonts.len() == 0 {
            return Err(NoFontAvailable);
        }
        let mut width: i32 = 0;
        let mut height: i32 = 0;
        let n = resolved.len();
        let mut i: usize = 0;
        proof {
            assert(rs.skip(0) =~= rs);
        }
        while i < n
            invariant
                resolved@ == rs,
                n == rs.len(),
                i <= n,
                n > 0 ==> self.fonts@.len() > 0,
                rs == resolver.resolved_spec(text@),
                text_width(self.fonts@, rs, scale) <= i32::MAX,
                width >= 0,
                height >= 0,
                width + text_width(self.fonts@, rs.skip(i as int), scale) == text_width(
                    self.fonts@,
                    rs,
                    scale,
                ),
                text_height(self.fonts@, rs, scale) == (if text_height(
                    self.fonts@,
                    rs.skip(i as int),
                    scale,
                ) > height {
                    text_height(self.fonts@, rs.skip(i as int), scale)
                } else {
                    height as int
                }),
            decreases n - i,
        {
            let c = resolved[i];
            let font = self.get_avalible_font(c).unwrap();
            let wh = Self::layout_glyphs(scale, font, c);
            proof {
                assert(rs.skip(i as int)[0] == rs[i as int]);
                assert(rs.skip(i as int).drop_first() =~= rs.skip(i as int + 1));
                lemma_text_width_nonneg(self.fonts@, rs.skip(i as int + 1), scale);
                assert(text_width(self.fonts@, rs.skip(i as int), scale) == char_advance(
                    self.fonts@,
                    rs[i as int],
                    scale,
                ) + text_width(self.fonts@, rs.skip(i as int + 1), scale));
                assert(char_advance(self.fonts@, rs[i as int], scale) == wh.0 + (
                scale.x as int) / 15);
                assert(text_height(self.fonts@, rs.skip(i as int), scale) == (if glyph_height(
                    picked_glyph(self.fonts@, rs[i as int], scale),
                ) > text_height(self.fonts@, rs.skip(i as int + 1), scale) {
                    glyph_height(picked_glyph(self.fonts@, rs[i as int], scale))
                } else {
                    text_height(self.fonts@, rs.skip(i as int + 1), scale)
                }));
            }
            let spacing: i32 = (scale.x / 15) as i32;
            width = width + wh.0;
            width = width + spacing;
            if wh.1 > height {
                height = wh.1;
            }
            i += 1;
        }
        proof {
            assert(rs.skip(n as int) =~= Seq::<char>::empty());
        }
        Ok((width, height))
    }
}


/// The canvas after one glyph is composited at cursor `(x, y)`: each cell
/// that the glyph box covers carries the draw color mixed over the cell's
/// previous color at position `(255 - coverage) / 255` (full coverage
/// draws the color, zero coverage keeps the background); every other cell
/// keeps its value.  Glyph cells outside the canvas are skipped.
pub open spec fn composite_glyph(
    cv: CanvasView,
    g: Option<GlyphView>,
    color: Seq<u8>,
    x: int,
    y: int,
) -> CanvasView {
    match g {
        None => cv,
        Some(gv) => CanvasView {
            width: cv.width,
            height: cv.height,
            channels: cv.channels,
            pixels: Seq::new(
                cv.pixels.len(),
                |i: int|
                    {
                        let gx = i % (cv.width as int) - (x + gv.min_x);
                        let gy = i / (cv.width as int) - (y + gv.min_y);
                        if 0 <= gx < gv.width && 0 <= gy < gv.height {
                            mix_colors(
                                color,
                                cv.pixels[i],
                                (255 - gv.cov(gx, gy)) as u64,
                                255u64,
                            )
                        } else {
                            cv.pixels[i]
                        }
                    },
            ),
        },
    }
}

impl<F: Font> Fonts<F> {
    /// Composites one character of `font` onto the canvas at cursor
    /// `(x, y)` and returns the cursor advance: the glyph width plus the
    /// spacing `scale.x / 15`.  Pixels falling outside the canvas are
    /// silently skipped.
    pub fn write_char(
        &self,
        img: &mut Canvas,
        char: char,
        scale: Scale,
        color: &Color,
        x: i32,
        y: i32,
        font: &F,
    ) -> (adv: i32)
        requires
            old(img)@.wf(),
            color@.len() == old(img)@.channels,
            glyph_width(font.glyph_spec(char, scale)) + (scale.x as int) / 15 <= i32::MAX,
        ensures
            final(img)@.wf(),
            final(img)@.width == old(img)@.width,
            final(img)@.height == old(img)@.height,
            final(img)@.channels == old(img)@.channels,
            final(img)@ =~~= composite_glyph(
                old(img)@,
                font.glyph_spec(char, scale),
                color@,
                x as int,
                y as int,
            ),
            adv == glyph_width(font.glyph_spec(char, scale)) + (scale.x as int) / 15,
    {
        let ghost cv0 = old(img)@;
        let ghost gspec = font.glyph_spec(char, scale);
        let wh = Self::layout_glyphs(scale, font, char);
        let spacing: i32 = (scale.x / 15) as i32;
        match wh.2 {
            None => {
                assert(final(img)@ =~~= composite_glyph(cv0, gspec, color@, x as int, y as int));
                wh.0 + spacing
            },
            Some(g) => {
                let ghost gv = g@;
                let gw: u32 = g.width;
                let gh: u32 = g.height;
                let mut gy: u32 = 0;
                while gy < gh
                    invariant
                        img@.wf(),
                        img@.width == cv0.width,
                        img@.height == cv0.height,
                        img@.channels == cv0.channels,
                        img@.pixels.len() == cv0.pixels.len(),
                        cv0.wf(),
                        color@.len() == cv0.channels,
                        gy <= gh,
                        gv.wf(),
                        gw == gv.width,
                        gh == gv.height,
                        gv == g@,
                        gspec == Some(gv),
                        g.min_x == gv.min_x,
                        g.min_y == gv.min_y,
                        forall|i: int|
                            0 <= i < cv0.pixels.len() ==> #[trigger] img@.pixels[i] == ({
                                let px = i % (cv0.width as int) - (x + gv.min_x);
                                let py = i / (cv0.width as int) - (y + gv.min_y);
                                if 0 <= px < gv.width && 0 <= py < gv.height && py < gy {
                                    composite_glyph(cv0, gspec, color@, x as int, y as int).pixels[i]
                                } else {
                                    cv0.pixels[i]
                                }
                            }),
                    decreases gh - gy,
                {
                    let mut gx: u32 = 0;
                    while gx < gw
                        invariant
                            img@.wf(),
                            img@.width == cv0.width,
                            img@.height == cv0.height,
                            img@.channels == cv0.channels,
                            img@.pixels.len() == cv0.pixels.len(),
                            cv0.wf(),
                            color@.len() == cv0.channels,
                            gy < gh,
                            gx <= gw,
                            gv.wf(),
                            gw == gv.width,
                            gh == gv.height,
                            gv == g@,
                            gspec == Some(gv),
                            g.min_x == gv.min_x,
                            g.min_y == gv.min_y,
                            forall|i: int|
                                0 <= i < cv0.pixels.len() ==> #[trigger] img@.pixels[i] == ({
                                    let px = i % (cv0.width as int) - (x + gv.min_x);
                                    let py = i / (cv0.width as int) - (y + gv.min_y);
                                    if 0 <= px < gv.width && 0 <= py < gv.height && (py < gy || (
                                    py == gy && px < gx)) {
                                        composite_glyph(
                                            cv0,
                                            gspec,
                                            color@,
                                            x as int,
                                            y as int,
                                        ).pixels[i]
                                    } else {
                                        cv0.pixels[i]
                                    }
                                }),
                        decreases gw - gx,
                    {
                        proof {
                            crate::canvas::lemma_grid_index(gx as int, gy as int, gv.width, gv.height);
                            lemma_mul_upper_bound(gy as int, u32::MAX as int, gw as int, u32::MAX as int);
                        }
                        let cidx: u64 = (gy as u64) * (gw as u64) + (gx as u64);
                        let cov: u8 = g.coverage[cidx as usize];
                        let image_x: i64 = (x as i64) + (g.min_x as i64) + (gx as i64);
                        let image_y: i64 = (y as i64) + (g.min_y as i64) + (gy as i64);
                        if image_x >= 0 && image_x < (img.width() as i64) && image_y >= 0
                            && image_y < (img.height() as i64) {
                            let ix: u32 = image_x as u32;
                            let iy: u32 = image_y as u32;
                            let ghost idx = (iy as int) * (cv0.width as int) + (ix as int);
                            proof {
                                crate::canvas::lemma_grid_index(
                                    ix as int,
                                    iy as int,
                                    cv0.width as int,
                                    cv0.height as int,
                                );
                            }
                            let pixel = img.get_pixel(ix, iy);
                            proof {
                                assert(pixel@.len() == cv0.channels);
                            }
                            let ghost pre = img@;
                            let mixer = crate::util::Mixer::new(color, &pixel);
                            let weighted = mixer.at((255 - cov) as u64, 255);
                            img.draw_pixel(ix, iy, weighted);
                            proof {
                                assert(idx % (cv0.width as int) == ix as int && idx / (
                                cv0.width as int) == iy as int);
                                assert(pre.pixels[idx] == cv0.pixels[idx]);
                                assert(gv.cov(gx as int, gy as int) == cov);
                                assert(img@.pixels[idx] == composite_glyph(
                                    cv0,
                                    gspec,
                                    color@,
                                    x as int,
                                    y as int,
                                ).pixels[idx]);
                                assert forall|i: int|
                                    0 <= i < cv0.pixels.len() implies #[trigger] img@.pixels[i]
                                    == ({
                                    let px = i % (cv0.width as int) - (x + gv.min_x);
                                    let py = i / (cv0.width as int) - (y + gv.min_y);
                                    if 0 <= px < gv.width && 0 <= py < gv.height && (py < gy || (
                                    py == gy && px < gx + 1)) {
                                        composite_glyph(
                                            cv0,
                                            gspec,
                                            color@,
                                            x as int,
                                            y as int,
                                        ).pixels[i]
                                    } else {
                                        cv0.pixels[i]
                                    }
                                }) by {
                                    let wdt = cv0.width as int;
                                    vstd::arithmetic::div_mod::lemma_fundamental_div_mod(i, wdt);
                                    assert(wdt * (i / wdt) == (i / wdt) * wdt) by (nonlinear_arith);
                                    if i != idx {
                                        assert(img@.pixels[i] == pre.pixels.update(
                                            idx,
                                            weighted@,
                                        )[i]);
                                        assert(img@.pixels[i] == pre.pixels[i]);
                                        assert(!(i % wdt == ix as int && i / wdt == iy as int));
                                    }
                                }
                            }
                        } else {
                            proof {
                                assert forall|i: int|
                                    0 <= i < cv0.pixels.len() implies #[trigger] img@.pixels[i]
                                    == ({
                                    let px = i % (cv0.width as int) - (x + gv.min_x);
                                    let py = i / (cv0.width as int) - (y + gv.min_y);
                                    if 0 <= px < gv.width && 0 <= py < gv.height && (py < gy || (
                                    py == gy && px < gx + 1)) {
                                        composite_glyph(
                                            cv0,
                                            gspec,
                                            color@,
                                            x as int,
                                            y as int,
                                        ).pixels[i]
                                    } else {
                                        cv0.pixels[i]
                                    }
                                }) by {
                                    let wdt = cv0.width as int;
                                    vstd::arithmetic::div_mod::lemma_fundamental_div_mod(i, wdt);
                                    assert(wdt * (i / wdt) == (i / wdt) * wdt) by (nonlinear_arith);
                                    let px = i % wdt - (x + gv.min_x);
                                    let py = i / wdt - (y + gv.min_y);
                                    if 0 <= px < gv.width && py == gy && px == gx {
                                        assert(i % wdt == x + gv.min_x + gx);
                                        assert(i / wdt == y + gv.min_y + gy);
                                        assert(0 <= i % wdt < cv0.width);
                                        assert(0 <= i / wdt < cv0.height) by {
                                            assert(0 <= i < cv0.width * cv0.height);
                                            assert(i / wdt < cv0.height) by (nonlinear_arith)
                                                requires
                                                    0 <= i < cv0.width * cv0.height,
                                                    wdt == cv0.width,
                                                    cv0.width > 0,
                                            ;
                                        }
                                        assert(false);
                                    }
                                }
                            }
                        }
                        gx += 1;
                    }
                    gy += 1;
                }
                proof {
                    assert(final(img)@ =~~= composite_glyph(cv0, gspec, color@, x as int, y as int));
                }
                wh.0 + spacing
            },
        }
    }
}


/// One resolved content run: a literal text run or an embedded sub-canvas
/// to overlay.  Sequence order is rendering order, left to right.
#[derive(Debug)]
pub enum StrOrImg {
    Str(Vec<char>),
    Img(Canvas),
}

/// The mathematical value of a content run.
#[verifier::ext_equal]
pub enum RunView {
    Text(Seq<char>),
    Image(CanvasView),
}

impl View for StrOrImg {
    type V = RunView;

    open spec fn view(&self) -> RunView {
        match self {
            StrOrImg::Str(s) => RunView::Text(s@),
            StrOrImg::Img(c) => RunView::Image(c@),
        }
    }
}

/// The characters of a run; an image run has none.
pub open spec fn run_text(run: RunView) -> Seq<char> {
    match run {
        RunView::Text(s) => s,
        RunView::Image(_) => Seq::empty(),
    }
}

/// Render resolver capability: turns the text into the sequence of
/// content runs that will be drawn (localization or substitution at
/// render time; it may differ from the measurement resolver).
pub trait RunResolver {
    /// The resolved runs.
    spec fn runs_spec(&self, s: Seq<char>) -> Seq<RunView>;

    fn resolve(&self, s: &Vec<char>) -> (r: Vec<StrOrImg>)
        ensures
            r@.len() == self.runs_spec(s@).len(),
            forall|i: int| 0 <= i < r@.len() ==> #[trigger] r@[i]@ == self.runs_spec(s@)[i],
    ;
}

/// The identity render resolution: the whole text as one literal run.
pub fn empty_resolver(s: &Vec<char>) -> (r: Vec<StrOrImg>)
    ensures
        r@.len() == 1,
        r@[0]@ == RunView::Text(s@),
{
    let mut out: Vec<StrOrImg> = Vec::new();
    out.push(StrOrImg::Str(copy_chars(s)));
    out
}

/// The identity render resolver: the text becomes one literal run.
#[derive(Debug, Clone, Copy, PartialEq, Eq, Structural)]
pub struct EmptyResolver;

impl RunResolver for EmptyResolver {
    open spec fn runs_spec(&self, s: Seq<char>) -> Seq<RunView> {
        seq![RunView::Text(s)]
    }

    fn resolve(&self, s: &Vec<char>) -> (r: Vec<StrOrImg>) {
        empty_resolver(s)
    }
}

/// The engine state while runs are drawn: the canvas so far and the
/// cursor's x position.
#[verifier::ext_equal]
pub struct RenderState {
    pub canvas: CanvasView,
    pub cursor: int,
}

/// The width of an embedded image once resized: 90 percent of the
/// horizontal scale.
pub open spec fn resized_width(scale: Scale) -> int {
    (scale.x as int) * 9 / 10
}

/// The height of an embedded image once resized: 90 percent of the
/// vertical scale.
pub open spec fn resized_height(scale: Scale) -> int {
    (scale.y as int) * 9 / 10
}

/// The cursor advance of an embedded image run: its resized width plus
/// the spacing `scale.x / 5`.
pub open spec fn image_advance(scale: Scale) -> int {
    resized_width(scale) + (scale.x as int) / 5
}

/// One character drawn: its glyph composited at the cursor, which then
/// advances by the character's advance.
pub open spec fn draw_char_state<F: Font>(
    st: RenderState,
    fonts: Seq<F>,
    c: char,
    scale: Scale,
    color: Seq<u8>,
    y: int,
) -> RenderState {
    RenderState {
        canvas: composite_glyph(st.canvas, picked_glyph(fonts, c, scale), color, st.cursor, y),
        cursor: st.cursor + char_advance(fonts, c, scale),
    }
}

/// A text run drawn character by character, left to right.
pub open spec fn draw_text_state<F: Font>(
    st: RenderState,
    fonts: Seq<F>,
    s: Seq<char>,
    scale: Scale,
    color: Seq<u8>,
    y: int,
) -> RenderState
    decreases s.len(),
{
    if s.len() == 0 {
        st
    } else {
        draw_text_state(
            draw_char_state(st, fonts, s[0], scale, color, y),
            fonts,
            s.drop_first(),
            scale,
            color,
            y,
        )
    }
}

/// An embedded image drawn: the sub-canvas resized to 90 percent of the
/// scale by nearest neighbor, overlaid with the cursor pushed right by
/// `scale.x / 10`; the cursor then advances past the resized width plus
/// `scale.x / 5`.  A sub-canvas with an empty axis, a channel count other
/// than the destination's, or a resized cell count beyond the index
/// arithmetic is skipped, with the same advance.
pub open spec fn draw_image_state(st: RenderState, img: CanvasView, scale: Scale, y: int) -> RenderState {
    let nw = resized_width(scale) as nat;
    let nh = resized_height(scale) as nat;
    let canvas = if img.width > 0 && img.height > 0 && img.channels == st.canvas.channels && nw
        * nh <= u32::MAX {
        overlay_view(st.canvas, resize_view(img, nw, nh), st.cursor + (scale.x as int) / 10, y)
    } else {
        st.canvas
    };
    RenderState { canvas, cursor: st.cursor + image_advance(scale) }
}

/// One run drawn.
pub open spec fn draw_run_state<F: Font>(
    st: RenderState,
    fonts: Seq<F>,
    run: RunView,
    scale: Scale,
    color: Seq<u8>,
    y: int,
) -> RenderState {
    match run {
        RunView::Text(s) => draw_text_state(st, fonts, s, scale, color, y),
        RunView::Image(img) => draw_image_state(st, img, scale, y),
    }
}

/// All runs drawn in order.
pub open spec fn draw_runs_state<F: Font>(
    st: RenderState,
    fonts: Seq<F>,
    runs: Seq<RunView>,
    scale: Scale,
    color: Seq<u8>,
    y: int,
) -> RenderState
    decreases runs.len(),
{
    if runs.len() == 0 {
        st
    } else {
        draw_runs_state(
            draw_run_state(st, fonts, runs[0], scale, color, y),
            fonts,
            runs.drop_first(),
            scale,
            color,
            y,
        )
    }
}

/// The total cursor advance of one run.
pub open spec fn run_advance<F: Font>(fonts: Seq<F>, run: RunView, scale: Scale) -> int {
    match run {
        RunView::Text(s) => text_width(fonts, s, scale),
        RunView::Image(_) => image_advance(scale),
    }
}

/// The total cursor advance of a sequence of runs.
pub open spec fn runs_width<F: Font>(fonts: Seq<F>, runs: Seq<RunView>, scale: Scale) -> int
    decreases runs.len(),
{
    if runs.len() == 0 {
        0
    } else {
        run_advance(fonts, runs[0], scale) + runs_width(fonts, runs.drop_first(), scale)
    }
}

/// A total advance is never negative.
pub proof fn lemma_runs_width_nonneg<F: Font>(fonts: Seq<F>, runs: Seq<RunView>, scale: Scale)
    ensures
        runs_width(fonts, runs, scale) >= 0,
    decreases runs.len(),
{
    if runs.len() > 0 {
        match runs[0] {
            RunView::Text(s) => lemma_text_width_nonneg(fonts, s, scale),
            RunView::Image(_) => {},
        }
        lemma_runs_width_nonneg(fonts, runs.drop_first(), scale);
    }
}

/// Whether any run carries at least one character.
pub open spec fn runs_have_text(runs: Seq<RunView>) -> bool {
    exists|i: int| 0 <= i < runs.len() && run_text(#[trigger] runs[i]).len() > 0
}

/// Whether every character advance of the runs fits the cursor type.
pub open spec fn runs_advances_fit<F: Font>(fonts: Seq<F>, runs: Seq<RunView>, scale: Scale) -> bool {
    forall|i: int, j: int|
        0 <= i < runs.len() && 0 <= j < run_text(runs[i]).len() ==> #[trigger] char_advance(
            fonts,
            run_text(runs[i])[j],
            scale,
        ) <= i32::MAX
}

/// Whether every embedded sub-canvas of the runs is well formed.
pub open spec fn runs_imgs_wf(runs: Seq<RunView>) -> bool {
    forall|i: int|
        0 <= i < runs.len() ==> (#[trigger] runs[i] matches RunView::Image(cv) ==> cv.wf())
}

impl<F: Font> Fonts<F> {
    /// Draws the resolved content runs onto the canvas, the cursor
    /// starting at `(x, y)`: text runs are composited glyph by glyph,
    /// embedded sub-canvases are resized and overlaid.  Fails exactly
    /// when the font list is empty while some run carries a character,
    /// and then leaves the canvas untouched.
    #[verifier::loop_isolation(false)]
    pub fn write_to<R: RunResolver>(
        &self,
        img: &mut Canvas,
        text: &Vec<char>,
        scale: Scale,
        color: &Color,
        x: i32,
        y: i32,
        resolver: &R,
    ) -> (r: Result<(), NoFontAvailable>)
        requires
            old(img)@.wf(),
            color@.len() == old(img)@.channels,
            x as int + runs_width(self.fonts@, resolver.runs_spec(text@), scale) <= i32::MAX,
            runs_advances_fit(self.fonts@, resolver.runs_spec(text@), scale),
            runs_imgs_wf(resolver.runs_spec(text@)),
        ensures
            final(img)@.wf(),
            final(img)@.width == old(img)@.width,
            final(img)@.height == old(img)@.height,
            final(img)@.channels == old(img)@.channels,
            r is Ok <==> !(self.fonts@.len() == 0 && runs_have_text(resolver.runs_spec(text@))),
            r is Ok ==> final(img)@ =~~= draw_runs_state(
                RenderState { canvas: old(img)@, cursor: x as int },
                self.fonts@,
                resolver.runs_spec(text@),
                scale,
                color@,
                y as int,
            ).canvas,
            r is Err ==> final(img)@ =~~= old(img)@,
    {
        let runs = resolver.resolve(text);
        let ghost runsv = resolver.runs_spec(text@);
        let ghost fontsv = self.fonts@;
        let ghost cv0 = old(img)@;
        if self.fonts.len() == 0 {
            let nr = runs.len();
            let mut k: usize = 0;
            while k < nr
                invariant
                    nr == runs@.len(),
                    runs@.len() == runsv.len(),
                    forall|i: int| 0 <= i < runs@.len() ==> #[trigger] runs@[i]@ == runsv[i],
                    k <= nr,
                    forall|i: int| 0 <= i < k ==> run_text(#[trigger] runsv[i]).len() == 0,
                decreases nr - k,
            {
                match &runs[k] {
                    StrOrImg::Str(s) => {
                        if s.len() > 0 {
                            proof {
                                assert(runs@[k as int]@ == runsv[k as int]);
                                assert(runs@[k as int]@ == RunView::Text(s@));
                                assert(run_text(runsv[k as int]).len() > 0);
                            }
                            return Err(NoFontAvailable);
                        }
                        proof {
                            assert(runs@[k as int]@ == runsv[k as int]);
                            assert(run_text(runsv[k as int]).len() == 0);
                        }
                    },
                    StrOrImg::Img(_) => {
                        proof {
                            assert(runs@[k as int]@ == runsv[k as int]);
                            assert(run_text(runsv[k as int]).len() == 0);
                        }
                    },
                }
                k += 1;
            }
            assert(!runs_have_text(runsv));
        }
        let ghost st0 = RenderState { canvas: cv0, cursor: x as int };
        let ghost stfin = draw_runs_state(st0, fontsv, runsv, scale, color@, y as int);
        let mut cur: i32 = x;
        let nr = runs.len();
        let mut i: usize = 0;
        proof {
            assert(runsv.skip(0) =~= runsv);
        }
        while i < nr
            invariant
                img@.wf(),
                img@.width == cv0.width,
                img@.height == cv0.height,
                img@.channels == cv0.channels,
                cv0.wf(),
                color@.len() == cv0.channels,
                nr == runs@.len(),
                runs@.len() == runsv.len(),
                forall|j: int| 0 <= j < runs@.len() ==> #[trigger] runs@[j]@ == runsv[j],
                i <= nr,
                fontsv == self.fonts@,
                fontsv.len() == 0 ==> !runs_have_text(runsv),
                runs_advances_fit(fontsv, runsv, scale),
                stfin == draw_runs_state(st0, fontsv, runsv, scale, color@, y as int),
                st0 == (RenderState { canvas: cv0, cursor: x as int }),
                draw_runs_state(
                    RenderState { canvas: img@, cursor: cur as int },
                    fontsv,
                    runsv.skip(i as int),
                    scale,
                    color@,
                    y as int,
                ) == stfin,
                cur as int + runs_width(fontsv, runsv.skip(i as int), scale) == x as int
                    + runs_width(fontsv, runsv, scale),
                cur >= x,
            decreases nr - i,
        {
            proof {
                assert(runsv.skip(i as int)[0] == runsv[i as int]);
                assert(runsv.skip(i as int).drop_first() =~= runsv.skip(i as int + 1));
                lemma_runs_width_nonneg(fontsv, runsv.skip(i as int + 1), scale);
            }
            let ghost stpre = RenderState { canvas: img@, cursor: cur as int };
            match &runs[i] {
                StrOrImg::Str(s) => {
                    let ghost sv = s@;
                    proof {
                        assert(runs@[i as int]@ == runsv[i as int]);
                        assert(runsv[i as int] == RunView::Text(sv));
                        assert(run_text(runsv[i as int]) == sv);
                        assert(sv.skip(0) =~= sv);
                        if sv.len() > 0 {
                            assert(runs_have_text(runsv));
                        }
                        lemma_text_width_nonneg(fontsv, sv, scale);
                    }
                    let nc = s.len();
                    let mut j: usize = 0;
                    while j < nc
                        invariant
                            img@.wf(),
                            img@.width == cv0.width,
                            img@.height == cv0.height,
                            img@.channels == cv0.channels,
                            cv0.wf(),
                            color@.len() == cv0.channels,
                            nc == sv.len(),
                            s@ == sv,
                            j <= nc,
                            fontsv == self.fonts@,
                            nc > 0 ==> fontsv.len() > 0,
                            forall|jj: int|
                                0 <= jj < sv.len() ==> #[trigger] char_advance(fontsv, sv[jj], scale)
                                    <= i32::MAX,
                            stfin == draw_runs_state(st0, fontsv, runsv, scale, color@, y as int),
                            st0 == (RenderState { canvas: cv0, cursor: x as int }),
                            draw_runs_state(
                                draw_text_state(
                                    RenderState { canvas: img@, cursor: cur as int },
                                    fontsv,
                                    sv.skip(j as int),
                                    scale,
                                    color@,
                                    y as int,
                                ),
                                fontsv,
                                runsv.skip(i as int + 1),
                                scale,
                                color@,
                                y as int,
                            ) == stfin,
                            cur as int + text_width(fontsv, sv.skip(j as int), scale) + runs_width(
                                fontsv,
                                runsv.skip(i as int + 1),
                                scale,
                            ) == x as int + runs_width(fontsv, runsv, scale),
                            runs_width(fontsv, runsv.skip(i as int + 1), scale) >= 0,
                            cur >= x,
                        decreases nc - j,
                    {
                        proof {
                            assert(sv.skip(j as int)[0] == sv[j as int]);
                            assert(sv.skip(j as int).drop_first() =~= sv.skip(j as int + 1));
                            lemma_text_width_nonneg(fontsv, sv.skip(j as int + 1), scale);
                            assert(char_advance(fontsv, sv[j as int], scale) <= i32::MAX);
                        }
                        let c = s[j];
                        let font = self.get_avalible_font(c).unwrap();
                        let ghost pre = img@;
                        let adv = self.write_char(img, c, scale, color, cur, y, font);
                        proof {
                            assert(font.glyph_spec(c, scale) == picked_glyph(fontsv, c, scale));
                            assert(adv == char_advance(fontsv, sv[j as int], scale));
                            assert(img@ =~~= composite_glyph(
                                pre,
                                picked_glyph(fontsv, c, scale),
                                color@,
                                cur as int,
                                y as int,
                            ));
                            assert(RenderState { canvas: img@, cursor: cur as int + adv }
                                == draw_char_state(
                                RenderState { canvas: pre, cursor: cur as int },
                                fontsv,
                                sv[j as int],
                                scale,
                                color@,
                                y as int,
                            ));
                        }
                        cur = cur + adv;
                        j += 1;
                    }
                    proof {
                        assert(sv.skip(nc as int) =~= Seq::<char>::empty());
                        assert(runsv.skip(i as int + 1) =~= runsv.skip(i as int).drop_first());
                    }
                },
                StrOrImg::Img(over) => {
                    let ghost iv = over@;
                    proof {
                        assert(runs@[i as int]@ == runsv[i as int]);
                        assert(runsv[i as int] == RunView::Image(iv));
                        assert((scale.x as int) * 9 >= 0 && (scale.y as int) * 9 >= 0)
                            by (nonlinear_arith);
                        lemma_div_is_ordered((scale.x as int) * 9, (scale.x as int) * 10, 10);
                        lemma_div_is_ordered((scale.y as int) * 9, (scale.y as int) * 10, 10);
                        vstd::arithmetic::div_mod::lemma_div_multiples_vanish(scale.x as int, 10);
                        vstd::arithmetic::div_mod::lemma_div_multiples_vanish(scale.y as int, 10);
                        assert((scale.x as int) * 9 <= (scale.x as int) * 10 && (scale.y as int)
                            * 9 <= (scale.y as int) * 10) by (nonlinear_arith);
                        assert((scale.x as int) * 10 == 10 * (scale.x as int) && (scale.y as int)
                            * 10 == 10 * (scale.y as int)) by (nonlinear_arith);
                        lemma_div_is_ordered(0, (scale.x as int) * 9, 10);
                        lemma_div_is_ordered(0, (scale.y as int) * 9, 10);
                    }
                    let nw64: u64 = (scale.x as u64) * 9 / 10;
                    let nh64: u64 = (scale.y as u64) * 9 / 10;
                    let nw: u32 = nw64 as u32;
                    let nh: u32 = nh64 as u32;
                    proof {
                        assert(nw == resized_width(scale) && nh == resized_height(scale));
                    }
                    proof {
                        assert(runsv[i as int] matches RunView::Image(cvv) ==> cvv.wf());
                        assert(iv.wf());
                    }
                    if over.width() > 0 && over.height() > 0 && over.channels() == img.channels() {
                        match over.resize_nearest(nw, nh) {
                            Some(resized) => {
                                let ox: i64 = (cur as i64) + ((scale.x / 10) as i64);
                                let ghost pre = img@;
                                img.overlay(&resized, ox, y as i64);
                                proof {
                                    assert(resized@ =~~= resize_view(
                                        iv,
                                        resized_width(scale) as nat,
                                        resized_height(scale) as nat,
                                    ));
                                    assert(img@ =~~= overlay_view(
                                        pre,
                                        resize_view(
                                            iv,
                                            resized_width(scale) as nat,
                                            resized_height(scale) as nat,
                                        ),
                                        cur as int + (scale.x as int) / 10,
                                        y as int,
                                    ));
                                    assert(img@ =~~= draw_image_state(stpre, iv, scale, y as int).canvas);
                                }
                            },
                            None => {
                                proof {
                                    assert(img@ =~~= draw_image_state(stpre, iv, scale, y as int).canvas);
                                }
                            },
                        }
                    } else {
                        proof {
                            assert(img@ =~~= draw_image_state(stpre, iv, scale, y as int).canvas);
                        }
                    }
                    let newcur: i64 = (cur as i64) + (nw64 as i64) + ((scale.x / 5) as i64);
                    proof {
                        lemma_div_is_ordered(0, scale.x as int, 5);
                        assert(newcur == cur as int + image_advance(scale));
                        assert(newcur <= x as int + runs_width(fontsv, runsv, scale));
                        assert(RenderState { canvas: img@, cursor: newcur as int }
                            == draw_image_state(stpre, iv, scale, y as int));
                    }
                    cur = newcur as i32;
                },
            }
            i += 1;
        }
        proof {
            assert(runsv.skip(nr as int) =~= Seq::<RunView>::empty());
            assert(final(img)@ =~~= stfin.canvas);
        }
        Ok(())
    }
}

/// A scale component rescaled by `w / t`: truncated toward zero and
/// saturated to the unsigned 32-bit range, the way a host float cast
/// would; a zero text width yields a zero scale.
pub open spec fn scale_mul_div(s: u32, w: int, t: int) -> u32 {
    if t == 0 {
        0u32
    } else {
        let v = trunc_div(s * w, t);
        if v < 0 {
            0u32
        } else if v > u32::MAX {
            u32::MAX
        } else {
            v as u32
        }
    }
}

/// The scale after proportional shrinking by `box_width / text_size`.
pub open spec fn shrunk_scale(scale: Scale, box_width: int, text_size: int) -> Scale {
    Scale {
        x: scale_mul_div(scale.x, box_width, text_size),
        y: scale_mul_div(scale.y, box_width, text_size),
    }
}

/// The draw origin and scale that centering picks: the text is centered
/// in the box when that keeps it at or right of `x`; otherwise, with
/// shrinking on, the scale is reduced by `box_width / text_size` and the
/// text starts flush at `x`.
pub open spec fn centered_origin(
    x: int,
    box_width: int,
    text_size: int,
    shrink: bool,
    scale: Scale,
) -> (int, Scale) {
    let newx = x + trunc_div(box_width - text_size, 2);
    if newx < x && shrink {
        (x, shrunk_scale(scale, box_width, text_size))
    } else {
        (newx, scale)
    }
}

/// Centering a text in a box exactly as wide as the text draws it at the
/// caller's `x` with the original scale: the centering offset is zero.
pub proof fn lemma_centering_exact(x: int, box_width: int, shrink: bool, scale: Scale)
    ensures
        centered_origin(x, box_width, box_width, shrink, scale) == (x, scale),
{
}

/// With shrinking on and a text wider than the box, the draw origin is
/// exactly the caller's `x`: it never lies left of it.
pub proof fn lemma_shrink_flush_left(x: int, box_width: int, text_size: int, scale: Scale)
    requires
        text_size > box_width,
    ensures
        centered_origin(x, box_width, text_size, true, scale).0 == x,
{
    let d = box_width - text_size;
    lemma_div_is_ordered(0, -d, 2);
    assert(trunc_div(d, 2) <= 0);
}

/// One shrunk scale component, computed exactly.
fn scale_component_shrink(s: u32, w: i32, t: i32) -> (r: u32)
    requires
        t >= 0,
    ensures
        r == scale_mul_div(s, w as int, t as int),
{
    if t == 0 {
        0u32
    } else if w <= 0 {
        proof {
            assert((s as int) * (w as int) <= 0) by (nonlinear_arith)
                requires s >= 0, w <= 0;
            if (s as int) * (w as int) < 0 {
                lemma_div_is_ordered(0, -((s as int) * (w as int)), t as int);
            }
        }
        0u32
    } else {
        proof {
            assert((s as int) * (w as int) >= 0) by (nonlinear_arith)
                requires s >= 0, w >= 0;
            lemma_mul_upper_bound(s as int, u32::MAX as int, w as int, i32::MAX as int);
        }
        let q: u64 = ((s as u64) * (w as u64)) / (t as u64);
        if q > (u32::MAX as u64) {
            u32::MAX
        } else {
            q as u32
        }
    }
}

impl<F: Font> Fonts<F> {
    /// Draws the text centered inside a box of `width` pixels starting at
    /// `x`: the origin moves right by half the leftover space.  When the
    /// text is too wide to center and `shrink` is on, the scale is
    /// reduced by `width / text_size` and the text starts flush at `x`
    /// instead.  Fails exactly when the font list is empty while either
    /// resolution yields a character, and then leaves the canvas
    /// untouched.
    pub fn write_to_middle<R: RunResolver, S: SizeResolver>(
        &self,
        img: &mut Canvas,
        text: &Vec<char>,
        scale: Scale,
        color: &Color,
        width: i32,
        x: i32,
        y: i32,
        resolver: &R,
        text_size_resolver: &S,
        shrink: bool,
    ) -> (r: Result<(), NoFontAvailable>)
        requires
            old(img)@.wf(),
            color@.len() == old(img)@.channels,
            text_width(
                self.fonts@,
                text_size_resolver.resolved_spec(text@),
                scale,
            ) <= i32::MAX,
            ({
                let ts = text_width(self.fonts@, text_size_resolver.resolved_spec(text@), scale);
                &&& i32::MIN <= width - ts
                &&& i32::MIN <= x + trunc_div(width - ts, 2) <= i32::MAX
                &&& ({
                    let nx = centered_origin(x as int, width as int, ts, shrink, scale).0;
                    let nscale = centered_origin(x as int, width as int, ts, shrink, scale).1;
                    &&& nx + runs_width(self.fonts@, resolver.runs_spec(text@), nscale)
                        <= i32::MAX
                    &&& runs_advances_fit(self.fonts@, resolver.runs_spec(text@), nscale)
                })
            }),
            runs_imgs_wf(resolver.runs_spec(text@)),
        ensures
            final(img)@.wf(),
            final(img)@.width == old(img)@.width,
            final(img)@.height == old(img)@.height,
            final(img)@.channels == old(img)@.channels,
            ({
                let ts = text_width(self.fonts@, text_size_resolver.resolved_spec(text@), scale);
                let nx = centered_origin(x as int, width as int, ts, shrink, scale).0;
                let nscale = centered_origin(x as int, width as int, ts, shrink, scale).1;
                let rs = text_size_resolver.resolved_spec(text@);
                let runsv = resolver.runs_spec(text@);
                match r {
                    Ok(u) => {
                        &&& !(self.fonts@.len() == 0 && (rs.len() > 0 || runs_have_text(runsv)))
                        &&& final(img)@ =~~= draw_runs_state(
                            RenderState { canvas: old(img)@, cursor: nx },
                            self.fonts@,
                            runsv,
                            nscale,
                            color@,
                            y as int,
                        ).canvas
                    },
                    Err(e) => {
                        &&& self.fonts@.len() == 0
                        &&& (rs.len() > 0 || runs_have_text(runsv))
                        &&& final(img)@ =~~= old(img)@
                    },
                }
            }),
    {
        let ghost ts_spec = text_width(self.fonts@, text_size_resolver.resolved_spec(text@), scale);
        let ts: i32 = match self.text_size(text, scale, text_size_resolver) {
            Ok(wh) => wh.0,
            Err(e) => {
                return Err(e);
            },
        };
        proof {
            lemma_text_width_nonneg(self.fonts@, text_size_resolver.resolved_spec(text@), scale);
        }
        let d: i64 = (width as i64) - (ts as i64);
        let half: i64 = if d >= 0 {
            ((d as u64) / 2) as i64
        } else {
            -((((-d) as u64) / 2) as i64)
        };
        proof {
            assert(half == trunc_div(width as int - ts as int, 2));
        }
        let newx: i32 = ((x as i64) + half) as i32;
        if newx < x && shrink {
            let nsx = scale_component_shrink(scale.x, width, ts);
            let nsy = scale_component_shrink(scale.y, width, ts);
            let nscale = Scale { x: nsx, y: nsy };
            proof {
                assert(nscale == centered_origin(x as int, width as int, ts_spec, shrink, scale).1);
                assert(x as int == centered_origin(x as int, width as int, ts_spec, shrink, scale).0);
            }
            self.write_to(img, text, nscale, color, x, y, resolver)
        } else {
            proof {
                assert(scale == centered_origin(x as int, width as int, ts_spec, shrink, scale).1);
                assert(newx as int == centered_origin(
                    x as int,
                    width as int,
                    ts_spec,
                    shrink,
                    scale,
                ).0);
            }
            self.write_to(img, text, scale, color, newx, y, resolver)
        }
    }
}

} // verus!
