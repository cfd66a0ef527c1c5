use imageutil::canvas::Canvas;
use imageutil::text::{
    empty_resolver, empty_size_resolver, EmptyResolver, EmptySizeResolver, Fonts, GlyphRaster,
    MemoryFont, NoFontAvailable, Scale, StrOrImg,
};
use imageutil::util::Color;

fn rgba(r: u8, g: u8, b: u8, a: u8) -> Color {
    Color::new(vec![r, g, b, a])
}

fn pixel(c: &Canvas, x: u32, y: u32) -> Vec<u8> {
    c.get_pixel(x, y).channels
}

fn block_glyph(w: u32, h: u32, cov: u8) -> GlyphRaster {
    GlyphRaster {
        min_x: 0,
        min_y: 0,
        width: w,
        height: h,
        coverage: vec![cov; (w * h) as usize],
    }
}

fn basic_font(chars: &[char]) -> MemoryFont {
    MemoryFont { supported: chars.to_vec(), proto: Some(block_glyph(4, 6, 255)) }
}

fn chars(s: &str) -> Vec<char> {
    s.chars().collect()
}

#[test]
fn fallback_picks_first_supporting_font() {
    let a = MemoryFont { supported: vec!['a'], proto: Some(block_glyph(1, 1, 255)) };
    let b = MemoryFont { supported: vec!['\u{3042}'], proto: Some(block_glyph(2, 2, 255)) };
    let fonts = Fonts::new(vec![a, b]);
    let picked = fonts.get_avalible_font('\u{3042}').unwrap();
    assert_eq!(picked.supported, vec!['\u{3042}']);
    let picked = fonts.get_avalible_font('a').unwrap();
    assert_eq!(picked.supported, vec!['a']);
}

#[test]
fn fallback_degrades_to_last_font() {
    let a = MemoryFont { supported: vec!['a'], proto: Some(block_glyph(1, 1, 255)) };
    let b = MemoryFont { supported: vec!['\u{3042}'], proto: Some(block_glyph(2, 2, 255)) };
    let fonts = Fonts::new(vec![a, b]);
    // neither font supports the character: the last font, not None
    let picked = fonts.get_avalible_font('\u{6f22}').unwrap();
    assert_eq!(picked.supported, vec!['\u{3042}']);
}

#[test]
fn fallback_fails_only_without_fonts() {
    let fonts = Fonts::new(Vec::<MemoryFont>::new());
    assert!(fonts.get_avalible_font('x').is_none());
}

#[test]
fn layout_without_visible_box_contributes_nothing() {
    let f = MemoryFont { supported: vec!['a'], proto: None };
    let (w, h, g) = Fonts::<MemoryFont>::layout_glyphs(Scale { x: 30, y: 30 }, &f, 'a');
    assert_eq!((w, h), (0, 0));
    assert!(g.is_none());
}

#[test]
fn layout_reports_box_edges() {
    let f = basic_font(&['a']);
    let (w, h, g) = Fonts::<MemoryFont>::layout_glyphs(Scale { x: 30, y: 30 }, &f, 'a');
    assert_eq!((w, h), (4, 6));
    assert!(g.is_some());
}

#[test]
fn measure_width_is_additive() {
    let fonts = Fonts::new(vec![basic_font(&['a', 'b'])]);
    let scale = Scale { x: 30, y: 30 };
    let ab = fonts.text_size(&chars("ab"), scale, &EmptySizeResolver).unwrap();
    let a = fonts.text_size(&chars("a"), scale, &EmptySizeResolver).unwrap();
    let b = fonts.text_size(&chars("b"), scale, &EmptySizeResolver).unwrap();
    assert_eq!(ab.0, a.0 + b.0);
    // each character: box width 4 plus spacing 30 / 15 = 2
    assert_eq!(ab, (12, 6));
}

#[test]
fn measure_of_empty_text_is_zero() {
    let fonts = Fonts::new(vec![basic_font(&['a'])]);
    let scale = Scale { x: 30, y: 30 };
    assert_eq!(fonts.text_size(&chars(""), scale, &EmptySizeResolver).unwrap(), (0, 0));
}

#[test]
fn measure_without_fonts_is_no_font_available() {
    let fonts = Fonts::new(Vec::<MemoryFont>::new());
    let scale = Scale { x: 30, y: 30 };
    assert_eq!(
        fonts.text_size(&chars("a"), scale, &EmptySizeResolver),
        Err(NoFontAvailable)
    );
    // with nothing to measure there is nothing to resolve, so no error
    assert_eq!(fonts.text_size(&chars(""), scale, &EmptySizeResolver).unwrap(), (0, 0));
}

#[test]
fn write_char_full_coverage_draws_color() {
    let fonts = Fonts::new(vec![basic_font(&['a'])]);
    let mut canvas = Canvas::new(10, 10, &rgba(255, 255, 255, 255)).unwrap();
    let black = rgba(0, 0, 0, 255);
    let g = MemoryFont { supported: vec!['a'], proto: Some(block_glyph(2, 2, 255)) };
    let adv = fonts.write_char(&mut canvas, 'a', Scale { x: 30, y: 30 }, &black, 1, 1, &g);
    assert_eq!(adv, 2 + 30 / 15);
    for y in 0..10u32 {
        for x in 0..10u32 {
            let expected = if (1..3).contains(&x) && (1..3).contains(&y) {
                vec![0, 0, 0, 255]
            } else {
                vec![255, 255, 255, 255]
            };
            assert_eq!(pixel(&canvas, x, y), expected, "at ({}, {})", x, y);
        }
    }
}

#[test]
fn write_char_partial_coverage_mixes_toward_background() {
    let fonts = Fonts::new(vec![basic_font(&['a'])]);
    let g = MemoryFont { supported: vec!['a'], proto: Some(block_glyph(1, 1, 128)) };
    let mut canvas = Canvas::new(4, 4, &rgba(255, 255, 255, 255)).unwrap();
    let black = rgba(0, 0, 0, 255);
    fonts.write_char(&mut canvas, 'a', Scale { x: 15, y: 15 }, &black, 0, 0, &g);
    // blend position (255 - 128) / 255: 0 + 255 * 127 / 255 = 127
    assert_eq!(pixel(&canvas, 0, 0), vec![127, 127, 127, 255]);
}

#[test]
fn write_char_clips_outside_canvas() {
    let fonts = Fonts::new(vec![basic_font(&['a'])]);
    let g = MemoryFont { supported: vec!['a'], proto: Some(block_glyph(2, 2, 255)) };
    let mut canvas = Canvas::new(10, 10, &rgba(255, 255, 255, 255)).unwrap();
    let black = rgba(0, 0, 0, 255);
    fonts.write_char(&mut canvas, 'a', Scale { x: 30, y: 30 }, &black, 9, 9, &g);
    assert_eq!(pixel(&canvas, 9, 9), vec![0, 0, 0, 255]);
    assert_eq!(pixel(&canvas, 8, 9), vec![255, 255, 255, 255]);
    assert_eq!(pixel(&canvas, 9, 8), vec![255, 255, 255, 255]);
}

#[test]
fn write_to_advances_left_to_right() {
    let fonts = Fonts::new(vec![basic_font(&['a'])]);
    let mut canvas = Canvas::new(12, 8, &rgba(255, 255, 255, 255)).unwrap();
    let black = rgba(0, 0, 0, 255);
    let scale = Scale { x: 30, y: 30 };
    fonts
        .write_to(&mut canvas, &chars("aa"), scale, &black, 0, 0, &EmptyResolver)
        .unwrap();
    // first glyph at columns 0..4, second at the advance 4 + 2 = 6
    assert_eq!(pixel(&canvas, 0, 0), vec![0, 0, 0, 255]);
    assert_eq!(pixel(&canvas, 3, 5), vec![0, 0, 0, 255]);
    assert_eq!(pixel(&canvas, 4, 0), vec![255, 255, 255, 255]);
    assert_eq!(pixel(&canvas, 6, 0), vec![0, 0, 0, 255]);
    assert_eq!(pixel(&canvas, 9, 5), vec![0, 0, 0, 255]);
    assert_eq!(pixel(&canvas, 10, 0), vec![255, 255, 255, 255]);
}

#[test]
fn write_to_without_fonts_fails_only_with_text() {
    let fonts = Fonts::new(Vec::<MemoryFont>::new());
    let mut canvas = Canvas::new(4, 4, &rgba(8, 8, 8, 8)).unwrap();
    let black = rgba(0, 0, 0, 255);
    let scale = Scale { x: 30, y: 30 };
    assert_eq!(
        fonts.write_to(&mut canvas, &chars("a"), scale, &black, 0, 0, &EmptyResolver),
        Err(NoFontAvailable)
    );
    assert_eq!(pixel(&canvas, 0, 0), vec![8, 8, 8, 8]);
    assert!(fonts
        .write_to(&mut canvas, &chars(""), scale, &black, 0, 0, &EmptyResolver)
        .is_ok());
}

#[test]
fn centering_with_exact_box_draws_at_x() {
    let fonts = Fonts::new(vec![basic_font(&['a', 'b'])]);
    let scale = Scale { x: 30, y: 30 };
    let black = rgba(0, 0, 0, 255);
    let bg = rgba(255, 255, 255, 255);
    // "ab" measures 12 wide; a box of exactly 12 centers with zero offset
    let mut centered = Canvas::new(20, 8, &bg).unwrap();
    fonts
        .write_to_middle(
            &mut centered, &chars("ab"), scale, &black, 12, 3, 0, &EmptyResolver,
            &EmptySizeResolver, false,
        )
        .unwrap();
    let mut direct = Canvas::new(20, 8, &bg).unwrap();
    fonts
        .write_to(&mut direct, &chars("ab"), scale, &black, 3, 0, &EmptyResolver)
        .unwrap();
    for y in 0..8 {
        for x in 0..20 {
            assert_eq!(pixel(&centered, x, y), pixel(&direct, x, y));
        }
    }
}

#[test]
fn centering_offsets_by_half_the_leftover() {
    let fonts = Fonts::new(vec![basic_font(&['a'])]);
    let scale = Scale { x: 30, y: 30 };
    let black = rgba(0, 0, 0, 255);
    let bg = rgba(255, 255, 255, 255);
    // "a" measures 6; box 10 leaves 4, so the origin moves right by 2
    let mut centered = Canvas::new(16, 8, &bg).unwrap();
    fonts
        .write_to_middle(
            &mut centered, &chars("a"), scale, &black, 10, 1, 0, &EmptyResolver,
            &EmptySizeResolver, false,
        )
        .unwrap();
    let mut direct = Canvas::new(16, 8, &bg).unwrap();
    fonts
        .write_to(&mut direct, &chars("a"), scale, &black, 3, 0, &EmptyResolver)
        .unwrap();
    for y in 0..8 {
        for x in 0..16 {
            assert_eq!(pixel(&centered, x, y), pixel(&direct, x, y));
        }
    }
}

#[test]
fn shrink_starts_flush_left_with_reduced_scale() {
    let fonts = Fonts::new(vec![basic_font(&['a', 'b'])]);
    let scale = Scale { x: 30, y: 30 };
    let black = rgba(0, 0, 0, 255);
    let bg = rgba(255, 255, 255, 255);
    // "ab" measures 12, the box only 6: shrink by 6 / 12 to scale (15, 15)
    // and start at x, never left of it
    let mut shrunk = Canvas::new(16, 8, &bg).unwrap();
    fonts
        .write_to_middle(
            &mut shrunk, &chars("ab"), scale, &black, 6, 2, 0, &EmptyResolver,
            &EmptySizeResolver, true,
        )
        .unwrap();
    let mut direct = Canvas::new(16, 8, &bg).unwrap();
    fonts
        .write_to(&mut direct, &chars("ab"), Scale { x: 15, y: 15 }, &black, 2, 0, &EmptyResolver)
        .unwrap();
    for y in 0..8 {
        for x in 0..16 {
            assert_eq!(pixel(&shrunk, x, y), pixel(&direct, x, y));
        }
    }
    // nothing was drawn left of the caller's x
    for y in 0..8 {
        for x in 0..2 {
            assert_eq!(pixel(&shrunk, x, y), vec![255, 255, 255, 255]);
        }
    }
}

#[test]
fn identity_resolvers_hand_the_text_back() {
    let text = chars("hello");
    assert_eq!(empty_size_resolver(&text), text);
    let runs = empty_resolver(&text);
    assert_eq!(runs.len(), 1);
    match &runs[0] {
        StrOrImg::Str(s) => assert_eq!(*s, text),
        StrOrImg::Img(_) => panic!("expected a text run"),
    }
}
