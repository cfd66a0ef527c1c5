use imageutil::canvas::Canvas;
use imageutil::text::{Fonts, GlyphRaster, MemoryFont, RunResolver, RunView, Scale, StrOrImg};
use imageutil::util::Color;
use vstd::seq::Seq;

fn rgba(r: u8, g: u8, b: u8, a: u8) -> Color {
    Color::new(vec![r, g, b, a])
}

fn pixel(c: &Canvas, x: u32, y: u32) -> Vec<u8> {
    c.get_pixel(x, y).channels
}

#[test]
fn resize_nearest_repeats_source_cells() {
    let mut src = Canvas::new(2, 2, &rgba(0, 0, 0, 255)).unwrap();
    src.draw_pixel(1, 0, rgba(10, 0, 0, 255));
    src.draw_pixel(0, 1, rgba(0, 10, 0, 255));
    src.draw_pixel(1, 1, rgba(0, 0, 10, 255));
    let out = src.resize_nearest(4, 4).unwrap();
    assert_eq!(out.width(), 4);
    assert_eq!(out.height(), 4);
    for y in 0..4 {
        for x in 0..4 {
            assert_eq!(pixel(&out, x, y), pixel(&src, x / 2, y / 2), "at ({}, {})", x, y);
        }
    }
}

#[test]
fn overlay_copies_and_clips() {
    let mut dst = Canvas::new(4, 4, &rgba(1, 1, 1, 1)).unwrap();
    let src = Canvas::new(2, 2, &rgba(9, 9, 9, 9)).unwrap();
    dst.overlay(&src, 3, -1);
    for y in 0..4u32 {
        for x in 0..4u32 {
            let expected = if x == 3 && y <= 0 {
                vec![9, 9, 9, 9]
            } else {
                vec![1, 1, 1, 1]
            };
            assert_eq!(pixel(&dst, x, y), expected, "at ({}, {})", x, y);
        }
    }
}

struct OneImageResolver;

impl RunResolver for OneImageResolver {
    // ghost member of the capability trait; never called at runtime
    fn runs_spec(&self, _s: Seq<char>) -> Seq<RunView> {
        unreachable!()
    }

    fn resolve(&self, _s: &Vec<char>) -> Vec<StrOrImg> {
        let red = Canvas::new(3, 3, &rgba(200, 0, 0, 255)).unwrap();
        vec![StrOrImg::Img(red)]
    }
}

struct TextThenImageResolver;

impl RunResolver for TextThenImageResolver {
    // ghost member of the capability trait; never called at runtime
    fn runs_spec(&self, _s: Seq<char>) -> Seq<RunView> {
        unreachable!()
    }

    fn resolve(&self, s: &Vec<char>) -> Vec<StrOrImg> {
        let red = Canvas::new(3, 3, &rgba(200, 0, 0, 255)).unwrap();
        vec![StrOrImg::Str(s.clone()), StrOrImg::Img(red)]
    }
}

fn block_font() -> MemoryFont {
    MemoryFont {
        supported: vec!['a'],
        proto: Some(GlyphRaster {
            min_x: 0,
            min_y: 0,
            width: 2,
            height: 2,
            coverage: vec![255; 4],
        }),
    }
}

#[test]
fn image_run_is_resized_and_overlaid() {
    let fonts = Fonts::new(vec![block_font()]);
    let mut canvas = Canvas::new(20, 12, &rgba(255, 255, 255, 255)).unwrap();
    let black = rgba(0, 0, 0, 255);
    // scale (10, 10): the image resizes to 9 by 9 and lands at cursor + 1
    fonts
        .write_to(
            &mut canvas,
            &Vec::new(),
            Scale { x: 10, y: 10 },
            &black,
            0,
            0,
            &OneImageResolver,
        )
        .unwrap();
    for y in 0..12u32 {
        for x in 0..20u32 {
            let expected = if (1..10).contains(&x) && y < 9 {
                vec![200, 0, 0, 255]
            } else {
                vec![255, 255, 255, 255]
            };
            assert_eq!(pixel(&canvas, x, y), expected, "at ({}, {})", x, y);
        }
    }
}

#[test]
fn text_and_image_runs_share_the_cursor() {
    let fonts = Fonts::new(vec![block_font()]);
    let mut canvas = Canvas::new(24, 12, &rgba(255, 255, 255, 255)).unwrap();
    let black = rgba(0, 0, 0, 255);
    let text: Vec<char> = "a".chars().collect();
    // the glyph advances 2 + 10 / 15 = 2; the image then starts at 2 + 1
    fonts
        .write_to(
            &mut canvas,
            &text,
            Scale { x: 10, y: 10 },
            &black,
            0,
            0,
            &TextThenImageResolver,
        )
        .unwrap();
    assert_eq!(pixel(&canvas, 0, 0), vec![0, 0, 0, 255]);
    assert_eq!(pixel(&canvas, 1, 1), vec![0, 0, 0, 255]);
    assert_eq!(pixel(&canvas, 3, 0), vec![200, 0, 0, 255]);
    assert_eq!(pixel(&canvas, 11, 8), vec![200, 0, 0, 255]);
    assert_eq!(pixel(&canvas, 12, 0), vec![255, 255, 255, 255]);
}
