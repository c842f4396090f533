//! End-to-end tests of the rendering engine on small synthetic fonts whose
//! glyphs are solid boxes, so every expected pixel can be computed by hand.

use automeme::canvas::{blend_alpha_value, blend_channel_value, Image, Mask};
use automeme::field::{Effect, Point, TextField, SHADOW_OFFSET_RATIO_HUNDREDTHS};
use automeme::font::{Font, Glyph, SizedFont};
use automeme::layout::{fit, PositionedGlyph};
use automeme::mask::generate_text_layer;
use automeme::render::{
    render_template, render_text_field_on_image, scaled_ratio_value, RenderError, Template,
};
use automeme::Color;

const WHITE: Color = Color { r: 255, g: 255, b: 255 };
const BLACK: Color = Color { r: 0, g: 0, b: 0 };
const RED: Color = Color { r: 255, g: 0, b: 0 };
const BLUE: Color = Color { r: 0, g: 0, b: 255 };

/// A glyph whose bitmap is a solid `w` by `h` box of full coverage sitting on
/// the baseline, advancing the pen by `adv`.
fn solid_glyph(ch: char, w: usize, h: usize, adv: usize) -> Glyph {
    let raster = Mask::from_bytes(w, h, vec![255u8; w * h]).unwrap();
    Glyph { ch, advance: adv, offset_x: 0, offset_y: -(h as i64), raster }
}

/// An invisible glyph (empty bitmap) with the given advance.
fn empty_glyph(ch: char, adv: usize) -> Glyph {
    let raster = Mask::from_bytes(0, 0, Vec::new()).unwrap();
    Glyph { ch, advance: adv, offset_x: 0, offset_y: 0, raster }
}

/// A font whose glyphs at size `s` are solid boxes `s/2` wide and `s` tall
/// with advance `s/2`; the space (and the fallback) advance by `s/2` and draw
/// nothing. Line height and ascent are both `s`.
fn box_font(max_size: usize, letters: &str) -> Font {
    let mut sizes = Vec::new();
    for s in 1..=max_size {
        let mut glyphs = vec![empty_glyph('\u{0}', s / 2), empty_glyph(' ', s / 2)];
        for ch in letters.chars() {
            glyphs.push(solid_glyph(ch, s / 2, s, s / 2));
        }
        sizes.push(SizedFont { size: s, line_height: s, ascent: s, glyphs });
    }
    Font { sizes }
}

/// A font whose only visible glyph is a solid `dim` by `dim` box at every
/// size, with line height and ascent `dim`.
fn dot_font(max_size: usize, ch: char, dim: usize) -> Font {
    let mut sizes = Vec::new();
    for s in 1..=max_size {
        let glyphs = vec![
            empty_glyph('\u{0}', dim),
            empty_glyph(' ', dim),
            solid_glyph(ch, dim, dim, dim),
        ];
        sizes.push(SizedFont { size: s, line_height: dim, ascent: dim, glyphs });
    }
    Font { sizes }
}

fn field(text: &str, start: (usize, usize), end: (usize, usize), size: usize) -> TextField {
    TextField {
        text: String::from(text),
        uppercase: false,
        start: Point { x: start.0, y: start.1 },
        end: Point { x: end.0, y: end.1 },
        text_size: size,
        text_color: BLACK,
        effects: Vec::new(),
    }
}

fn pixel(img: &Image, x: usize, y: usize) -> (u8, u8, u8, u8) {
    (img.channel(x, y, 0), img.channel(x, y, 1), img.channel(x, y, 2), img.channel(x, y, 3))
}

/// Scenario: a 500 by 300 white canvas, one centered field, text "HELLO" at
/// base size 48 that needs no shrinking. The output is white everywhere but
/// a solid black block of glyph pixels, horizontally and vertically centered
/// in the field's box.
#[test]
fn scenario_hello_centered() {
    let font = box_font(48, "HELO");
    let image = Image::new_filled(500, 300, WHITE);
    let f = field("HELLO", (50, 100), (450, 200), 48);
    let template = Template { image, font, text_fields: vec![f] };
    let out = render_template(template).unwrap();
    assert_eq!(out.width(), 500);
    assert_eq!(out.height(), 300);
    // Five glyphs, each 24 wide and 48 tall, contiguous: 120 wide in a
    // 400-wide box starting at x=50 -> x in [190, 310); 48 tall centered in
    // a 100-tall box starting at y=100 -> y in [126, 174).
    for y in 0..300 {
        for x in 0..500 {
            let expected = if (190..310).contains(&x) && (126..174).contains(&y) {
                (0, 0, 0, 255)
            } else {
                (255, 255, 255, 255)
            };
            assert_eq!(pixel(&out, x, y), expected);
        }
    }
}

/// Scenario: a 100 by 50 box and a long sentence at base size 40. The engine
/// shrinks the size one unit at a time until the wrapped block fits; with
/// this font's metrics the result is exactly 19, reproducibly.
#[test]
fn scenario_shrink_to_fit() {
    let font = box_font(40, "AVERYLONGSENTC");
    let text: Vec<char> = "A VERY LONG SENTENCE".chars().collect();
    let (size, glyphs) = fit(&text, false, 100, 50, 40, &font);
    assert_eq!(size, 19);
    assert!(!glyphs.is_empty());
    // The same inputs give the same size again.
    let (size2, _) = fit(&text, false, 100, 50, 40, &font);
    assert_eq!(size2, 19);
}

/// Scenario: a shadow at final size 40 sits exactly round(40 * 0.06) = 2
/// pixels down-right of the text layer, and a pixel covered by both the
/// shadow and the text takes the text color, not the shadow's.
#[test]
fn scenario_shadow_offset_and_stacking() {
    assert_eq!(scaled_ratio_value(40, SHADOW_OFFSET_RATIO_HUNDREDTHS), 2);
    let font = dot_font(40, 'I', 4);
    let image = Image::new_filled(40, 40, WHITE);
    let mut f = field("I", (10, 10), (30, 30), 40);
    f.effects = vec![Effect::Shadow { color: RED, offset_ratio_hundredths: 6 }];
    let template = Template { image, font, text_fields: vec![f] };
    let out = render_template(template).unwrap();
    // The glyph is a 4x4 box centered in the 20x20 field box: text pixels at
    // x,y in [18, 22); the shadow is the same box shifted by (+2, +2).
    assert_eq!(pixel(&out, 18, 18), (0, 0, 0, 255)); // text only
    assert_eq!(pixel(&out, 21, 21), (0, 0, 0, 255)); // covered by both: text wins
    assert_eq!(pixel(&out, 20, 20), (0, 0, 0, 255)); // covered by both: text wins
    assert_eq!(pixel(&out, 23, 23), (255, 0, 0, 255)); // shadow only
    assert_eq!(pixel(&out, 22, 23), (255, 0, 0, 255)); // shadow only
    assert_eq!(pixel(&out, 17, 17), (255, 255, 255, 255)); // untouched
    assert_eq!(pixel(&out, 24, 24), (255, 255, 255, 255)); // past the shadow
}

/// A border is a dilated silhouette under the text: with spread radius 1 a
/// single glyph pixel grows into a plus shape, whose center the text paints
/// over.
#[test]
fn border_dilates_silhouette() {
    let font = dot_font(40, 'I', 1);
    let image = Image::new_filled(40, 40, WHITE);
    let mut f = field("I", (10, 10), (30, 30), 40);
    // round(40 * 3 / 100) = 1 pixel of spread.
    f.effects = vec![Effect::Border { color: BLUE, size_ratio_hundredths: 3 }];
    let template = Template { image, font, text_fields: vec![f] };
    let out = render_template(template).unwrap();
    // The 1x1 glyph lands at (19, 19) in image coordinates.
    assert_eq!(pixel(&out, 19, 19), (0, 0, 0, 255)); // text over the border
    assert_eq!(pixel(&out, 18, 19), (0, 0, 255, 255));
    assert_eq!(pixel(&out, 20, 19), (0, 0, 255, 255));
    assert_eq!(pixel(&out, 19, 18), (0, 0, 255, 255));
    assert_eq!(pixel(&out, 19, 20), (0, 0, 255, 255));
    assert_eq!(pixel(&out, 18, 18), (255, 255, 255, 255)); // corner outside the disc
}

/// A field box exactly equal to the image bounds renders with nothing
/// clipped; a box exceeding the bounds by one pixel is refused with a
/// deterministic field-level error instead of a crash.
#[test]
fn boundary_exact_fit_and_one_past() {
    let font = dot_font(10, 'I', 1);
    let image = Image::new_filled(20, 10, WHITE);
    let f = field("I", (0, 0), (20, 10), 10);
    let out = render_text_field_on_image(image, &f, &font).unwrap();
    // The single glyph pixel is centered: x = (20-1)/2 = 9, y = (10-1)/2 + 1 - 1 = 4.
    assert_eq!(pixel(&out, 9, 4), (0, 0, 0, 255));

    let image2 = Image::new_filled(20, 10, WHITE);
    let too_wide = field("I", (0, 0), (21, 10), 10);
    let err = render_text_field_on_image(image2, &too_wide, &font).unwrap_err();
    assert_eq!(err, RenderError::FieldOutOfBounds);

    let image3 = Image::new_filled(20, 10, WHITE);
    let degenerate = field("I", (5, 5), (5, 9), 10);
    let err3 = render_text_field_on_image(image3, &degenerate, &font).unwrap_err();
    assert_eq!(err3, RenderError::FieldOutOfBounds);
}

/// A shadow pushed past the image edge by its offset is clipped pixel by
/// pixel, never an error: the box itself still fits the image exactly.
#[test]
fn shadow_clipped_at_image_edge() {
    let font = dot_font(40, 'I', 20);
    let image = Image::new_filled(20, 20, WHITE);
    let mut f = field("I", (0, 0), (20, 20), 40);
    f.effects = vec![Effect::Shadow { color: RED, offset_ratio_hundredths: 6 }];
    let template = Template { image, font, text_fields: vec![f] };
    // The 20x20 glyph fills the whole box; its shadow extends 2 pixels past
    // the right and bottom edges and must simply be clipped.
    let out = render_template(template).unwrap();
    for y in 0..20 {
        for x in 0..20 {
            assert_eq!(pixel(&out, x, y), (0, 0, 0, 255));
        }
    }
}

/// A template renders field by field in declared order; an out-of-bounds
/// field surfaces the error for the whole render.
#[test]
fn template_error_on_bad_field() {
    let font = dot_font(10, 'I', 1);
    let image = Image::new_filled(20, 10, WHITE);
    let good = field("I", (0, 0), (20, 10), 10);
    let bad = field("I", (0, 0), (20, 11), 10);
    let template = Template { image, font, text_fields: vec![good, bad] };
    assert_eq!(render_template(template).unwrap_err(), RenderError::FieldOutOfBounds);
}

/// Fields render in declared order: where two fields overlap, the later
/// one's text lands on top.
#[test]
fn fields_render_in_declared_order() {
    let font = dot_font(10, 'I', 4);
    let image = Image::new_filled(30, 30, WHITE);
    // Both fields center their 4x4 glyph on the same box.
    let mut first = field("I", (5, 5), (25, 25), 10);
    first.text_color = RED;
    let mut second = field("I", (5, 5), (25, 25), 10);
    second.text_color = BLUE;
    let template = Template { image, font, text_fields: vec![first, second] };
    let out = render_template(template).unwrap();
    // The glyph lands at x,y in [13, 17): the second field's color wins.
    assert_eq!(pixel(&out, 14, 14), (0, 0, 255, 255));
}

/// Rendering the same template twice produces byte-identical output.
#[test]
fn determinism_byte_identical() {
    let font = box_font(48, "HELO");
    let image = Image::new_filled(120, 60, Color { r: 9, g: 120, b: 200 });
    let mut f = field("HELLO", (5, 5), (115, 55), 48);
    f.effects = vec![
        Effect::Shadow { color: RED, offset_ratio_hundredths: 6 },
        Effect::Border { color: BLUE, size_ratio_hundredths: 3 },
    ];
    let template = Template { image, font, text_fields: vec![f] };
    let once = render_template(template.clone()).unwrap();
    let twice = render_template(template).unwrap();
    assert_eq!(once.bytes(), twice.bytes());
}

/// The uppercase flag transforms the text before layout: lowercase input
/// renders exactly like its uppercase form.
#[test]
fn uppercase_applied_before_layout() {
    let font = box_font(30, "HELO");
    let mut lower = field("hello", (2, 2), (98, 48), 30);
    lower.uppercase = true;
    let upper = field("HELLO", (2, 2), (98, 48), 30);
    let a = render_template(Template {
        image: Image::new_filled(100, 50, WHITE),
        font: font.clone(),
        text_fields: vec![lower],
    })
    .unwrap();
    let b = render_template(Template {
        image: Image::new_filled(100, 50, WHITE),
        font,
        text_fields: vec![upper],
    })
    .unwrap();
    assert_eq!(a.bytes(), b.bytes());
}

/// A character the font has no entry for falls back to glyph 0; with an
/// invisible fallback of equal advance it renders like a space.
#[test]
fn missing_glyph_uses_fallback() {
    let font = box_font(20, "H");
    let a = render_template(Template {
        image: Image::new_filled(100, 40, WHITE),
        font: font.clone(),
        text_fields: vec![field("HQH", (0, 0), (100, 40), 20)],
    })
    .unwrap();
    let b = render_template(Template {
        image: Image::new_filled(100, 40, WHITE),
        font,
        text_fields: vec![field("H H", (0, 0), (100, 40), 20)],
    })
    .unwrap();
    assert_eq!(a.bytes(), b.bytes());
}

/// Overlapping ink combines by maximum: the stronger coverage wins, it is
/// never overwritten by a weaker one drawn later.
#[test]
fn mask_combines_by_maximum() {
    let strong = Glyph {
        ch: 'a',
        advance: 1,
        offset_x: 0,
        offset_y: 0,
        raster: Mask::from_bytes(1, 1, vec![200u8]).unwrap(),
    };
    let weak = Glyph {
        ch: 'b',
        advance: 1,
        offset_x: 0,
        offset_y: 0,
        raster: Mask::from_bytes(1, 1, vec![100u8]).unwrap(),
    };
    let t = SizedFont { size: 1, line_height: 1, ascent: 1, glyphs: vec![strong, weak] };
    // Both glyphs land on cell (3, 3); the weaker is rasterized second.
    let glyphs = vec![
        PositionedGlyph { index: 0, size: 1, x: 3, y: 3 },
        PositionedGlyph { index: 1, size: 1, x: 3, y: 3 },
    ];
    let m = generate_text_layer(&glyphs, &t, 8, 8, 0);
    assert_eq!(m.cover(3, 3), 200);
    assert_eq!(m.cover(2, 3), 0);
}

/// The exact blend arithmetic: straight alpha, rounded to nearest.
#[test]
fn blend_formula_exact() {
    // (100*(255-51) + 200*51 + 127) / 255 = 30727 / 255 = 120.
    assert_eq!(blend_channel_value(100, 200, 51), 120);
    // Zero coverage leaves the destination untouched.
    assert_eq!(blend_channel_value(100, 200, 0), 100);
    // Full coverage takes the fill exactly.
    assert_eq!(blend_channel_value(13, 250, 255), 250);
    // Alpha grows toward full opacity.
    assert_eq!(blend_alpha_value(255, 7), 255);
    assert_eq!(blend_alpha_value(0, 255), 255);
    assert_eq!(blend_alpha_value(0, 0), 0);
}

/// The chosen size never exceeds the base size even when nothing fits: the
/// shrink loop stops at 1 instead of underflowing.
#[test]
fn fit_bounded_below_at_one() {
    let font = box_font(10, "W");
    // A box one pixel tall: no size fits, the engine stops at 1.
    let text: Vec<char> = "WWWWWWWW".chars().collect();
    let (size, _) = fit(&text, false, 2, 1, 10, &font);
    assert_eq!(size, 1);
}
