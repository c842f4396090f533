//! The field and template renderers. A field render resolves the effective
//! text, fits it into the field's box, and composites up to three colored
//! layers onto the canvas in a fixed stacking order: shadow under border
//! under text. A template render threads the canvas through every field in
//! declared order, surfacing a field-level error for a box that lies outside
//! the image instead of aborting.

use vstd::prelude::*;
use vstd::arithmetic::div_mod::lemma_fundamental_div_mod_converse;
use crate::canvas::{
    Image, blend_pixels, blend_cell, blend_channel, blend_layer_onto_image, chan_index, cell_index,
    lemma_chan_index_bounds, lemma_chan_index_decomp, lemma_cell_index_decomp,
    lemma_cell_index_bounds,
};
use crate::field::{
    TextField, Effect, first_shadow, first_border, find_shadow, find_border, lemma_first_shadow_in,
    lemma_first_border_in,
};
use crate::font::Font;
use crate::layout::{effective_text, fitted_size_spec, layout_at, fit};
use crate::mask::{mask_seq, mask_at_spec, generate_text_layer};

verus! {

/// Why a field could not be rendered.
#[derive(Clone, Copy, Debug, PartialEq, Eq, Structural)]
pub enum RenderError {
    /// The field's box is degenerate or not contained in the image.
    FieldOutOfBounds,
}

/// A template ready to render: the base canvas, the font model, and the
/// text fields in declared order.
#[derive(Clone, Debug)]
pub struct Template {
    /// The base picture the text is drawn onto.
    pub image: Image,
    /// The pre-rasterized font model.
    pub font: Font,
    /// The writable regions, rendered in this order.
    pub text_fields: Vec<TextField>,
}

/// An effect dimension scaled by the final font size: `round(size * ratio /
/// 100)` in integer arithmetic.
pub open spec fn scaled_ratio(size: int, ratio_hundredths: int) -> int {
    (size * ratio_hundredths + 50) / 100
}

/// Largest effect ratio the model admits (a hundred times the font size).
pub const MAX_EFFECT_RATIO: u32 = 10000;

/// The ratio of an effect is within the model's bounds.
pub open spec fn effect_ok(e: Effect) -> bool {
    match e {
        Effect::Border { color: _, size_ratio_hundredths } => size_ratio_hundredths
            <= MAX_EFFECT_RATIO,
        Effect::Shadow { color: _, offset_ratio_hundredths } => offset_ratio_hundredths
            <= MAX_EFFECT_RATIO,
    }
}

/// What the loader guarantees of a field against its font: a base size the
/// font covers, a text of sane length, and bounded effect ratios.
pub open spec fn field_wf(f: TextField, font: Font) -> bool {
    &&& 1 <= f.text_size <= font.sizes@.len()
    &&& f.text@.len() < 0x1_0000_0000
    &&& forall|i: int| 0 <= i < f.effects@.len() ==> effect_ok(#[trigger] f.effects@[i])
}

/// The field's box is non-degenerate and contained in a `w` by `h` image.
pub open spec fn geometry_ok(f: TextField, w: int, h: int) -> bool {
    &&& f.start.x < f.end.x
    &&& f.start.y < f.end.y
    &&& f.end.x <= w
    &&& f.end.y <= h
}

/// The box width of a field.
pub open spec fn field_box_w(f: TextField) -> int {
    f.end.x - f.start.x
}

/// The box height of a field.
pub open spec fn field_box_h(f: TextField) -> int {
    f.end.y - f.start.y
}

/// The font size the shrink loop settles on for this field.
pub open spec fn field_fitted_size(f: TextField, font: Font) -> int {
    fitted_size_spec(
        effective_text(f.text@, f.uppercase),
        font,
        field_box_w(f),
        field_box_h(f),
        f.text_size as int,
    )
}

/// The glyphs the layout engine places for this field, box-local.
pub open spec fn field_glyphs(f: TextField, font: Font) -> Seq<crate::layout::PositionedGlyph> {
    layout_at(
        effective_text(f.text@, f.uppercase),
        font.at_size(field_fitted_size(f, font)),
        field_box_w(f),
        field_box_h(f),
    )
}

/// The canvas after the optional effect layers of one field: the shadow
/// (the text mask tinted with the shadow color, placed down-right by the
/// scaled offset), then the border (the dilated mask tinted with the border
/// color, placed at the box origin).
pub open spec fn effects_pixels(px: Seq<u8>, w: int, h: int, f: TextField, font: Font) -> Seq<u8> {
    let size = field_fitted_size(f, font);
    let t = font.at_size(size);
    let glyphs = field_glyphs(f, font);
    let bw = field_box_w(f);
    let bh = field_box_h(f);
    let tmask = mask_seq(glyphs, t, 0, bw, bh);
    let after_shadow = match first_shadow(f.effects@) {
        Some(Effect::Shadow { color, offset_ratio_hundredths }) => {
            let off = scaled_ratio(size, offset_ratio_hundredths as int);
            blend_pixels(px, w, h, tmask, bw, bh, color, f.start.x + off, f.start.y + off)
        },
        _ => px,
    };
    match first_border(f.effects@) {
        Some(Effect::Border { color, size_ratio_hundredths }) => {
            let spread = scaled_ratio(size, size_ratio_hundredths as int);
            blend_pixels(
                after_shadow,
                w,
                h,
                mask_seq(glyphs, t, spread, bw, bh),
                bw,
                bh,
                color,
                f.start.x as int,
                f.start.y as int,
            )
        },
        _ => after_shadow,
    }
}

/// The canvas after rendering one field: the effect layers, then the text
/// itself (the undilated mask tinted with the text color, at the box
/// origin) blended last, on top of everything.
pub open spec fn field_pixels(px: Seq<u8>, w: int, h: int, f: TextField, font: Font) -> Seq<u8> {
    blend_pixels(
        effects_pixels(px, w, h, f, font),
        w,
        h,
        mask_seq(
            field_glyphs(f, font),
            font.at_size(field_fitted_size(f, font)),
            0,
            field_box_w(f),
            field_box_h(f),
        ),
        field_box_w(f),
        field_box_h(f),
        f.text_color,
        f.start.x as int,
        f.start.y as int,
    )
}

impl Template {
    /// What the loader guarantees of a whole template.
    pub open spec fn wf(self) -> bool {
        &&& self.image.wf()
        &&& self.font.wf()
        &&& forall|i: int|
            0 <= i < self.text_fields@.len() ==> field_wf(
                #[trigger] self.text_fields@[i],
                self.font,
            )
    }
}

/// Whether the effect's ratio is within the model's bounds.
pub fn effect_ok_value(e: &Effect) -> (r: bool)
    ensures
        r == effect_ok(*e),
{
    match e {
        Effect::Border { color: _, size_ratio_hundredths } => *size_ratio_hundredths
            <= MAX_EFFECT_RATIO,
        Effect::Shadow { color: _, offset_ratio_hundredths } => *offset_ratio_hundredths
            <= MAX_EFFECT_RATIO,
    }
}

/// Whether a field is well-formed against the font model.
pub fn field_wf_value(f: &TextField, font: &Font) -> (r: bool)
    ensures
        r == field_wf(*f, *font),
{
    if !(1 <= f.text_size && f.text_size <= font.sizes.len()) {
        return false;
    }
    let tlen = vstd::string::StrSliceExecFns::unicode_len(f.text.as_str());
    if !((tlen as u64) < 0x1_0000_0000u64) {
        return false;
    }
    let mut i: usize = 0;
    let mut ok = true;
    while i < f.effects.len()
        invariant
            i <= f.effects@.len(),
            ok == forall|k: int| 0 <= k < i ==> effect_ok(#[trigger] f.effects@[k]),
        decreases f.effects@.len() - i,
    {
        let e_ok = effect_ok_value(&f.effects[i]);
        ok = ok && e_ok;
        i = i + 1;
    }
    ok
}

impl Template {
    /// Whether the template meets what the renderer requires of its input
    /// (each glyph raster's own buffer already being well-formed, as every
    /// raster built through the library's constructors is).
    pub fn check(&self) -> (r: bool)
        requires
            forall|i: int, j: int|
                0 <= i < self.font.sizes@.len() && 0 <= j < (
                #[trigger] self.font.sizes@[i]).glyphs@.len() ==> (
            #[trigger] self.font.sizes@[i].glyphs@[j]).raster.wf(),
        ensures
            r == self.wf(),
    {
        if !self.image.check() {
            return false;
        }
        if !self.font.check() {
            return false;
        }
        let mut i: usize = 0;
        let mut ok = true;
        while i < self.text_fields.len()
            invariant
                i <= self.text_fields@.len(),
                ok == forall|k: int|
                    0 <= k < i ==> field_wf(#[trigger] self.text_fields@[k], self.font),
            decreases self.text_fields@.len() - i,
        {
            let f_ok = field_wf_value(&self.text_fields[i], &self.font);
            ok = ok && f_ok;
            i = i + 1;
        }
        ok
    }
}

/// The scaled effect dimension, executable form.
pub fn scaled_ratio_value(size: usize, ratio_hundredths: u32) -> (r: usize)
    requires
        size <= 65535,
        ratio_hundredths <= MAX_EFFECT_RATIO,
    ensures
        r == scaled_ratio(size as int, ratio_hundredths as int),
        r <= 0x1000_0000,
{
    proof {
        assert(0 <= (size as int) * (ratio_hundredths as int) <= 65535 * 10000)
            by (nonlinear_arith)
            requires
                0 <= size as int <= 65535,
                0 <= ratio_hundredths as int <= 10000,
        ;
    }
    let v: u64 = ((size as u64) * (ratio_hundredths as u64) + 50) / 100;
    v as usize
}

/// Renders one text field onto the canvas: resolves the effective text,
/// fits it into the field's box, and composites shadow, border and text in
/// that stacking order, each layer clipped to the image. A box that is
/// degenerate or not contained in the image is reported as
/// `FieldOutOfBounds` and leaves the canvas untouched.
pub fn render_text_field_on_image(image: Image, text_field: &TextField, font: &Font) -> (r: Result<
    Image,
    RenderError,
>)
    requires
        image.wf(),
        font.wf(),
        field_wf(*text_field, *font),
    ensures
        match r {
            Ok(out) => {
                &&& geometry_ok(*text_field, image.spec_width(), image.spec_height())
                &&& out.wf()
                &&& out.spec_width() == image.spec_width()
                &&& out.spec_height() == image.spec_height()
                &&& out.pixels_seq() == field_pixels(
                    image.pixels_seq(),
                    image.spec_width(),
                    image.spec_height(),
                    *text_field,
                    *font,
                )
            },
            Err(e) => {
                &&& e == RenderError::FieldOutOfBounds
                &&& !geometry_ok(*text_field, image.spec_width(), image.spec_height())
            },
        },
{
    let w = image.width();
    let h = image.height();
    if !(text_field.start.x < text_field.end.x && text_field.start.y < text_field.end.y
        && text_field.end.x <= w && text_field.end.y <= h) {
        return Err(RenderError::FieldOutOfBounds);
    }
    let plen = image.bytes().len();
    proof {
        image.lemma_len();
        assert(w * h <= w * h * 4) by (nonlinear_arith)
            requires
                0 <= w * h,
        ;
        assert(0 <= w * h) by (nonlinear_arith);
        assert((w as int) * 1 <= (w as int) * (h as int) && (h as int) * 1 <= (w as int) * (h
            as int)) by (nonlinear_arith)
            requires
                1 <= w as int,
                1 <= h as int,
        ;
        assert((w as int) * 4 <= (w as int) * (h as int) * 4 && (h as int) * 4 <= (w as int) * (h
            as int) * 4) by (nonlinear_arith)
            requires
                1 <= w as int,
                1 <= h as int,
        ;
    }
    let box_w = text_field.end.x - text_field.start.x;
    let box_h = text_field.end.y - text_field.start.y;
    proof {
        assert((box_w as int) * (box_h as int) <= (w as int) * (h as int)) by (nonlinear_arith)
            requires
                0 <= box_w as int <= w as int,
                0 <= box_h as int <= h as int,
        ;
    }
    let chars = crate::text::str_chars(text_field.text.as_str());
    let (size, glyphs) = fit(&chars, text_field.uppercase, box_w, box_h, text_field.text_size, font);
    let t = &font.sizes[size - 1];
    proof {
        assert(size == field_fitted_size(*text_field, *font));
        assert(glyphs@ == field_glyphs(*text_field, *font));
        assert(*t == font.at_size(size as int));
        assert(t.wf());
        assert(size <= 65535);
    }
    let text_mask = generate_text_layer(&glyphs, t, box_w, box_h, 0);
    let mut image = image;
    let ghost orig_px = image.pixels_seq();

    // Shadow layer: the text mask tinted with the shadow color, placed
    // down-right by the scaled offset, under everything else.
    match find_shadow(&text_field.effects) {
        Some(Effect::Shadow { color, offset_ratio_hundredths }) => {
            proof {
                lemma_first_shadow_in(text_field.effects@);
            }
            let off = scaled_ratio_value(size, offset_ratio_hundredths);
            blend_layer_onto_image(
                &mut image,
                &text_mask,
                color,
                (text_field.start.x as u64) + (off as u64),
                (text_field.start.y as u64) + (off as u64),
            );
        },
        _ => {},
    }
    proof {
        assert(image.pixels_seq() == (match first_shadow(text_field.effects@) {
            Some(Effect::Shadow { color, offset_ratio_hundredths }) => {
                let off = scaled_ratio(size as int, offset_ratio_hundredths as int);
                blend_pixels(
                    orig_px,
                    w as int,
                    h as int,
                    mask_seq(glyphs@, *t, 0, box_w as int, box_h as int),
                    box_w as int,
                    box_h as int,
                    color,
                    text_field.start.x + off,
                    text_field.start.y + off,
                )
            },
            _ => orig_px,
        }));
    }
    let ghost after_shadow = image.pixels_seq();

    // Border layer: the dilated mask tinted with the border color, at the
    // box origin, above the shadow and under the text.
    match find_border(&text_field.effects) {
        Some(Effect::Border { color, size_ratio_hundredths }) => {
            proof {
                lemma_first_border_in(text_field.effects@);
            }
            let spread = scaled_ratio_value(size, size_ratio_hundredths);
            let border_mask = generate_text_layer(&glyphs, t, box_w, box_h, spread);
            blend_layer_onto_image(
                &mut image,
                &border_mask,
                color,
                text_field.start.x as u64,
                text_field.start.y as u64,
            );
        },
        _ => {},
    }
    proof {
        assert(image.pixels_seq() == effects_pixels(
            orig_px,
            w as int,
            h as int,
            *text_field,
            *font,
        ));
    }

    // Text layer, always, on top of everything.
    blend_layer_onto_image(
        &mut image,
        &text_mask,
        text_field.text_color,
        text_field.start.x as u64,
        text_field.start.y as u64,
    );
    proof {
        assert(image.pixels_seq() == field_pixels(orig_px, w as int, h as int, *text_field, *font));
    }
    Ok(image)
}

/// The canvas after rendering the given fields in order.
pub open spec fn render_pixels_rec(
    px: Seq<u8>,
    w: int,
    h: int,
    fields: Seq<TextField>,
    font: Font,
) -> Seq<u8>
    decreases fields.len(),
{
    if fields.len() == 0 {
        px
    } else {
        field_pixels(
            render_pixels_rec(px, w, h, fields.drop_last(), font),
            w,
            h,
            fields.last(),
            font,
        )
    }
}

/// Every field's box is contained in a `w` by `h` image.
pub open spec fn all_fields_in_bounds(fields: Seq<TextField>, w: int, h: int) -> bool {
    forall|i: int| 0 <= i < fields.len() ==> geometry_ok(#[trigger] fields[i], w, h)
}

/// Renders a template completely: every field in declared order, the canvas
/// threaded through each field render. Succeeds with the finished canvas
/// when every field's box lies inside the image; otherwise stops at the
/// first offending field and surfaces its error.
pub fn render_template(template: Template) -> (r: Result<Image, RenderError>)
    requires
        template.wf(),
    ensures
        match r {
            Ok(out) => {
                &&& all_fields_in_bounds(
                    template.text_fields@,
                    template.image.spec_width(),
                    template.image.spec_height(),
                )
                &&& out.wf()
                &&& out.spec_width() == template.image.spec_width()
                &&& out.spec_height() == template.image.spec_height()
                &&& out.pixels_seq() == render_pixels_rec(
                    template.image.pixels_seq(),
                    template.image.spec_width(),
                    template.image.spec_height(),
                    template.text_fields@,
                    template.font,
                )
            },
            Err(e) => {
                &&& e == RenderError::FieldOutOfBounds
                &&& !all_fields_in_bounds(
                    template.text_fields@,
                    template.image.spec_width(),
                    template.image.spec_height(),
                )
            },
        },
{
    let ghost w = template.image.spec_width();
    let ghost h = template.image.spec_height();
    let ghost orig_px = template.image.pixels_seq();
    let ghost fields_seq = template.text_fields@;
    let Template { image, font, text_fields } = template;
    proof {
        assert(image == template.image);
        assert(font == template.font);
        assert(text_fields@ == fields_seq);
    }
    let mut image = image;
    let mut i: usize = 0;
    let n = text_fields.len();
    while i < n
        invariant
            font.wf(),
            i <= n,
            n == fields_seq.len(),
            fields_seq == text_fields@,
            fields_seq == template.text_fields@,
            w == template.image.spec_width(),
            h == template.image.spec_height(),
            orig_px == template.image.pixels_seq(),
            font == template.font,
            forall|k: int| 0 <= k < fields_seq.len() ==> field_wf(#[trigger] fields_seq[k], font),
            image.wf(),
            image.spec_width() == w,
            image.spec_height() == h,
            image.pixels_seq() == render_pixels_rec(orig_px, w, h, fields_seq.take(i as int), font),
            forall|k: int| 0 <= k < i ==> geometry_ok(#[trigger] fields_seq[k], w, h),
        decreases n - i,
    {
        let field = &text_fields[i];
        match render_text_field_on_image(image, field, &font) {
            Ok(out) => {
                image = out;
            },
            Err(e) => {
                proof {
                    assert(!geometry_ok(fields_seq[i as int], w, h));
                    assert(!all_fields_in_bounds(fields_seq, w, h));
                }
                return Err(e);
            },
        }
        proof {
            assert(fields_seq.take(i + 1).drop_last() =~= fields_seq.take(i as int));
            assert(fields_seq.take(i + 1).last() == fields_seq[i as int]);
        }
        i = i + 1;
    }
    proof {
        assert(fields_seq.take(fields_seq.len() as int) =~= fields_seq);
    }
    Ok(image)
}


/// A field box contained in the image never clips: every cell of the
/// box-sized coverage mask, placed at the box's start, has its own pixel
/// inside the image. Clipping can only touch layers that are displaced past
/// the edge, such as a shadow's offset copy.
pub proof fn lemma_box_inside_image_never_clips(f: TextField, w: int, h: int)
    requires
        geometry_ok(f, w, h),
    ensures
        forall|mx: int, my: int|
            #![trigger cell_index(field_box_w(f), mx, my)]
            0 <= mx < field_box_w(f) && 0 <= my < field_box_h(f) ==> 0 <= f.start.x + mx < w && 0
                <= f.start.y + my < h,
{
}

/// Rendering is deterministic: two templates whose images hold the same
/// bytes and dimensions, with the same font model and the same fields,
/// render to the same bytes. There is no hidden randomness in the renderer:
/// the output is a function of exactly these inputs.
pub proof fn lemma_render_deterministic(a: Template, b: Template)
    requires
        a.image.pixels_seq() == b.image.pixels_seq(),
        a.image.spec_width() == b.image.spec_width(),
        a.image.spec_height() == b.image.spec_height(),
        a.font == b.font,
        a.text_fields@ == b.text_fields@,
    ensures
        render_pixels_rec(
            a.image.pixels_seq(),
            a.image.spec_width(),
            a.image.spec_height(),
            a.text_fields@,
            a.font,
        ) == render_pixels_rec(
            b.image.pixels_seq(),
            b.image.spec_width(),
            b.image.spec_height(),
            b.text_fields@,
            b.font,
        ),
{
}

/// Stacking order: rendering a field blends the text layer last, on top of
/// whatever the shadow and border layers left on the canvas. The finished
/// field equals the text blend applied to the canvas after the effects.
pub proof fn lemma_text_layer_on_top(px: Seq<u8>, w: int, h: int, f: TextField, font: Font)
    ensures
        field_pixels(px, w, h, f, font) == blend_pixels(
            effects_pixels(px, w, h, f, font),
            w,
            h,
            mask_seq(
                field_glyphs(f, font),
                font.at_size(field_fitted_size(f, font)),
                0,
                field_box_w(f),
                field_box_h(f),
            ),
            field_box_w(f),
            field_box_h(f),
            f.text_color,
            f.start.x as int,
            f.start.y as int,
        ),
{
}

/// A pixel the text mask covers fully takes the text color, whatever any
/// shadow or border put there first: for a mask cell (mx, my) with full
/// coverage, the finished field holds exactly the text color in each color
/// channel at the corresponding canvas pixel.
pub proof fn lemma_stacking_full_coverage(
    px: Seq<u8>,
    w: int,
    h: int,
    f: TextField,
    font: Font,
    mx: int,
    my: int,
    c: int,
)
    requires
        px.len() == w * h * 4,
        1 <= w,
        1 <= h,
        0 <= mx < field_box_w(f),
        0 <= my < field_box_h(f),
        f.start.x + mx < w,
        f.start.y + my < h,
        0 <= c < 3,
        mask_at_spec(
            field_glyphs(f, font),
            font.at_size(field_fitted_size(f, font)),
            0,
            mx,
            my,
        ) == 255,
    ensures
        field_pixels(px, w, h, f, font)[chan_index(w, f.start.x + mx, f.start.y + my, c)] == (if c
            == 0 {
            f.text_color.r
        } else if c == 1 {
            f.text_color.g
        } else {
            f.text_color.b
        }),
{
    let x = f.start.x + mx;
    let y = f.start.y + my;
    let bw = field_box_w(f);
    let bh = field_box_h(f);
    let glyphs = field_glyphs(f, font);
    let t = font.at_size(field_fitted_size(f, font));
    let tmask = mask_seq(glyphs, t, 0, bw, bh);
    let mid = effects_pixels(px, w, h, f, font);
    assert(mid.len() == px.len());
    let i = chan_index(w, x, y, c);
    lemma_chan_index_bounds(w, h, x, y, c);
    lemma_chan_index_decomp(w, h, x, y, c);
    let cell = cell_index(bw, mx, my);
    lemma_cell_index_bounds(bw, bh, mx, my);
    lemma_cell_index_decomp(bw, bh, mx, my);
    assert(tmask[cell] == 255u8);
    assert(field_pixels(px, w, h, f, font)[i] == blend_cell(
        mid,
        w,
        tmask,
        bw,
        bh,
        f.text_color,
        f.start.x as int,
        f.start.y as int,
        x,
        y,
        c,
    ));
    let fill: u8 = if c == 0 {
        f.text_color.r
    } else if c == 1 {
        f.text_color.g
    } else {
        f.text_color.b
    };
    assert(blend_cell(mid, w, tmask, bw, bh, f.text_color, f.start.x as int, f.start.y as int, x, y,
        c) == blend_channel(mid[i], fill, 255u8));
    lemma_fundamental_div_mod_converse((fill as int) * 255 + 127, 255, fill as int, 127);
    assert((mid[i] as int) * (255 - 255) == 0) by (nonlinear_arith);
    assert((fill as int) * 255 == 255 * (fill as int)) by (nonlinear_arith);
    assert(blend_channel(mid[i], fill, 255u8) == fill);
}

} // verus!
