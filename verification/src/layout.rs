//! The layout engine: fits a text run into a box. The text is word-wrapped
//! at a candidate pixel size, centered both ways, and the size is decremented
//! one unit at a time (never below 1) until the wrapped block's height fits
//! the box. Output is the chosen size and the positioned glyphs, in box-local
//! coordinates.

use vstd::prelude::*;
use vstd::arithmetic::mul::lemma_mul_inequality;
use crate::font::{Font, SizedFont, MAX_GLYPH_EXTENT, glyph_index, lemma_glyph_index_bounds};
use crate::text::{
    split_on, seq_views, pieces_cost, upper_seq, upper_chars, split_chars, push_all,
    lemma_split_on_cost, lemma_split_on_len, lemma_pieces_cost_first, lemma_pieces_cost_nonneg,
};

verus! {

/// A glyph chosen and placed by the layout engine: which glyph of the size's
/// table, the size it belongs to, and the top-left corner of its bitmap in
/// the coordinates of the field's box.
#[derive(Clone, Copy, Debug, PartialEq, Eq, Structural)]
pub struct PositionedGlyph {
    /// Index into the glyph table of the chosen size.
    pub index: usize,
    /// The pixel size this glyph was laid out at.
    pub size: usize,
    /// Horizontal position of the bitmap's left edge, box-local.
    pub x: i64,
    /// Vertical position of the bitmap's top edge, box-local.
    pub y: i64,
}

/// The text a field lays out: upper-cased first when the field asks for it.
pub open spec fn effective_text(text: Seq<char>, uppercase: bool) -> Seq<char> {
    if uppercase {
        upper_seq(text)
    } else {
        text
    }
}

/// Total horizontal advance of a character sequence.
pub open spec fn seq_width(t: SizedFont, s: Seq<char>) -> int
    decreases s.len(),
{
    if s.len() == 0 {
        0
    } else {
        seq_width(t, s.drop_last()) + t.advance_of(s.last())
    }
}

/// Widths are nonnegative and at most the glyph-extent bound per character.
pub proof fn lemma_seq_width_bounds(t: SizedFont, s: Seq<char>)
    requires
        t.wf(),
    ensures
        0 <= seq_width(t, s) <= MAX_GLYPH_EXTENT * s.len(),
    decreases s.len(),
{
    if s.len() == 0 {
    } else {
        lemma_seq_width_bounds(t, s.drop_last());
        lemma_glyph_index_bounds(t.glyphs@, s.last());
        assert(MAX_GLYPH_EXTENT * (s.len() - 1) + MAX_GLYPH_EXTENT == MAX_GLYPH_EXTENT * s.len())
            by (nonlinear_arith);
    }
}

/// Word-wrapping, greedily: the pending line takes the next word when line,
/// separating space and word together still fit the box width; otherwise the
/// pending line is emitted and the word starts a new one. The first word of a
/// line is never split, however wide.
pub open spec fn wrap_rec(words: Seq<Seq<char>>, cur: Seq<char>, t: SizedFont, box_w: int) -> Seq<
    Seq<char>,
>
    decreases words.len(),
{
    if words.len() == 0 {
        seq![cur]
    } else {
        let w0 = words[0];
        if seq_width(t, cur) + t.advance_of(' ') + seq_width(t, w0) <= box_w {
            wrap_rec(words.drop_first(), cur + seq![' '] + w0, t, box_w)
        } else {
            seq![cur] + wrap_rec(words.drop_first(), w0, t, box_w)
        }
    }
}

/// The lines of the wrapped text: empty text yields no lines; otherwise the
/// space-separated words are wrapped greedily.
pub open spec fn lines_of(eff: Seq<char>, t: SizedFont, box_w: int) -> Seq<Seq<char>> {
    if eff.len() == 0 {
        Seq::empty()
    } else {
        let ws = split_on(eff, ' ');
        wrap_rec(ws.drop_first(), ws[0], t, box_w)
    }
}

/// Wrapping emits at least one line and at most one line per word plus one.
pub proof fn lemma_wrap_rec_len(words: Seq<Seq<char>>, cur: Seq<char>, t: SizedFont, box_w: int)
    ensures
        1 <= wrap_rec(words, cur, t, box_w).len() <= words.len() + 1,
    decreases words.len(),
{
    if words.len() > 0 {
        let w0 = words[0];
        if seq_width(t, cur) + t.advance_of(' ') + seq_width(t, w0) <= box_w {
            lemma_wrap_rec_len(words.drop_first(), cur + seq![' '] + w0, t, box_w);
        } else {
            lemma_wrap_rec_len(words.drop_first(), w0, t, box_w);
        }
    }
}

/// No wrapped line is longer than the pending line plus the cost of the
/// remaining words.
pub proof fn lemma_wrap_rec_line_len(words: Seq<Seq<char>>, cur: Seq<char>, t: SizedFont, box_w: int)
    ensures
        forall|k: int|
            0 <= k < wrap_rec(words, cur, t, box_w).len() ==> (#[trigger] wrap_rec(
                words,
                cur,
                t,
                box_w,
            )[k]).len() <= cur.len() + pieces_cost(words),
    decreases words.len(),
{
    lemma_pieces_cost_nonneg(words);
    let res = wrap_rec(words, cur, t, box_w);
    if words.len() == 0 {
    } else {
        let w0 = words[0];
        lemma_pieces_cost_first(words);
        lemma_pieces_cost_nonneg(words.drop_first());
        if seq_width(t, cur) + t.advance_of(' ') + seq_width(t, w0) <= box_w {
            let cur2 = cur + seq![' '] + w0;
            lemma_wrap_rec_line_len(words.drop_first(), cur2, t, box_w);
            assert forall|k: int| 0 <= k < res.len() implies (#[trigger] res[k]).len() <= cur.len()
                + pieces_cost(words) by {
                assert(res[k] == wrap_rec(words.drop_first(), cur2, t, box_w)[k]);
            }
        } else {
            lemma_wrap_rec_line_len(words.drop_first(), w0, t, box_w);
            let rest = wrap_rec(words.drop_first(), w0, t, box_w);
            assert forall|k: int| 0 <= k < res.len() implies (#[trigger] res[k]).len() <= cur.len()
                + pieces_cost(words) by {
                if k == 0 {
                    assert(res[k] == cur);
                } else {
                    assert(res[k] == rest[k - 1]);
                }
            }
        }
    }
}

/// Every line of a wrapped text fits in the text's own length.
pub proof fn lemma_lines_of_line_len(eff: Seq<char>, t: SizedFont, box_w: int)
    ensures
        forall|k: int|
            0 <= k < lines_of(eff, t, box_w).len() ==> (#[trigger] lines_of(eff, t, box_w)[k]).len()
                <= eff.len(),
        lines_of(eff, t, box_w).len() <= eff.len() + 1,
{
    if eff.len() == 0 {
    } else {
        let ws = split_on(eff, ' ');
        lemma_split_on_len(eff, ' ');
        lemma_split_on_cost(eff, ' ');
        lemma_pieces_cost_first(ws);
        assert(ws.drop_first().len() == ws.len() - 1);
        lemma_wrap_rec_len(ws.drop_first(), ws[0], t, box_w);
        lemma_wrap_rec_line_len(ws.drop_first(), ws[0], t, box_w);
        assert(ws[0].len() + pieces_cost(ws.drop_first()) == eff.len());
    }
}

/// Centering within a span: half the slack, shifted left when the content
/// overflows the span.
pub open spec fn half_center(outer: int, inner: int) -> int {
    if inner <= outer {
        (outer - inner) / 2
    } else {
        -((inner - outer) / 2)
    }
}

/// Total horizontal advance, executable form.
pub fn text_width(t: &SizedFont, line: &Vec<char>) -> (r: u64)
    requires
        t.wf(),
        line@.len() < 0x1_0000_0000,
    ensures
        r == seq_width(*t, line@),
{
    let mut w: u64 = 0;
    let mut i: usize = 0;
    while i < line.len()
        invariant
            t.wf(),
            i <= line@.len(),
            line@.len() < 0x1_0000_0000,
            w == seq_width(*t, line@.take(i as int)),
            w <= MAX_GLYPH_EXTENT * i,
        decreases line@.len() - i,
    {
        let gi = t.find_glyph(line[i]);
        let adv = t.glyphs[gi].advance;
        proof {
            assert(line@.take(i + 1).drop_last() =~= line@.take(i as int));
            assert(line@.take(i + 1).last() == line@[i as int]);
            assert(MAX_GLYPH_EXTENT * i + MAX_GLYPH_EXTENT == MAX_GLYPH_EXTENT * (i + 1))
                by (nonlinear_arith);
            lemma_mul_inequality(i + 1, 0x1_0000_0000, MAX_GLYPH_EXTENT as int);
            assert((i + 1) * MAX_GLYPH_EXTENT == MAX_GLYPH_EXTENT * (i + 1)) by (nonlinear_arith);
        }
        w = w + (adv as u64);
        i = i + 1;
    }
    proof {
        assert(line@.take(line@.len() as int) =~= line@);
    }
    w
}

/// Word-wraps the text into lines at the given size, executable form.
pub fn layout_lines(eff: &Vec<char>, t: &SizedFont, box_w: u64) -> (r: Vec<Vec<char>>)
    requires
        t.wf(),
        eff@.len() < 0x1_0000_0000,
    ensures
        seq_views(r@) == lines_of(eff@, *t, box_w as int),
        forall|k: int| 0 <= k < r@.len() ==> (#[trigger] r@[k])@.len() <= eff@.len(),
{
    let ghost lines_spec = lines_of(eff@, *t, box_w as int);
    if eff.len() == 0 {
        let r: Vec<Vec<char>> = Vec::new();
        proof {
            assert(seq_views(r@) =~= lines_spec);
        }
        return r;
    }
    let words = split_chars(eff, ' ');
    let ghost ws = seq_views(words@);
    proof {
        lemma_split_on_cost(eff@, ' ');
        lemma_pieces_cost_first(ws);
        lemma_pieces_cost_nonneg(ws.drop_first());
        crate::text::lemma_pieces_cost_each(ws);
        assert(ws.skip(1) =~= ws.drop_first());
    }
    let space_gi = t.find_glyph(' ');
    let space_adv = t.glyphs[space_gi].advance;
    let mut done: Vec<Vec<char>> = Vec::new();
    let mut cur: Vec<char> = Vec::new();
    push_all(&mut cur, &words[0]);
    let mut cur_w: u64 = text_width(t, &cur);
    let mut j: usize = 1;
    while j < words.len()
        invariant
            t.wf(),
            eff@.len() < 0x1_0000_0000,
            1 <= j <= words@.len(),
            ws == seq_views(words@),
            ws.len() == words@.len(),
            space_adv == t.advance_of(' '),
            space_adv <= MAX_GLYPH_EXTENT,
            cur@.len() + pieces_cost(ws.skip(j as int)) <= eff@.len(),
            forall|k: int| j <= k < ws.len() ==> (#[trigger] ws[k]).len() <= eff@.len(),
            cur_w == seq_width(*t, cur@),
            lines_spec == seq_views(done@) + wrap_rec(ws.skip(j as int), cur@, *t, box_w as int),
            forall|k: int| 0 <= k < done@.len() ==> (#[trigger] done@[k])@.len() <= eff@.len(),
        decreases words@.len() - j,
    {
        proof {
            assert(ws.skip(j as int)[0] == ws[j as int]);
            assert(ws.skip(j as int).drop_first() =~= ws.skip(j + 1));
            lemma_pieces_cost_first(ws.skip(j as int));
            lemma_pieces_cost_nonneg(ws.skip(j + 1));
            lemma_seq_width_bounds(*t, cur@);
            lemma_seq_width_bounds(*t, ws[j as int]);
            lemma_mul_inequality(cur@.len() as int, 0x1_0000_0000, MAX_GLYPH_EXTENT as int);
            lemma_mul_inequality(ws[j as int].len() as int, 0x1_0000_0000, MAX_GLYPH_EXTENT as int);
            assert(MAX_GLYPH_EXTENT * cur@.len() == cur@.len() * MAX_GLYPH_EXTENT)
                by (nonlinear_arith);
            assert(MAX_GLYPH_EXTENT * ws[j as int].len() == ws[j as int].len() * MAX_GLYPH_EXTENT)
                by (nonlinear_arith);
        }
        let wj_w = text_width(t, &words[j]);
        proof {
            assert(words@[j as int]@ == ws[j as int]);
        }
        if cur_w + (space_adv as u64) + wj_w <= box_w {
            let ghost ocur = cur@;
            cur.push(' ');
            push_all(&mut cur, &words[j]);
            proof {
                assert(cur@ =~= ocur + seq![' '] + ws[j as int]);
                lemma_seq_width_concat(*t, ocur + seq![' '], ws[j as int]);
                lemma_seq_width_concat(*t, ocur, seq![' ']);
                lemma_seq_width_single(*t, ' ');
                assert((ocur + seq![' ']) + ws[j as int] =~= ocur + seq![' '] + ws[j as int]);
            }
            cur_w = cur_w + (space_adv as u64) + wj_w;
        } else {
            let ghost odone = done@;
            let ghost ocur = cur@;
            done.push(cur);
            let mut newcur: Vec<char> = Vec::new();
            push_all(&mut newcur, &words[j]);
            cur = newcur;
            cur_w = wj_w;
            proof {
                assert(seq_views(done@) =~= seq_views(odone).push(ocur));
                assert(seq_views(done@) + wrap_rec(ws.skip(j + 1), cur@, *t, box_w as int)
                    =~= seq_views(odone) + (seq![ocur] + wrap_rec(
                    ws.skip(j + 1),
                    cur@,
                    *t,
                    box_w as int,
                )));
            }
        }
        j = j + 1;
    }
    proof {
        assert(ws.skip(ws.len() as int) =~= Seq::<Seq<char>>::empty());
        lemma_pieces_cost_nonneg(ws.skip(words@.len() as int));
    }
    let ghost odone = done@;
    let ghost ocur = cur@;
    done.push(cur);
    proof {
        assert(seq_views(done@) =~= seq_views(odone).push(ocur));
        assert(seq_views(odone) + seq![ocur] =~= seq_views(odone).push(ocur));
    }
    done
}

/// The width of a single character is its advance.
pub proof fn lemma_seq_width_single(t: SizedFont, c: char)
    ensures
        seq_width(t, seq![c]) == t.advance_of(c),
{
    let s = seq![c];
    assert(s.drop_last() =~= Seq::<char>::empty());
    assert(s.last() == c);
    assert(seq_width(t, s) == seq_width(t, s.drop_last()) + t.advance_of(c));
}

/// Width distributes over concatenation.
pub proof fn lemma_seq_width_concat(t: SizedFont, a: Seq<char>, b: Seq<char>)
    ensures
        seq_width(t, a + b) == seq_width(t, a) + seq_width(t, b),
    decreases b.len(),
{
    if b.len() == 0 {
        assert(a + b =~= a);
    } else {
        lemma_seq_width_concat(t, a, b.drop_last());
        assert((a + b).drop_last() =~= a + b.drop_last());
        assert((a + b).last() == b.last());
    }
}


/// The glyph the layout engine emits for character `ch` with the pen at
/// `pen` on the line whose baseline is `baseline`.
pub open spec fn pg_of(t: SizedFont, ch: char, pen: int, baseline: int) -> PositionedGlyph {
    let gi = glyph_index(t.glyphs@, ch);
    let g = t.glyphs@[gi];
    PositionedGlyph {
        index: gi as usize,
        size: t.size,
        x: (pen + g.offset_x) as i64,
        y: (baseline + g.offset_y) as i64,
    }
}

/// The glyphs of one line, left to right, the pen starting at `pen0` and
/// advancing by each glyph's advance.
pub open spec fn line_glyphs(t: SizedFont, line: Seq<char>, pen0: int, baseline: int) -> Seq<
    PositionedGlyph,
>
    decreases line.len(),
{
    if line.len() == 0 {
        Seq::empty()
    } else {
        line_glyphs(t, line.drop_last(), pen0, baseline).push(
            pg_of(t, line.last(), pen0 + seq_width(t, line.drop_last()), baseline),
        )
    }
}

/// The glyphs of all lines: line `i` is horizontally centered on its own
/// width and sits on the baseline `top + i*line_height + ascent`.
pub open spec fn glyphs_of_lines(t: SizedFont, lines: Seq<Seq<char>>, box_w: int, top: int) -> Seq<
    PositionedGlyph,
>
    decreases lines.len(),
{
    if lines.len() == 0 {
        Seq::empty()
    } else {
        glyphs_of_lines(t, lines.drop_last(), box_w, top) + line_glyphs(
            t,
            lines.last(),
            half_center(box_w, seq_width(t, lines.last())),
            top + (lines.len() - 1) * t.line_height + t.ascent,
        )
    }
}

/// The full layout of the text at one size: wrapped lines, centered both
/// ways within the box.
pub open spec fn layout_at(eff: Seq<char>, t: SizedFont, box_w: int, box_h: int) -> Seq<
    PositionedGlyph,
> {
    let lines = lines_of(eff, t, box_w);
    glyphs_of_lines(t, lines, box_w, half_center(box_h, lines.len() * t.line_height))
}

/// Whether the wrapped block's height fits the box at this size.
pub open spec fn fits(eff: Seq<char>, t: SizedFont, box_w: int, box_h: int) -> bool {
    lines_of(eff, t, box_w).len() * t.line_height <= box_h
}

/// The size the shrink loop settles on, starting from `s`: the size itself
/// when its wrapped block fits, else one less, and never below 1.
pub open spec fn fitted_size_spec(eff: Seq<char>, font: Font, box_w: int, box_h: int, s: int) -> int
    decreases s,
{
    if s <= 1 {
        1
    } else if fits(eff, font.at_size(s), box_w, box_h) {
        s
    } else {
        fitted_size_spec(eff, font, box_w, box_h, s - 1)
    }
}

/// The chosen size never exceeds the base size, reaches it only through unit
/// decrements each of which failed to fit, and stops at 1 at the latest: the
/// chosen size fits unless it is the floor, and every size between it and
/// the base size (exclusive, inclusive) does not fit.
pub proof fn lemma_fitted_size(eff: Seq<char>, font: Font, box_w: int, box_h: int, base: int)
    requires
        1 <= base,
    ensures
        1 <= fitted_size_spec(eff, font, box_w, box_h, base) <= base,
        fits(eff, font.at_size(fitted_size_spec(eff, font, box_w, box_h, base)), box_w, box_h)
            || fitted_size_spec(eff, font, box_w, box_h, base) == 1,
        forall|s: int|
            fitted_size_spec(eff, font, box_w, box_h, base) < s <= base ==> !fits(
                eff,
                font.at_size(s),
                box_w,
                box_h,
            ),
    decreases base,
{
    if base == 1 {
    } else if fits(eff, font.at_size(base), box_w, box_h) {
    } else {
        lemma_fitted_size(eff, font, box_w, box_h, base - 1);
    }
}

/// Centering within a span, executable form; the result is bounded by the
/// two extents.
pub fn half_center_value(outer: u64, inner: u64) -> (r: i64)
    requires
        outer <= 0x4000_0000_0000_0000,
        inner <= 0x4000_0000_0000_0000,
    ensures
        r == half_center(outer as int, inner as int),
        -(inner as int) <= r as int <= outer as int,
{
    if inner <= outer {
        ((outer - inner) / 2) as i64
    } else {
        -(((inner - outer) / 2) as i64)
    }
}

/// Emits the glyphs of one line onto `out`, the pen starting at `pen0`.
fn push_line_glyphs(
    out: &mut Vec<PositionedGlyph>,
    t: &SizedFont,
    line: &Vec<char>,
    pen0: i64,
    baseline: i64,
)
    requires
        t.wf(),
        line@.len() < 0x1_0000_0000,
        -0x4100_0000_0000_0000 <= pen0 as int <= 0x4100_0000_0000_0000,
        -0x4100_0000_0000_0000 <= baseline as int <= 0x4100_0000_0000_0000,
    ensures
        final(out)@ == old(out)@ + line_glyphs(*t, line@, pen0 as int, baseline as int),
        forall|k: int|
            old(out)@.len() <= k < final(out)@.len() ==> (#[trigger] final(out)@[k]).index
                < t.glyphs@.len() && final(out)@[k].size == t.size
                && -0x4300_0000_0000_0000 <= final(out)@[k].x as int <= 0x4300_0000_0000_0000
                && -0x4300_0000_0000_0000 <= final(out)@[k].y as int <= 0x4300_0000_0000_0000,
{
    let mut pen: i64 = pen0;
    let mut i: usize = 0;
    while i < line.len()
        invariant
            t.wf(),
            i <= line@.len(),
            line@.len() < 0x1_0000_0000,
            -0x4100_0000_0000_0000 <= pen0 as int <= 0x4100_0000_0000_0000,
            -0x4100_0000_0000_0000 <= baseline as int <= 0x4100_0000_0000_0000,
            pen as int == pen0 as int + seq_width(*t, line@.take(i as int)),
            0 <= seq_width(*t, line@.take(i as int)) <= MAX_GLYPH_EXTENT * i,
            out@ == old(out)@ + line_glyphs(*t, line@.take(i as int), pen0 as int, baseline as int),
            forall|k: int|
                old(out)@.len() <= k < out@.len() ==> (#[trigger] out@[k]).index < t.glyphs@.len()
                    && out@[k].size == t.size
                    && -0x4300_0000_0000_0000 <= out@[k].x as int <= 0x4300_0000_0000_0000
                    && -0x4300_0000_0000_0000 <= out@[k].y as int <= 0x4300_0000_0000_0000,
        decreases line@.len() - i,
    {
        proof {
            lemma_glyph_index_bounds(t.glyphs@, line@[i as int]);
            assert(MAX_GLYPH_EXTENT * i + MAX_GLYPH_EXTENT == MAX_GLYPH_EXTENT * (i + 1))
                by (nonlinear_arith);
            lemma_mul_inequality(i + 1, 0x1_0000_0000, MAX_GLYPH_EXTENT as int);
            assert((i + 1) * MAX_GLYPH_EXTENT == MAX_GLYPH_EXTENT * (i + 1)) by (nonlinear_arith);
            assert(line@.take(i + 1).drop_last() =~= line@.take(i as int));
            assert(line@.take(i + 1).last() == line@[i as int]);
        }
        let gi = t.find_glyph(line[i]);
        let g = &t.glyphs[gi];
        let x = pen + g.offset_x;
        let y = baseline + g.offset_y;
        out.push(PositionedGlyph { index: gi, size: t.size, x, y });
        pen = pen + (g.advance as i64);
        i = i + 1;
    }
    proof {
        assert(line@.take(line@.len() as int) =~= line@);
    }
}

/// Lays the text out at one size: wrapped, centered, glyphs positioned.
pub fn layout_glyphs(eff: &Vec<char>, t: &SizedFont, box_w: u64, box_h: u64) -> (r: Vec<
    PositionedGlyph,
>)
    requires
        t.wf(),
        eff@.len() < 0x1_0000_0000,
        box_w <= 0x4000_0000_0000_0000,
        box_h <= 0x4000_0000_0000_0000,
    ensures
        r@ == layout_at(eff@, *t, box_w as int, box_h as int),
        forall|k: int|
            0 <= k < r@.len() ==> (#[trigger] r@[k]).index < t.glyphs@.len() && r@[k].size
                == t.size && -0x4300_0000_0000_0000 <= r@[k].x as int <= 0x4300_0000_0000_0000
                && -0x4300_0000_0000_0000 <= r@[k].y as int <= 0x4300_0000_0000_0000,
{
    let lines = layout_lines(eff, t, box_w);
    let ghost lv = seq_views(lines@);
    proof {
        lemma_lines_of_line_len(eff@, *t, box_w as int);
    }
    let n = lines.len();
    proof {
        assert((n as int) * (t.line_height as int) <= 0x1_0000_0001 * 65536) by (nonlinear_arith)
            requires
                0 <= n as int <= 0x1_0000_0001,
                0 <= t.line_height as int <= 65535,
        ;
        assert(0 <= (n as int) * (t.line_height as int)) by (nonlinear_arith)
            requires
                0 <= n as int,
                0 <= t.line_height as int,
        ;
    }
    let block: u64 = (n as u64) * (t.line_height as u64);
    let top = half_center_value(box_h, block);
    let mut out: Vec<PositionedGlyph> = Vec::new();
    let mut k: usize = 0;
    while k < n
        invariant
            t.wf(),
            eff@.len() < 0x1_0000_0000,
            box_w <= 0x4000_0000_0000_0000,
            box_h <= 0x4000_0000_0000_0000,
            k <= n,
            n == lines@.len(),
            n <= 0x1_0000_0001,
            lv == seq_views(lines@),
            lv == lines_of(eff@, *t, box_w as int),
            forall|j: int| 0 <= j < lines@.len() ==> (#[trigger] lines@[j])@.len() <= eff@.len(),
            -(block as int) <= top as int <= box_h as int,
            block == n * t.line_height,
            block <= 0x2_0000_0000_0000,
            top == half_center(box_h as int, lv.len() * t.line_height),
            out@ == glyphs_of_lines(*t, lv.take(k as int), box_w as int, top as int),
            forall|j: int|
                0 <= j < out@.len() ==> (#[trigger] out@[j]).index < t.glyphs@.len() && out@[j].size
                    == t.size && -0x4300_0000_0000_0000 <= out@[j].x as int <= 0x4300_0000_0000_0000
                    && -0x4300_0000_0000_0000 <= out@[j].y as int <= 0x4300_0000_0000_0000,
        decreases n - k,
    {
        let line = &lines[k];
        let lw = text_width(t, line);
        proof {
            assert(lines@[k as int]@ == lv[k as int]);
            lemma_seq_width_bounds(*t, lv[k as int]);
            lemma_mul_inequality(lv[k as int].len() as int, 0x1_0000_0000, MAX_GLYPH_EXTENT as int);
            assert(MAX_GLYPH_EXTENT * lv[k as int].len() == lv[k as int].len() * MAX_GLYPH_EXTENT)
                by (nonlinear_arith);
            assert((k as int) * (t.line_height as int) <= (n as int) * (t.line_height as int)
                && 0 <= (k as int) * (t.line_height as int)) by (nonlinear_arith)
                requires
                    0 <= k as int <= n as int,
                    0 <= t.line_height as int,
            ;
            assert((n as int) * (t.line_height as int) == block) ;
        }
        let pen0 = half_center_value(box_w, lw);
        let baseline: i64 = top + (k as i64) * (t.line_height as i64) + (t.ascent as i64);
        let ghost oout = out@;
        push_line_glyphs(&mut out, t, line, pen0, baseline);
        proof {
            assert(lv.take(k + 1).drop_last() =~= lv.take(k as int));
            assert(lv.take(k + 1).last() == lv[k as int]);
            assert(lv.take(k + 1).len() - 1 == k as int);
            assert(out@ == glyphs_of_lines(*t, lv.take(k + 1), box_w as int, top as int));
        }
        k = k + 1;
    }
    proof {
        assert(lv.take(lv.len() as int) =~= lv);
    }
    out
}

/// Whether the text, wrapped at size `s`, fits the box height.
pub fn fits_at(eff: &Vec<char>, font: &Font, s: usize, box_w: u64, box_h: u64) -> (r: bool)
    requires
        font.wf(),
        1 <= s <= font.sizes@.len(),
        eff@.len() < 0x1_0000_0000,
    ensures
        r == fits(eff@, font.at_size(s as int), box_w as int, box_h as int),
{
    let t = &font.sizes[s - 1];
    let lines = layout_lines(eff, t, box_w);
    proof {
        lemma_lines_of_line_len(eff@, *t, box_w as int);
    }
    let n = lines.len();
    proof {
        assert((n as int) * (t.line_height as int) <= 0x1_0000_0001 * 65536) by (nonlinear_arith)
            requires
                0 <= n as int <= 0x1_0000_0001,
                0 <= t.line_height as int <= 65535,
        ;
        assert(0 <= (n as int) * (t.line_height as int)) by (nonlinear_arith)
            requires
                0 <= n as int,
                0 <= t.line_height as int,
        ;
    }
    let block: u64 = (n as u64) * (t.line_height as u64);
    block <= box_h
}

/// Fits the text into the box: upper-cases it if asked, lays it out at the
/// base size, and decrements the size by one unit (never below 1) until the
/// wrapped block's height fits the box. Returns the chosen size and the
/// positioned glyphs, box-local.
pub fn fit(
    text: &Vec<char>,
    uppercase: bool,
    box_w: usize,
    box_h: usize,
    base_size: usize,
    font: &Font,
) -> (r: (usize, Vec<PositionedGlyph>))
    requires
        font.wf(),
        1 <= base_size <= font.sizes@.len(),
        text@.len() < 0x1_0000_0000,
        box_w <= 0x4000_0000_0000_0000,
        box_h <= 0x4000_0000_0000_0000,
    ensures
        r.0 == fitted_size_spec(
            effective_text(text@, uppercase),
            *font,
            box_w as int,
            box_h as int,
            base_size as int,
        ),
        1 <= r.0 <= base_size,
        fits(effective_text(text@, uppercase), font.at_size(r.0 as int), box_w as int, box_h as int)
            || r.0 == 1,
        forall|s: int|
            r.0 < s <= base_size ==> !fits(
                effective_text(text@, uppercase),
                font.at_size(s),
                box_w as int,
                box_h as int,
            ),
        r.1@ == layout_at(
            effective_text(text@, uppercase),
            font.at_size(r.0 as int),
            box_w as int,
            box_h as int,
        ),
        forall|k: int|
            0 <= k < r.1@.len() ==> (#[trigger] r.1@[k]).index < font.at_size(
                r.0 as int,
            ).glyphs@.len() && r.1@[k].size == r.0
                && -0x4300_0000_0000_0000 <= r.1@[k].x as int <= 0x4300_0000_0000_0000
                && -0x4300_0000_0000_0000 <= r.1@[k].y as int <= 0x4300_0000_0000_0000,
{
    let ghost eff = effective_text(text@, uppercase);
    let eff_v: Vec<char> = if uppercase {
        upper_chars(text)
    } else {
        let mut v: Vec<char> = Vec::new();
        push_all(&mut v, text);
        v
    };
    let bw = box_w as u64;
    let bh = box_h as u64;
    let mut s = base_size;
    while 1 < s && !fits_at(&eff_v, font, s, bw, bh)
        invariant
            font.wf(),
            1 <= s <= base_size <= font.sizes@.len(),
            eff_v@ == eff,
            eff.len() < 0x1_0000_0000,
            bw == box_w as u64,
            bh == box_h as u64,
            box_w <= 0x4000_0000_0000_0000,
            box_h <= 0x4000_0000_0000_0000,
            fitted_size_spec(eff, *font, box_w as int, box_h as int, base_size as int)
                == fitted_size_spec(eff, *font, box_w as int, box_h as int, s as int),
        decreases s,
    {
        s = s - 1;
    }
    let t = &font.sizes[s - 1];
    proof {
        assert(fitted_size_spec(eff, *font, box_w as int, box_h as int, s as int) == s);
        assert(t.wf());
        assert(t.size == s);
        lemma_fitted_size(eff, *font, box_w as int, box_h as int, base_size as int);
    }
    let glyphs = layout_glyphs(&eff_v, t, bw, bh);
    (s, glyphs)
}

} // verus!
