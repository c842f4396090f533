//! The mask generator: rasterizes positioned glyphs into a single coverage
//! mask the size of the field's box. Overlapping ink combines by maximum, so
//! glyph tails never erase coverage already written; a positive spread radius
//! dilates every source pixel into a disc, producing the thicker silhouette
//! used for borders. Anything landing outside the mask is clipped.

use vstd::prelude::*;
use crate::canvas::{
    Mask, max_u8, cell_index, lemma_cell_index_decomp, lemma_cell_index_bounds, lemma_index_to_cell,
};
use crate::font::{Glyph, SizedFont};
use crate::layout::PositionedGlyph;

verus! {

/// The larger of two contribution values.
pub open spec fn max_int(a: int, b: int) -> int {
    if a >= b {
        a
    } else {
        b
    }
}

/// Whether offset (dx, dy) lies within the dilation disc of radius `r`.
pub open spec fn in_disc(dx: int, dy: int, r: int) -> bool {
    dx * dx + dy * dy <= r * r
}

/// A disc offset never exceeds the radius on either axis.
pub proof fn lemma_in_disc_bounds(dx: int, dy: int, r: int)
    requires
        in_disc(dx, dy, r),
        0 <= r,
    ensures
        -r <= dx <= r,
        -r <= dy <= r,
{
    assert(-r <= dx <= r && -r <= dy <= r) by (nonlinear_arith)
        requires
            dx * dx + dy * dy <= r * r,
            0 <= r,
    ;
}

/// What source pixel `p` (row-major) of the glyph's raster contributes to
/// mask cell (x, y): its coverage when the cell lies within the dilation
/// disc around the pixel's translated position, else nothing.
pub open spec fn pix_contrib(pg: PositionedGlyph, g: Glyph, r: int, p: int, x: int, y: int) -> int {
    let w = g.raster.spec_width();
    let gx = p % w;
    let gy = p / w;
    if in_disc(x - (pg.x + gx), y - (pg.y + gy), r) {
        g.raster.data_seq()[p] as int
    } else {
        0
    }
}

/// The largest contribution of the glyph's first `n` source pixels.
pub open spec fn glyph_contrib_rec(
    pg: PositionedGlyph,
    g: Glyph,
    r: int,
    x: int,
    y: int,
    n: int,
) -> int
    decreases n,
{
    if n <= 0 {
        0
    } else {
        max_int(glyph_contrib_rec(pg, g, r, x, y, n - 1), pix_contrib(pg, g, r, n - 1, x, y))
    }
}

/// The glyph's total contribution to mask cell (x, y).
pub open spec fn glyph_contrib(pg: PositionedGlyph, g: Glyph, r: int, x: int, y: int) -> int {
    glyph_contrib_rec(pg, g, r, x, y, g.raster.spec_width() * g.raster.spec_height())
}

/// Contributions are coverage values.
pub proof fn lemma_glyph_contrib_rec_bounds(
    pg: PositionedGlyph,
    g: Glyph,
    r: int,
    x: int,
    y: int,
    n: int,
)
    ensures
        0 <= glyph_contrib_rec(pg, g, r, x, y, n) <= 255,
    decreases n,
{
    if n > 0 {
        lemma_glyph_contrib_rec_bounds(pg, g, r, x, y, n - 1);
    }
}

/// The largest contribution of the first `k` glyphs to mask cell (x, y).
pub open spec fn mask_contrib_rec(
    glyphs: Seq<PositionedGlyph>,
    t: SizedFont,
    r: int,
    x: int,
    y: int,
    k: int,
) -> int
    decreases k,
{
    if k <= 0 {
        0
    } else {
        max_int(
            mask_contrib_rec(glyphs, t, r, x, y, k - 1),
            glyph_contrib(glyphs[k - 1], t.glyphs@[glyphs[k - 1].index as int], r, x, y),
        )
    }
}

/// The coverage the rasterizer owes mask cell (x, y): the maximum over all
/// glyphs, all their source pixels, and all dilation offsets, of the source
/// coverage that reaches the cell; 0 where nothing does.
pub open spec fn mask_at_spec(
    glyphs: Seq<PositionedGlyph>,
    t: SizedFont,
    r: int,
    x: int,
    y: int,
) -> int {
    mask_contrib_rec(glyphs, t, r, x, y, glyphs.len() as int)
}

/// The whole coverage buffer the rasterizer owes, as a byte sequence.
pub open spec fn mask_seq(
    glyphs: Seq<PositionedGlyph>,
    t: SizedFont,
    r: int,
    w: int,
    h: int,
) -> Seq<u8> {
    Seq::new((w * h) as nat, |i: int| mask_at_spec(glyphs, t, r, i % w, i / w) as u8)
}

/// Mask values are coverage values.
pub proof fn lemma_mask_contrib_rec_bounds(
    glyphs: Seq<PositionedGlyph>,
    t: SizedFont,
    r: int,
    x: int,
    y: int,
    k: int,
)
    ensures
        0 <= mask_contrib_rec(glyphs, t, r, x, y, k) <= 255,
    decreases k,
{
    if k > 0 {
        lemma_mask_contrib_rec_bounds(glyphs, t, r, x, y, k - 1);
        lemma_glyph_contrib_rec_bounds(
            glyphs[k - 1],
            t.glyphs@[glyphs[k - 1].index as int],
            r,
            x,
            y,
            t.glyphs@[glyphs[k - 1].index as int].raster.spec_width()
                * t.glyphs@[glyphs[k - 1].index as int].raster.spec_height(),
        );
    }
}

/// Writes `v` (combined by maximum) into every mask cell within the dilation
/// disc of radius `r` around (cx, cy); cells outside the mask are clipped.
fn blot_pixel(mask: &mut Mask, cx: i64, cy: i64, v: u8, r: i64)
    requires
        old(mask).wf(),
        0 <= r <= 0x1000_0000,
        -0x4400_0000_0000_0000 <= cx as int <= 0x4400_0000_0000_0000,
        -0x4400_0000_0000_0000 <= cy as int <= 0x4400_0000_0000_0000,
    ensures
        final(mask).wf(),
        final(mask).spec_width() == old(mask).spec_width(),
        final(mask).spec_height() == old(mask).spec_height(),
        forall|px: int, py: int|
            0 <= px < old(mask).spec_width() && 0 <= py < old(mask).spec_height()
                ==> final(mask).cover_at(px, py) == (if in_disc(px - cx, py - cy, r as int) {
                max_u8(old(mask).cover_at(px, py), v)
            } else {
                old(mask).cover_at(px, py)
            }),
{
    let ghost w = old(mask).spec_width();
    let ghost h = old(mask).spec_height();
    proof {
        assert forall|px: int, py: int| 0 <= px < w && 0 <= py < h implies mask.cover_at(px, py)
            == (if in_disc(px - cx, py - cy, r as int) && py - cy < -r {
            max_u8(old(mask).cover_at(px, py), v)
        } else {
            old(mask).cover_at(px, py)
        }) by {
            if in_disc(px - cx, py - cy, r as int) {
                lemma_in_disc_bounds(px - cx, py - cy, r as int);
            }
        }
    }
    let mut dy: i64 = -r;
    while dy <= r
        invariant
            mask.wf(),
            mask.spec_width() == w,
            mask.spec_height() == h,
            0 <= r <= 0x1000_0000,
            -r <= dy <= r + 1,
            -0x4400_0000_0000_0000 <= cx as int <= 0x4400_0000_0000_0000,
            -0x4400_0000_0000_0000 <= cy as int <= 0x4400_0000_0000_0000,
            forall|px: int, py: int|
                0 <= px < w && 0 <= py < h ==> mask.cover_at(px, py) == (if in_disc(
                    px - cx,
                    py - cy,
                    r as int,
                ) && py - cy < dy {
                    max_u8(old(mask).cover_at(px, py), v)
                } else {
                    old(mask).cover_at(px, py)
                }),
        decreases r - dy + 1,
    {
        proof {
            assert forall|px: int, py: int| 0 <= px < w && 0 <= py < h implies mask.cover_at(
                px,
                py,
            ) == (if in_disc(px - cx, py - cy, r as int) && (py - cy < dy || (py - cy == dy && px
                - cx < -r)) {
                max_u8(old(mask).cover_at(px, py), v)
            } else {
                old(mask).cover_at(px, py)
            }) by {
                if in_disc(px - cx, py - cy, r as int) {
                    lemma_in_disc_bounds(px - cx, py - cy, r as int);
                }
            }
        }
        let mut dx: i64 = -r;
        while dx <= r
            invariant
                mask.wf(),
                mask.spec_width() == w,
                mask.spec_height() == h,
                0 <= r <= 0x1000_0000,
                -r <= dy <= r,
                -r <= dx <= r + 1,
                -0x4400_0000_0000_0000 <= cx as int <= 0x4400_0000_0000_0000,
                -0x4400_0000_0000_0000 <= cy as int <= 0x4400_0000_0000_0000,
                forall|px: int, py: int|
                    0 <= px < w && 0 <= py < h ==> mask.cover_at(px, py) == (if in_disc(
                        px - cx,
                        py - cy,
                        r as int,
                    ) && (py - cy < dy || (py - cy == dy && px - cx < dx)) {
                        max_u8(old(mask).cover_at(px, py), v)
                    } else {
                        old(mask).cover_at(px, py)
                    }),
            decreases r - dx + 1,
        {
            proof {
                assert(0 <= dx * dx <= 0x1000_0000 * 0x1000_0000 && 0 <= dy * dy <= 0x1000_0000
                    * 0x1000_0000 && 0 <= r * r <= 0x1000_0000 * 0x1000_0000) by (nonlinear_arith)
                    requires
                        -0x1000_0000 <= dx as int <= 0x1000_0000,
                        -0x1000_0000 <= dy as int <= 0x1000_0000,
                        0 <= r as int <= 0x1000_0000,
                ;
            }
            if dx * dx + dy * dy <= r * r {
                mask.max_write(cx + dx, cy + dy, v);
            }
            proof {
                if !in_disc(dx as int, dy as int, r as int) {
                    assert forall|px: int, py: int| 0 <= px < w && 0 <= py < h implies
                        mask.cover_at(px, py) == (if in_disc(px - cx, py - cy, r as int) && (py - cy
                        < dy || (py - cy == dy && px - cx < dx + 1)) {
                        max_u8(old(mask).cover_at(px, py), v)
                    } else {
                        old(mask).cover_at(px, py)
                    }) by {
                        if px - cx == dx && py - cy == dy {
                            assert(!in_disc(px - cx, py - cy, r as int));
                        }
                    }
                }
            }
            dx = dx + 1;
        }
        proof {
            assert forall|px: int, py: int| 0 <= px < w && 0 <= py < h implies mask.cover_at(
                px,
                py,
            ) == (if in_disc(px - cx, py - cy, r as int) && py - cy < dy + 1 {
                max_u8(old(mask).cover_at(px, py), v)
            } else {
                old(mask).cover_at(px, py)
            }) by {
                if in_disc(px - cx, py - cy, r as int) {
                    lemma_in_disc_bounds(px - cx, py - cy, r as int);
                }
            }
        }
        dy = dy + 1;
    }
    proof {
        assert forall|px: int, py: int| 0 <= px < w && 0 <= py < h implies final(mask).cover_at(
            px,
            py,
        ) == (if in_disc(px - cx, py - cy, r as int) {
            max_u8(old(mask).cover_at(px, py), v)
        } else {
            old(mask).cover_at(px, py)
        }) by {
            if in_disc(px - cx, py - cy, r as int) {
                lemma_in_disc_bounds(px - cx, py - cy, r as int);
            }
        }
    }
}

/// Rasterizes one positioned glyph into the mask: every source pixel's
/// coverage is blotted into the dilation disc around its translated
/// position, combined by maximum.
fn rasterize_glyph(mask: &mut Mask, pg: PositionedGlyph, g: &Glyph, r: i64)
    requires
        old(mask).wf(),
        g.wf(),
        0 <= r <= 0x1000_0000,
        -0x4300_0000_0000_0000 <= pg.x as int <= 0x4300_0000_0000_0000,
        -0x4300_0000_0000_0000 <= pg.y as int <= 0x4300_0000_0000_0000,
    ensures
        final(mask).wf(),
        final(mask).spec_width() == old(mask).spec_width(),
        final(mask).spec_height() == old(mask).spec_height(),
        forall|px: int, py: int|
            0 <= px < old(mask).spec_width() && 0 <= py < old(mask).spec_height()
                ==> final(mask).cover_at(px, py) as int == max_int(
                old(mask).cover_at(px, py) as int,
                glyph_contrib(pg, *g, r as int, px, py),
            ),
{
    let ghost w = old(mask).spec_width();
    let ghost h = old(mask).spec_height();
    let gw = g.raster.width();
    let gh = g.raster.height();
    let mut gy: usize = 0;
    while gy < gh
        invariant
            mask.wf(),
            mask.spec_width() == w,
            mask.spec_height() == h,
            g.wf(),
            0 <= r <= 0x1000_0000,
            -0x4300_0000_0000_0000 <= pg.x as int <= 0x4300_0000_0000_0000,
            -0x4300_0000_0000_0000 <= pg.y as int <= 0x4300_0000_0000_0000,
            gy <= gh,
            gw == g.raster.spec_width(),
            gh == g.raster.spec_height(),
            forall|px: int, py: int|
                0 <= px < w && 0 <= py < h ==> mask.cover_at(px, py) as int == max_int(
                    old(mask).cover_at(px, py) as int,
                    glyph_contrib_rec(pg, *g, r as int, px, py, (gy as int) * (gw as int)),
                ),
        decreases gh - gy,
    {
        let mut gx: usize = 0;
        while gx < gw
            invariant
                mask.wf(),
                mask.spec_width() == w,
                mask.spec_height() == h,
                g.wf(),
                0 <= r <= 0x1000_0000,
                -0x4300_0000_0000_0000 <= pg.x as int <= 0x4300_0000_0000_0000,
                -0x4300_0000_0000_0000 <= pg.y as int <= 0x4300_0000_0000_0000,
                gy < gh,
                gx <= gw,
                gw == g.raster.spec_width(),
                gh == g.raster.spec_height(),
                forall|px: int, py: int|
                    0 <= px < w && 0 <= py < h ==> mask.cover_at(px, py) as int == max_int(
                        old(mask).cover_at(px, py) as int,
                        glyph_contrib_rec(
                            pg,
                            *g,
                            r as int,
                            px,
                            py,
                            (gy as int) * (gw as int) + gx as int,
                        ),
                    ),
            decreases gw - gx,
        {
            let ghost p = (gy as int) * (gw as int) + gx as int;
            proof {
                lemma_cell_index_bounds(gw as int, gh as int, gx as int, gy as int);
                lemma_cell_index_decomp(gw as int, gh as int, gx as int, gy as int);
            }
            let v = g.raster.cover(gx, gy);
            let ghost before = *mask;
            blot_pixel(mask, pg.x + (gx as i64), pg.y + (gy as i64), v, r);
            proof {
                assert forall|px: int, py: int| 0 <= px < w && 0 <= py < h implies mask.cover_at(
                    px,
                    py,
                ) as int == max_int(
                    old(mask).cover_at(px, py) as int,
                    glyph_contrib_rec(pg, *g, r as int, px, py, p + 1),
                ) by {
                    assert(glyph_contrib_rec(pg, *g, r as int, px, py, p + 1) == max_int(
                        glyph_contrib_rec(pg, *g, r as int, px, py, p),
                        pix_contrib(pg, *g, r as int, p, px, py),
                    ));
                    assert(pix_contrib(pg, *g, r as int, p, px, py) == (if in_disc(
                        px - (pg.x + gx as int),
                        py - (pg.y + gy as int),
                        r as int,
                    ) {
                        g.raster.data_seq()[p] as int
                    } else {
                        0
                    }));
                    assert(g.raster.data_seq()[p] == v);
                    lemma_glyph_contrib_rec_bounds(pg, *g, r as int, px, py, p);
                }
            }
            gx = gx + 1;
        }
        proof {
            assert((gy as int) * (gw as int) + gw as int == (gy as int + 1) * (gw as int))
                by (nonlinear_arith);
        }
        gy = gy + 1;
    }
    proof {
        assert((gh as int) * (gw as int) == (gw as int) * (gh as int)) by (nonlinear_arith);
    }
}

/// Rasterizes the positioned glyphs into a zero-initialized coverage mask of
/// the box's dimensions. A spread radius of 0 writes each source pixel to
/// its own cell; a positive radius dilates it into a disc. Ink combines by
/// maximum, and anything outside the mask is clipped.
pub fn generate_text_layer(
    glyphs: &Vec<PositionedGlyph>,
    t: &SizedFont,
    box_w: usize,
    box_h: usize,
    spread: usize,
) -> (m: Mask)
    requires
        t.wf(),
        box_w * box_h <= usize::MAX,
        spread <= 0x1000_0000,
        forall|k: int|
            0 <= k < glyphs@.len() ==> (#[trigger] glyphs@[k]).index < t.glyphs@.len(),
        forall|k: int|
            0 <= k < glyphs@.len() ==> -0x4300_0000_0000_0000 <= (#[trigger] glyphs@[k]).x as int
                <= 0x4300_0000_0000_0000 && -0x4300_0000_0000_0000 <= glyphs@[k].y as int
                <= 0x4300_0000_0000_0000,
    ensures
        m.wf(),
        m.spec_width() == box_w,
        m.spec_height() == box_h,
        forall|px: int, py: int|
            0 <= px < box_w && 0 <= py < box_h ==> m.cover_at(px, py) as int == mask_at_spec(
                glyphs@,
                *t,
                spread as int,
                px,
                py,
            ),
        m.data_seq() == mask_seq(glyphs@, *t, spread as int, box_w as int, box_h as int),
{
    let mut m = Mask::zeroed(box_w, box_h);
    proof {
        assert forall|px: int, py: int| 0 <= px < box_w && 0 <= py < box_h implies m.cover_at(
            px,
            py,
        ) as int == mask_contrib_rec(glyphs@, *t, spread as int, px, py, 0) by {
            lemma_cell_index_bounds(box_w as int, box_h as int, px, py);
            m.lemma_len();
            assert(m.data_seq().len() == box_w * box_h);
            assert(0 <= cell_index(box_w as int, px, py) < box_w * box_h);
            assert(m.data_seq()[cell_index(box_w as int, px, py)] == 0u8);
        }
    }
    let mut k: usize = 0;
    while k < glyphs.len()
        invariant
            t.wf(),
            m.wf(),
            m.spec_width() == box_w,
            m.spec_height() == box_h,
            k <= glyphs@.len(),
            spread <= 0x1000_0000,
            forall|j: int|
                0 <= j < glyphs@.len() ==> (#[trigger] glyphs@[j]).index < t.glyphs@.len(),
            forall|j: int|
                0 <= j < glyphs@.len() ==> -0x4300_0000_0000_0000 <= (
                #[trigger] glyphs@[j]).x as int <= 0x4300_0000_0000_0000
                    && -0x4300_0000_0000_0000 <= glyphs@[j].y as int <= 0x4300_0000_0000_0000,
            forall|px: int, py: int|
                0 <= px < box_w && 0 <= py < box_h ==> m.cover_at(px, py) as int
                    == mask_contrib_rec(glyphs@, *t, spread as int, px, py, k as int),
        decreases glyphs@.len() - k,
    {
        let pg = glyphs[k];
        let g = &t.glyphs[pg.index];
        let ghost before = m;
        rasterize_glyph(&mut m, pg, g, spread as i64);
        proof {
            assert forall|px: int, py: int| 0 <= px < box_w && 0 <= py < box_h implies m.cover_at(
                px,
                py,
            ) as int == mask_contrib_rec(glyphs@, *t, spread as int, px, py, k + 1) by {
                lemma_mask_contrib_rec_bounds(glyphs@, *t, spread as int, px, py, k as int);
            }
        }
        k = k + 1;
    }
    proof {
        let ms = mask_seq(glyphs@, *t, spread as int, box_w as int, box_h as int);
        m.lemma_len();
        assert forall|i: int| 0 <= i < m.data_seq().len() implies m.data_seq()[i] == ms[i] by {
            assert(box_w * box_h > 0) by (nonlinear_arith)
                requires
                    0 <= box_w,
                    0 <= box_h,
                    0 <= i < box_w * box_h,
            ;
            lemma_index_to_cell(box_w as int, box_h as int, i);
            let px = i % (box_w as int);
            let py = i / (box_w as int);
            assert(m.cover_at(px, py) == m.data_seq()[i]);
            lemma_mask_contrib_rec_bounds(glyphs@, *t, spread as int, px, py, glyphs@.len() as int);
        }
        assert(m.data_seq() =~= ms);
    }
    m
}

} // verus!
