//! The font model the renderer works from: for each pixel size, a table of
//! pre-rasterized glyphs (coverage bitmap, placement offsets, horizontal
//! advance) together with the line metrics of that size. The loader builds
//! this table from a scalable font; the renderer only reads it.

use vstd::prelude::*;
use crate::canvas::Mask;

verus! {

/// Largest advance, offset magnitude, raster dimension or line height the
/// model admits; keeps every position computation far inside `i64`.
pub const MAX_GLYPH_EXTENT: usize = 65535;

/// One glyph of one pixel size: its coverage bitmap, the offset of that
/// bitmap from the pen position on the baseline, and the pen advance.
#[derive(Clone, Debug)]
pub struct Glyph {
    /// The character this glyph renders.
    pub ch: char,
    /// How far the pen moves to the right after this glyph, in pixels.
    pub advance: usize,
    /// Horizontal offset of the bitmap's left edge from the pen position.
    pub offset_x: i64,
    /// Vertical offset of the bitmap's top edge from the baseline.
    pub offset_y: i64,
    /// The glyph's coverage bitmap.
    pub raster: Mask,
}

impl Glyph {
    pub open spec fn wf(self) -> bool {
        &&& self.advance <= MAX_GLYPH_EXTENT
        &&& -(MAX_GLYPH_EXTENT as int) <= self.offset_x as int <= MAX_GLYPH_EXTENT as int
        &&& -(MAX_GLYPH_EXTENT as int) <= self.offset_y as int <= MAX_GLYPH_EXTENT as int
        &&& self.raster.wf()
        &&& self.raster.spec_width() <= MAX_GLYPH_EXTENT
        &&& self.raster.spec_height() <= MAX_GLYPH_EXTENT
    }

    /// Whether the fields are within the model's bounds.
    pub fn check(&self) -> (r: bool)
        requires
            self.raster.wf(),
        ensures
            r == self.wf(),
    {
        self.advance <= MAX_GLYPH_EXTENT && -(MAX_GLYPH_EXTENT as i64) <= self.offset_x
            && self.offset_x <= MAX_GLYPH_EXTENT as i64 && -(MAX_GLYPH_EXTENT as i64)
            <= self.offset_y && self.offset_y <= MAX_GLYPH_EXTENT as i64 && self.raster.width()
            <= MAX_GLYPH_EXTENT && self.raster.height() <= MAX_GLYPH_EXTENT
    }
}

/// The glyph table and line metrics of one pixel size. The glyph at index 0
/// is the fallback that stands in for any character the table has no entry
/// for, as a font's missing-glyph shape does.
#[derive(Clone, Debug)]
pub struct SizedFont {
    /// The pixel size these glyphs were rasterized at.
    pub size: usize,
    /// Vertical distance between the baselines of consecutive lines.
    pub line_height: usize,
    /// Distance from the top of a line to its baseline.
    pub ascent: usize,
    /// The glyphs, fallback first.
    pub glyphs: Vec<Glyph>,
}

impl SizedFont {
    pub open spec fn wf(self) -> bool {
        &&& 1 <= self.size
        &&& self.line_height <= MAX_GLYPH_EXTENT
        &&& self.ascent <= self.line_height
        &&& 1 <= self.glyphs@.len()
        &&& forall|i: int| 0 <= i < self.glyphs@.len() ==> (#[trigger] self.glyphs@[i]).wf()
    }

    /// Whether the table is well-formed (each glyph's raster already checked).
    pub fn check(&self) -> (r: bool)
        requires
            forall|i: int| 0 <= i < self.glyphs@.len() ==> (#[trigger] self.glyphs@[i]).raster.wf(),
        ensures
            r == self.wf(),
    {
        if 1 <= self.size && self.line_height <= MAX_GLYPH_EXTENT && self.ascent
            <= self.line_height && 1 <= self.glyphs.len() {
            let mut i: usize = 0;
            let mut ok = true;
            while i < self.glyphs.len()
                invariant
                    i <= self.glyphs@.len(),
                    forall|j: int|
                        0 <= j < self.glyphs@.len() ==> (
                        #[trigger] self.glyphs@[j]).raster.wf(),
                    ok == forall|j: int| 0 <= j < i ==> (#[trigger] self.glyphs@[j]).wf(),
                decreases self.glyphs@.len() - i,
            {
                let g_ok = self.glyphs[i].check();
                ok = ok && g_ok;
                i = i + 1;
            }
            ok
        } else {
            false
        }
    }
}

/// Index `i` is the first entry of `glyphs` whose character is `ch`, every
/// earlier entry rendering some other character.
pub open spec fn is_first_glyph_match(glyphs: Seq<Glyph>, ch: char, i: int) -> bool {
    &&& 0 <= i < glyphs.len()
    &&& glyphs[i].ch == ch
    &&& forall|k: int| 0 <= k < i ==> (#[trigger] glyphs[k]).ch != ch
}

/// The index of the glyph that renders `ch`: the first entry for `ch`, or 0
/// (the fallback) when the table has none.
pub open spec fn glyph_index(glyphs: Seq<Glyph>, ch: char) -> int {
    if exists|i: int| is_first_glyph_match(glyphs, ch, i) {
        choose|i: int| is_first_glyph_match(glyphs, ch, i)
    } else {
        0
    }
}

/// At most one index is a first match.
pub proof fn lemma_first_glyph_match_unique(glyphs: Seq<Glyph>, ch: char, i: int, j: int)
    requires
        is_first_glyph_match(glyphs, ch, i),
        is_first_glyph_match(glyphs, ch, j),
    ensures
        i == j,
{
    if i < j {
        assert(glyphs[i].ch != ch);
    }
    if j < i {
        assert(glyphs[j].ch != ch);
    }
}

/// The chosen glyph index is always a valid index of a nonempty table.
pub proof fn lemma_glyph_index_bounds(glyphs: Seq<Glyph>, ch: char)
    requires
        1 <= glyphs.len(),
    ensures
        0 <= glyph_index(glyphs, ch) < glyphs.len(),
{
    if exists|i: int| is_first_glyph_match(glyphs, ch, i) {
        let i = choose|i: int| is_first_glyph_match(glyphs, ch, i);
        assert(0 <= i < glyphs.len());
    }
}

impl SizedFont {
    /// The advance of the glyph that renders `ch`.
    pub open spec fn advance_of(self, ch: char) -> int {
        self.glyphs@[glyph_index(self.glyphs@, ch)].advance as int
    }

    /// Looks up the glyph for `ch`: the first entry for it, else the fallback.
    pub fn find_glyph(&self, ch: char) -> (r: usize)
        requires
            self.wf(),
        ensures
            r == glyph_index(self.glyphs@, ch),
            r < self.glyphs@.len(),
    {
        let n = self.glyphs.len();
        let mut i: usize = 0;
        while i < n
            invariant
                i <= n,
                n == self.glyphs@.len(),
                forall|k: int| 0 <= k < i ==> (#[trigger] self.glyphs@[k]).ch != ch,
            decreases n - i,
        {
            if self.glyphs[i].ch == ch {
                proof {
                    assert(is_first_glyph_match(self.glyphs@, ch, i as int));
                    let j = choose|j: int| is_first_glyph_match(self.glyphs@, ch, j);
                    lemma_first_glyph_match_unique(self.glyphs@, ch, i as int, j);
                }
                return i;
            }
            i = i + 1;
        }
        proof {
            if exists|j: int| is_first_glyph_match(self.glyphs@, ch, j) {
                let j = choose|j: int| is_first_glyph_match(self.glyphs@, ch, j);
                assert(self.glyphs@[j].ch != ch);
            }
        }
        0
    }
}

/// The whole font model: one glyph table per pixel size, the table for size
/// `s` stored at index `s - 1`, sizes 1 through the table count.
#[derive(Clone, Debug)]
pub struct Font {
    /// The per-size tables; `sizes[i]` holds the glyphs of pixel size `i + 1`.
    pub sizes: Vec<SizedFont>,
}

impl Font {
    pub open spec fn wf(self) -> bool {
        &&& self.sizes@.len() <= MAX_GLYPH_EXTENT
        &&& forall|i: int|
            0 <= i < self.sizes@.len() ==> (#[trigger] self.sizes@[i]).wf() && self.sizes@[i].size
                == i + 1
    }

    /// The table for pixel size `s` (callers keep `1 <= s <= sizes.len()`).
    pub open spec fn at_size(self, s: int) -> SizedFont {
        self.sizes@[s - 1]
    }

    /// Whether the whole model is well-formed (each raster already checked).
    pub fn check(&self) -> (r: bool)
        requires
            forall|i: int, j: int|
                0 <= i < self.sizes@.len() && 0 <= j < (#[trigger] self.sizes@[i]).glyphs@.len()
                    ==> (#[trigger] self.sizes@[i].glyphs@[j]).raster.wf(),
        ensures
            r == self.wf(),
    {
        if self.sizes.len() > MAX_GLYPH_EXTENT {
            return false;
        }
        let mut i: usize = 0;
        let mut ok = true;
        while i < self.sizes.len()
            invariant
                i <= self.sizes@.len(),
                forall|k: int, j: int|
                    0 <= k < self.sizes@.len() && 0 <= j < (
                    #[trigger] self.sizes@[k]).glyphs@.len() ==> (
                #[trigger] self.sizes@[k].glyphs@[j]).raster.wf(),
                ok == forall|k: int|
                    0 <= k < i ==> (#[trigger] self.sizes@[k]).wf() && self.sizes@[k].size == k + 1,
            decreases self.sizes@.len() - i,
        {
            let entry_ok = self.sizes[i].check() && self.sizes[i].size == i + 1;
            ok = ok && entry_ok;
            i = i + 1;
        }
        ok
    }
}

} // verus!
