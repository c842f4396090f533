//! Pixel buffers: the RGBA canvas that a render mutates, the single-channel
//! coverage mask that the rasterizer produces, and the compositor that blends
//! a colored mask onto the canvas with per-pixel clipping.

use vstd::prelude::*;
use vstd::arithmetic::div_mod::{lemma_fundamental_div_mod, lemma_fundamental_div_mod_converse, lemma_mod_bound};
use vstd::pervasive::VecAdditionalExecFns;
use crate::Color;

verus! {

/// Index of the cell (x, y) in a row-major single-channel buffer of width `w`.
pub open spec fn cell_index(w: int, x: int, y: int) -> int {
    y * w + x
}

/// Index of channel `c` of the pixel (x, y) in a row-major RGBA byte buffer of
/// width `w` (four bytes per pixel: red, green, blue, alpha).
pub open spec fn chan_index(w: int, x: int, y: int, c: int) -> int {
    (y * w + x) * 4 + c
}

pub proof fn lemma_cell_index_bounds(w: int, h: int, x: int, y: int)
    requires
        0 <= x < w,
        0 <= y < h,
    ensures
        0 <= cell_index(w, x, y) < w * h,
        0 <= y * w,
{
    assert(y * w + x < w * h) by (nonlinear_arith)
        requires
            0 <= x < w,
            0 <= y < h,
    ;
    assert(0 <= y * w) by (nonlinear_arith)
        requires
            0 <= y,
            0 <= w,
    ;
}

/// The cell index determines the cell: division and remainder by the width
/// recover the coordinates.
pub proof fn lemma_cell_index_decomp(w: int, h: int, x: int, y: int)
    requires
        0 <= x < w,
        0 <= y < h,
    ensures
        cell_index(w, x, y) % w == x,
        cell_index(w, x, y) / w == y,
{
    lemma_fundamental_div_mod_converse(y * w + x, w, y, x);
}

pub proof fn lemma_chan_index_bounds(w: int, h: int, x: int, y: int, c: int)
    requires
        0 <= x < w,
        0 <= y < h,
        0 <= c < 4,
    ensures
        0 <= chan_index(w, x, y, c) < w * h * 4,
{
    lemma_cell_index_bounds(w, h, x, y);
    assert((y * w + x) * 4 + c < (w * h) * 4) by (nonlinear_arith)
        requires
            0 <= c < 4,
            y * w + x < w * h,
            0 <= y * w + x,
    ;
    assert((w * h) * 4 == w * h * 4) by (nonlinear_arith);
    assert(0 <= (y * w + x) * 4) by (nonlinear_arith)
        requires
            0 <= y * w + x,
    ;
}

/// The channel index determines the pixel and the channel.
pub proof fn lemma_chan_index_decomp(w: int, h: int, x: int, y: int, c: int)
    requires
        0 <= x < w,
        0 <= y < h,
        0 <= c < 4,
    ensures
        chan_index(w, x, y, c) % 4 == c,
        (chan_index(w, x, y, c) / 4) % w == x,
        (chan_index(w, x, y, c) / 4) / w == y,
{
    lemma_fundamental_div_mod_converse((y * w + x) * 4 + c, 4, y * w + x, c);
    lemma_fundamental_div_mod_converse(y * w + x, w, y, x);
}

/// Every index of an RGBA buffer is the channel index of exactly one
/// (pixel, channel) pair.
pub proof fn lemma_index_to_chan(w: int, h: int, i: int)
    requires
        0 <= i < w * h * 4,
        1 <= w,
        1 <= h,
    ensures
        0 <= (i / 4) % w < w,
        0 <= (i / 4) / w < h,
        0 <= i % 4 < 4,
        chan_index(w, (i / 4) % w, (i / 4) / w, i % 4) == i,
{
    let q = i / 4;
    lemma_fundamental_div_mod(i, 4);
    lemma_mod_bound(i, 4);
    assert(q < w * h) by (nonlinear_arith)
        requires
            i < w * h * 4,
            i == 4 * q + (i % 4),
            0 <= i % 4 < 4,
    ;
    assert(0 <= q);
    let x = q % w;
    let y = q / w;
    lemma_fundamental_div_mod(q, w);
    lemma_mod_bound(q, w);
    assert(0 <= y < h) by (nonlinear_arith)
        requires
            0 <= q < w * h,
            q == w * y + x,
            0 <= x < w,
            1 <= w,
    ;
    assert(chan_index(w, x, y, i % 4) == i);
}

/// Every index of a single-channel buffer is the cell index of exactly one
/// cell.
pub proof fn lemma_index_to_cell(w: int, h: int, i: int)
    requires
        0 <= i < w * h,
        1 <= w,
    ensures
        0 <= i % w < w,
        0 <= i / w < h,
        cell_index(w, i % w, i / w) == i,
{
    let x = i % w;
    let y = i / w;
    lemma_fundamental_div_mod(i, w);
    lemma_mod_bound(i, w);
    assert(0 <= y < h) by (nonlinear_arith)
        requires
            0 <= i < w * h,
            i == w * y + x,
            0 <= x < w,
            1 <= w,
    ;
    assert(w * y == y * w) by (nonlinear_arith);
}

/// A single-channel coverage buffer: each cell holds how much glyph ink covers
/// that pixel, 0 meaning none.
#[derive(Clone, Debug)]
pub struct Mask {
    width: usize,
    height: usize,
    data: Vec<u8>,
}

impl Mask {
    /// The buffer holds exactly one byte per cell.
    pub closed spec fn wf(self) -> bool {
        self.data@.len() == self.spec_width() * self.spec_height()
    }

    pub closed spec fn spec_width(self) -> int {
        self.width as int
    }

    pub closed spec fn spec_height(self) -> int {
        self.height as int
    }

    pub closed spec fn data_seq(self) -> Seq<u8> {
        self.data@
    }

    /// Coverage at cell (x, y).
    pub open spec fn cover_at(self, x: int, y: int) -> u8 {
        self.data_seq()[cell_index(self.spec_width(), x, y)]
    }

    pub fn width(&self) -> (r: usize)
        ensures
            r == self.spec_width(),
    {
        self.width
    }

    pub fn height(&self) -> (r: usize)
        ensures
            r == self.spec_height(),
    {
        self.height
    }

    /// A zero-filled mask of the given dimensions.
    pub fn zeroed(width: usize, height: usize) -> (r: Mask)
        requires
            width * height <= usize::MAX,
        ensures
            r.wf(),
            r.spec_width() == width,
            r.spec_height() == height,
            forall|i: int| 0 <= i < r.data_seq().len() ==> r.data_seq()[i] == 0u8,
    {
        let n = width * height;
        let mut data: Vec<u8> = Vec::new();
        let mut k: usize = 0;
        while k < n
            invariant
                k <= n,
                data@.len() == k,
                forall|i: int| 0 <= i < k ==> data@[i] == 0u8,
            decreases n - k,
        {
            data.push(0u8);
            k = k + 1;
        }
        Mask { width, height, data }
    }

    /// A mask over a caller-supplied coverage buffer; `None` if the buffer
    /// does not hold exactly one byte per cell.
    pub fn from_bytes(width: usize, height: usize, data: Vec<u8>) -> (r: Option<Mask>)
        ensures
            match r {
                Some(m) => {
                    &&& m.wf()
                    &&& m.spec_width() == width
                    &&& m.spec_height() == height
                    &&& m.data_seq() == data@
                    &&& data@.len() == width * height
                },
                None => data@.len() != width * height,
            },
    {
        let buf_len = data.len();
        proof {
            assert(buf_len <= usize::MAX);
        }
        match width.checked_mul(height) {
            Some(n) if data.len() == n => Some(Mask { width, height, data }),
            _ => None,
        }
    }

    /// Coverage at cell (x, y).
    pub fn cover(&self, x: usize, y: usize) -> (r: u8)
        requires
            self.wf(),
            x < self.spec_width(),
            y < self.spec_height(),
        ensures
            r == self.cover_at(x as int, y as int),
    {
        let n = self.data.len();
        proof {
            lemma_cell_index_bounds(self.spec_width(), self.spec_height(), x as int, y as int);
        }
        self.data[y * self.width + x]
    }

    /// Raises the coverage at (x, y) to at least `v`, leaving every other cell
    /// unchanged; coordinates outside the mask are ignored.
    pub fn max_write(&mut self, x: i64, y: i64, v: u8)
        requires
            old(self).wf(),
        ensures
            final(self).wf(),
            final(self).spec_width() == old(self).spec_width(),
            final(self).spec_height() == old(self).spec_height(),
            forall|px: int, py: int|
                0 <= px < old(self).spec_width() && 0 <= py < old(self).spec_height()
                    ==> final(self).cover_at(px, py) == (if px == x as int && py == y as int {
                        max_u8(old(self).cover_at(px, py), v)
                    } else {
                        old(self).cover_at(px, py)
                    }),
    {
        if 0 <= x && (x as u64) < (self.width as u64) && 0 <= y && (y as u64) < (self.height
            as u64) {
            let xu = x as usize;
            let yu = y as usize;
            let n = self.data.len();
            proof {
                lemma_cell_index_bounds(
                    self.spec_width(),
                    self.spec_height(),
                    xu as int,
                    yu as int,
                );
            }
            let idx = yu * self.width + xu;
            let old_v = self.data[idx];
            if v > old_v {
                self.data.set(idx, v);
            }
            proof {
                assert forall|px: int, py: int|
                    0 <= px < old(self).spec_width() && 0 <= py < old(
                        self,
                    ).spec_height() implies final(self).cover_at(px, py) == (if px == x as int && py
                    == y as int {
                    max_u8(old(self).cover_at(px, py), v)
                } else {
                    old(self).cover_at(px, py)
                }) by {
                    lemma_cell_index_bounds(old(self).spec_width(), old(self).spec_height(), px, py);
                    lemma_cell_index_decomp(old(self).spec_width(), old(self).spec_height(), px, py);
                    lemma_cell_index_decomp(
                        old(self).spec_width(),
                        old(self).spec_height(),
                        xu as int,
                        yu as int,
                    );
                }
            }
        }
    }
}

/// The byte that a fresh single-color canvas holds at channel `c`.
pub open spec fn spec_fill_byte(color: Color, c: int) -> u8 {
    if c == 0 {
        color.r
    } else if c == 1 {
        color.g
    } else if c == 2 {
        color.b
    } else {
        255u8
    }
}

impl Mask {
    /// A well-formed mask holds one byte per cell.
    pub proof fn lemma_len(self)
        requires
            self.wf(),
        ensures
            self.data_seq().len() == self.spec_width() * self.spec_height(),
    {
    }
}

impl Image {
    /// A well-formed canvas holds four bytes per pixel.
    pub proof fn lemma_len(self)
        requires
            self.wf(),
        ensures
            self.pixels_seq().len() == self.spec_width() * self.spec_height() * 4,
    {
    }
}

/// The larger of two coverage values.
pub open spec fn max_u8(a: u8, b: u8) -> u8 {
    if a >= b {
        a
    } else {
        b
    }
}

/// One blended color channel, straight (non-premultiplied) alpha with
/// round-to-nearest: `old*(1 - a) + fill*a` scaled by 255.
pub open spec fn blend_channel(old_v: u8, fill: u8, cover: u8) -> u8 {
    (((old_v as int) * (255 - cover as int) + (fill as int) * (cover as int) + 127) / 255) as u8
}

/// The blended alpha channel: the destination opacity grows toward full as the
/// layer's coverage grows (`old + (255 - old)*a`, scaled by 255, rounded).
pub open spec fn blend_alpha(old_a: u8, cover: u8) -> u8 {
    ((old_a as int) + ((255 - old_a as int) * (cover as int) + 127) / 255) as u8
}

/// Channel `c` of the fill color as it participates in a blend: the three
/// color channels come from the fill, the fourth drives opacity to full.
pub open spec fn blend_value(old_v: u8, color: Color, cover: u8, c: int) -> u8 {
    if c == 0 {
        blend_channel(old_v, color.r, cover)
    } else if c == 1 {
        blend_channel(old_v, color.g, cover)
    } else if c == 2 {
        blend_channel(old_v, color.b, cover)
    } else {
        blend_alpha(old_v, cover)
    }
}

/// The RGBA canvas: an owned pixel buffer with explicit dimensions, mutated in
/// place by the compositor and returned as the finished render.
#[derive(Clone, Debug)]
pub struct Image {
    width: usize,
    height: usize,
    pixels: Vec<u8>,
}

impl Image {
    /// The buffer holds exactly four bytes per pixel.
    pub closed spec fn wf(self) -> bool {
        self.pixels@.len() == self.spec_width() * self.spec_height() * 4
    }

    pub closed spec fn spec_width(self) -> int {
        self.width as int
    }

    pub closed spec fn spec_height(self) -> int {
        self.height as int
    }

    /// The raw byte contents, row-major RGBA.
    pub closed spec fn pixels_seq(self) -> Seq<u8> {
        self.pixels@
    }

    /// Channel `c` of the pixel at (x, y).
    pub open spec fn pix(self, x: int, y: int, c: int) -> u8 {
        self.pixels_seq()[chan_index(self.spec_width(), x, y, c)]
    }

    pub fn width(&self) -> (r: usize)
        ensures
            r == self.spec_width(),
    {
        self.width
    }

    pub fn height(&self) -> (r: usize)
        ensures
            r == self.spec_height(),
    {
        self.height
    }

    /// The raw bytes, for encoding or byte-level comparison.
    pub fn bytes(&self) -> (r: &Vec<u8>)
        ensures
            r@ == self.pixels_seq(),
    {
        &self.pixels
    }

    /// Channel `c` (0 red, 1 green, 2 blue, 3 alpha) of the pixel at (x, y).
    pub fn channel(&self, x: usize, y: usize, c: usize) -> (r: u8)
        requires
            self.wf(),
            x < self.spec_width(),
            y < self.spec_height(),
            c < 4,
        ensures
            r == self.pix(x as int, y as int, c as int),
    {
        let n = self.pixels.len();
        proof {
            lemma_chan_index_bounds(
                self.spec_width(),
                self.spec_height(),
                x as int,
                y as int,
                c as int,
            );
            lemma_cell_index_bounds(self.spec_width(), self.spec_height(), x as int, y as int);
        }
        self.pixels[(y * self.width + x) * 4 + c]
    }

    /// Whether the buffer holds exactly four bytes per pixel.
    pub fn check(&self) -> (r: bool)
        ensures
            r == self.wf(),
    {
        let n = self.pixels.len();
        proof {
            assert(n <= usize::MAX);
            if self.spec_width() * self.spec_height() > usize::MAX || self.spec_width()
                * self.spec_height() * 4 > usize::MAX {
                assert(self.spec_width() * self.spec_height() * 4 >= self.spec_width()
                    * self.spec_height()) by (nonlinear_arith)
                    requires
                        0 <= self.spec_width() * self.spec_height(),
                ;
                assert(self.spec_width() * self.spec_height() * 4 == (self.spec_width()
                    * self.spec_height()) * 4) by (nonlinear_arith);
            }
        }
        match self.width.checked_mul(self.height) {
            Some(wh) => match wh.checked_mul(4) {
                Some(m) => {
                    proof {
                        assert((self.spec_width() * self.spec_height()) * 4 == self.spec_width()
                            * self.spec_height() * 4) by (nonlinear_arith);
                    }
                    n == m
                },
                None => false,
            },
            None => false,
        }
    }

    /// An opaque single-color canvas of the given dimensions.
    pub fn new_filled(width: usize, height: usize, color: Color) -> (r: Image)
        requires
            width * height * 4 <= usize::MAX,
        ensures
            r.wf(),
            r.spec_width() == width,
            r.spec_height() == height,
            forall|x: int, y: int|
                0 <= x < width && 0 <= y < height ==> r.pix(x, y, 0) == color.r && r.pix(x, y, 1)
                    == color.g && r.pix(x, y, 2) == color.b && r.pix(x, y, 3) == 255u8,
    {
        proof {
            assert(width * height <= width * height * 4) by (nonlinear_arith)
                requires
                    0 <= width * height,
            ;
            assert(0 <= width * height) by (nonlinear_arith);
        }
        let n = width * height;
        let mut pixels: Vec<u8> = Vec::new();
        let mut k: usize = 0;
        while k < n
            invariant
                k <= n,
                n == width * height,
                n * 4 <= usize::MAX,
                pixels@.len() == k * 4,
                forall|i: int|
                    0 <= i < k * 4 ==> pixels@[i] == spec_fill_byte(color, i % 4),
            decreases n - k,
        {
            proof {
                assert((k + 1) * 4 <= n * 4 && k * 4 + 4 == (k + 1) * 4) by (nonlinear_arith)
                    requires
                        k < n,
                ;
                assert forall|c: int| 0 <= c < 4 implies #[trigger] ((k * 4 + c) % 4) == c by {
                    lemma_fundamental_div_mod_converse(k * 4 + c, 4, k as int, c);
                }
            }
            pixels.push(color.r);
            pixels.push(color.g);
            pixels.push(color.b);
            pixels.push(255u8);
            k = k + 1;
        }
        proof {
            assert(n * 4 == width * height * 4) by (nonlinear_arith)
                requires
                    n == width * height,
            ;
        }
        let r = Image { width, height, pixels };
        proof {
            assert forall|x: int, y: int|
                0 <= x < width && 0 <= y < height implies r.pix(x, y, 0) == color.r && r.pix(x, y, 1)
                == color.g && r.pix(x, y, 2) == color.b && r.pix(x, y, 3) == 255u8 by {
                lemma_chan_index_bounds(width as int, height as int, x, y, 0);
                lemma_chan_index_bounds(width as int, height as int, x, y, 1);
                lemma_chan_index_bounds(width as int, height as int, x, y, 2);
                lemma_chan_index_bounds(width as int, height as int, x, y, 3);
                lemma_chan_index_decomp(width as int, height as int, x, y, 0);
                lemma_chan_index_decomp(width as int, height as int, x, y, 1);
                lemma_chan_index_decomp(width as int, height as int, x, y, 2);
                lemma_chan_index_decomp(width as int, height as int, x, y, 3);
            }
        }
        r
    }

    /// A canvas over a caller-supplied RGBA byte buffer; `None` if the buffer
    /// does not hold exactly four bytes per pixel.
    pub fn from_rgba_bytes(width: usize, height: usize, pixels: Vec<u8>) -> (r: Option<Image>)
        ensures
            match r {
                Some(img) => {
                    &&& img.wf()
                    &&& img.spec_width() == width
                    &&& img.spec_height() == height
                    &&& img.pixels_seq() == pixels@
                    &&& pixels@.len() == width * height * 4
                },
                None => pixels@.len() != width * height * 4,
            },
    {
        let buf_len = pixels.len();
        let n = match width.checked_mul(height) {
            Some(wh) => wh.checked_mul(4),
            None => None,
        };
        proof {
            assert(width * height * 4 == (width * height) * 4) by (nonlinear_arith);
        }
        match n {
            Some(n) if pixels.len() == n => Some(Image { width, height, pixels }),
            _ => {
                proof {
                    assert(buf_len <= usize::MAX);
                    if width * height > usize::MAX || (width * height) * 4 > usize::MAX {
                        assert((width * height) * 4 >= width * height) by (nonlinear_arith)
                            requires
                                0 <= width * height,
                        ;
                    }
                }
                None
            },
        }
    }
}

/// Channel `c` of pixel (x, y) after blending the mask at placement
/// (sx, sy): pixels under a mask cell blend with the fill, all others keep
/// their value.
pub open spec fn blend_cell(
    dst: Seq<u8>,
    w: int,
    mask: Seq<u8>,
    mw: int,
    mh: int,
    color: Color,
    sx: int,
    sy: int,
    x: int,
    y: int,
    c: int,
) -> u8 {
    if sx <= x < sx + mw && sy <= y < sy + mh {
        blend_value(dst[chan_index(w, x, y, c)], color, mask[cell_index(mw, x - sx, y - sy)], c)
    } else {
        dst[chan_index(w, x, y, c)]
    }
}

/// The whole canvas after blending a colored mask at placement (sx, sy),
/// mask cells that fall outside the canvas being clipped.
pub open spec fn blend_pixels(
    dst: Seq<u8>,
    w: int,
    h: int,
    mask: Seq<u8>,
    mw: int,
    mh: int,
    color: Color,
    sx: int,
    sy: int,
) -> Seq<u8> {
    Seq::new(
        dst.len(),
        |i: int| blend_cell(dst, w, mask, mw, mh, color, sx, sy, (i / 4) % w, (i / 4) / w, i % 4),
    )
}

/// One blended color channel, executable form.
pub fn blend_channel_value(old_v: u8, fill: u8, cover: u8) -> (r: u8)
    ensures
        r == blend_channel(old_v, fill, cover),
{
    proof {
        assert((old_v as int) * (255 - cover as int) + (fill as int) * (cover as int) <= 255 * 255)
            by (nonlinear_arith)
            requires
                0 <= old_v as int <= 255,
                0 <= fill as int <= 255,
                0 <= cover as int <= 255,
        ;
        assert(0 <= (old_v as int) * (255 - cover as int) && 0 <= (fill as int) * (cover as int))
            by (nonlinear_arith)
            requires
                0 <= old_v as int,
                0 <= fill as int,
                0 <= cover as int <= 255,
        ;
    }
    let num: u32 = (old_v as u32) * (255 - cover as u32) + (fill as u32) * (cover as u32) + 127;
    let q: u32 = num / 255;
    proof {
        assert(q <= 255);
    }
    q as u8
}

/// The blended alpha channel, executable form.
pub fn blend_alpha_value(old_a: u8, cover: u8) -> (r: u8)
    ensures
        r == blend_alpha(old_a, cover),
{
    proof {
        assert((255 - old_a as int) * (cover as int) <= 255 * 255) by (nonlinear_arith)
            requires
                0 <= old_a as int <= 255,
                0 <= cover as int <= 255,
        ;
        assert(0 <= (255 - old_a as int) * (cover as int)) by (nonlinear_arith)
            requires
                0 <= old_a as int <= 255,
                0 <= cover as int,
        ;
    }
    let num: u32 = (255 - old_a as u32) * (cover as u32) + 127;
    let q: u32 = num / 255;
    proof {
        assert((255 - old_a as int) * (cover as int) <= (255 - old_a as int) * 255)
            by (nonlinear_arith)
            requires
                0 <= cover as int <= 255,
                0 <= 255 - old_a as int,
        ;
        lemma_fundamental_div_mod_converse(
            (255 - old_a as int) * 255 + 127,
            255,
            255 - old_a as int,
            127,
        );
        assert(num as int <= (255 - old_a as int) * 255 + 127);
        assert(q as int <= 255 - old_a as int);
    }
    (old_a as u32 + q) as u8
}

impl Image {
    /// Blends one pixel of the canvas with the fill at the given coverage.
    fn blend_px_at(&mut self, x: usize, y: usize, color: Color, cover: u8)
        requires
            old(self).wf(),
            x < old(self).spec_width(),
            y < old(self).spec_height(),
        ensures
            final(self).wf(),
            final(self).spec_width() == old(self).spec_width(),
            final(self).spec_height() == old(self).spec_height(),
            forall|x2: int, y2: int, c2: int|
                0 <= x2 < old(self).spec_width() && 0 <= y2 < old(self).spec_height() && 0 <= c2 < 4
                    ==> #[trigger] final(self).pix(x2, y2, c2) == (if x2 == x as int && y2
                    == y as int {
                    blend_value(old(self).pix(x2, y2, c2), color, cover, c2)
                } else {
                    old(self).pix(x2, y2, c2)
                }),
    {
        let ghost w = self.spec_width();
        let ghost h = self.spec_height();
        let n = self.pixels.len();
        proof {
            lemma_chan_index_bounds(w, h, x as int, y as int, 0);
            lemma_chan_index_bounds(w, h, x as int, y as int, 3);
            lemma_cell_index_bounds(w, h, x as int, y as int);
        }
        let base = (y * self.width + x) * 4;
        let v0 = blend_channel_value(self.pixels[base], color.r, cover);
        self.pixels.set(base, v0);
        let v1 = blend_channel_value(self.pixels[base + 1], color.g, cover);
        self.pixels.set(base + 1, v1);
        let v2 = blend_channel_value(self.pixels[base + 2], color.b, cover);
        self.pixels.set(base + 2, v2);
        let v3 = blend_alpha_value(self.pixels[base + 3], cover);
        self.pixels.set(base + 3, v3);
        proof {
            assert forall|x2: int, y2: int, c2: int|
                0 <= x2 < w && 0 <= y2 < h && 0 <= c2 < 4 implies #[trigger] final(self).pix(
                x2,
                y2,
                c2,
            ) == (if x2 == x as int && y2 == y as int {
                blend_value(old(self).pix(x2, y2, c2), color, cover, c2)
            } else {
                old(self).pix(x2, y2, c2)
            }) by {
                lemma_chan_index_bounds(w, h, x2, y2, c2);
                lemma_chan_index_decomp(w, h, x2, y2, c2);
                lemma_chan_index_decomp(w, h, x as int, y as int, 0);
                lemma_chan_index_decomp(w, h, x as int, y as int, 1);
                lemma_chan_index_decomp(w, h, x as int, y as int, 2);
                lemma_chan_index_decomp(w, h, x as int, y as int, 3);
            }
        }
    }
}

/// Expected value of channel `c` of pixel (x, y) while the compositor has
/// fully blended the first `done_rows` mask rows and `done_cols` cells of the
/// next row.
pub open spec fn blend_progress_cell(
    orig: Seq<u8>,
    w: int,
    mask: Seq<u8>,
    mw: int,
    mh: int,
    color: Color,
    sx: int,
    sy: int,
    done_rows: int,
    done_cols: int,
    x: int,
    y: int,
    c: int,
) -> u8 {
    let mcx = x - sx;
    let mcy = y - sy;
    if 0 <= mcx < mw && 0 <= mcy < mh && (mcy < done_rows || (mcy == done_rows && mcx
        < done_cols)) {
        blend_value(orig[chan_index(w, x, y, c)], color, mask[cell_index(mw, mcx, mcy)], c)
    } else {
        orig[chan_index(w, x, y, c)]
    }
}

/// Alpha-blends the colored coverage mask onto the canvas, the mask's cell
/// (0, 0) landing on canvas pixel (sx, sy); mask cells outside the canvas are
/// clipped, never an error.
pub fn blend_layer_onto_image(image: &mut Image, mask: &Mask, color: Color, sx: u64, sy: u64)
    requires
        old(image).wf(),
        mask.wf(),
        sx + mask.spec_width() <= u64::MAX,
        sy + mask.spec_height() <= u64::MAX,
    ensures
        final(image).wf(),
        final(image).spec_width() == old(image).spec_width(),
        final(image).spec_height() == old(image).spec_height(),
        final(image).pixels_seq() == blend_pixels(
            old(image).pixels_seq(),
            old(image).spec_width(),
            old(image).spec_height(),
            mask.data_seq(),
            mask.spec_width(),
            mask.spec_height(),
            color,
            sx as int,
            sy as int,
        ),
{
    let w = image.width();
    let h = image.height();
    let mw = mask.width();
    let mh = mask.height();
    let ghost orig = image.pixels_seq();
    let mut cy: usize = 0;
    while cy < mh
        invariant
            image.wf(),
            image.spec_width() == w,
            image.spec_height() == h,
            mask.wf(),
            mask.spec_width() == mw,
            mask.spec_height() == mh,
            sx + mw <= u64::MAX,
            sy + mh <= u64::MAX,
            cy <= mh,
            orig.len() == image.pixels_seq().len(),
            forall|x2: int, y2: int, c2: int|
                0 <= x2 < w && 0 <= y2 < h && 0 <= c2 < 4 ==> #[trigger] image.pix(x2, y2, c2)
                    == blend_progress_cell(
                    orig,
                    w as int,
                    mask.data_seq(),
                    mw as int,
                    mh as int,
                    color,
                    sx as int,
                    sy as int,
                    cy as int,
                    0,
                    x2,
                    y2,
                    c2,
                ),
        decreases mh - cy,
    {
        let mut cx: usize = 0;
        while cx < mw
            invariant
                image.wf(),
                image.spec_width() == w,
                image.spec_height() == h,
                mask.wf(),
                mask.spec_width() == mw,
                mask.spec_height() == mh,
                sx + mw <= u64::MAX,
                sy + mh <= u64::MAX,
                cy < mh,
                cx <= mw,
                orig.len() == image.pixels_seq().len(),
                forall|x2: int, y2: int, c2: int|
                    0 <= x2 < w && 0 <= y2 < h && 0 <= c2 < 4 ==> #[trigger] image.pix(x2, y2, c2)
                        == blend_progress_cell(
                        orig,
                        w as int,
                        mask.data_seq(),
                        mw as int,
                        mh as int,
                        color,
                        sx as int,
                        sy as int,
                        cy as int,
                        cx as int,
                        x2,
                        y2,
                        c2,
                    ),
            decreases mw - cx,
        {
            let dx64 = sx + (cx as u64);
            let dy64 = sy + (cy as u64);
            if dx64 < (w as u64) && dy64 < (h as u64) {
                let x = dx64 as usize;
                let y = dy64 as usize;
                let cover = mask.cover(cx, cy);
                image.blend_px_at(x, y, color, cover);
            }
            cx = cx + 1;
        }
        cy = cy + 1;
    }
    proof {
        let dst = blend_pixels(
            orig,
            w as int,
            h as int,
            mask.data_seq(),
            mw as int,
            mh as int,
            color,
            sx as int,
            sy as int,
        );
        assert forall|i: int| 0 <= i < image.pixels_seq().len() implies image.pixels_seq()[i]
            == dst[i] by {
            if w == 0 || h == 0 {
                assert(w * h * 4 == 0) by (nonlinear_arith)
                    requires
                        w == 0 || h == 0,
                ;
            } else {
                lemma_index_to_chan(w as int, h as int, i);
                let x2 = (i / 4) % (w as int);
                let y2 = (i / 4) / (w as int);
                let c2 = i % 4;
                assert(image.pix(x2, y2, c2) == blend_progress_cell(
                    orig,
                    w as int,
                    mask.data_seq(),
                    mw as int,
                    mh as int,
                    color,
                    sx as int,
                    sy as int,
                    mh as int,
                    0,
                    x2,
                    y2,
                    c2,
                ));
            }
        }
        assert(image.pixels_seq() =~= dst);
    }
}

} // verus!
