//! Lossless encoding of the finished canvas. The PNG bytes themselves come
//! from the `image` crate behind a trusted wrapper; their value is named,
//! not restated, since a PNG stream takes pages to describe.

use vstd::prelude::*;
use crate::canvas::Image;

verus! {

/// The PNG encoding of an RGBA canvas: what the `image` crate's PNG encoder
/// produces for these dimensions and bytes. A function of its arguments
/// alone: the encoder takes no randomness, time or configuration here.
pub uninterp spec fn png_of(width: int, height: int, pixels: Seq<u8>) -> Seq<u8>;

/// Relies on the `image` crate: `RgbaImage::from_raw` wraps a buffer of
/// exactly `width * height * 4` bytes (never `None` then), and
/// `ImageBuffer::write_to` with `ImageFormat::Png` encodes it into the
/// in-memory writer, which cannot fail for nonzero dimensions and an exact
/// RGBA buffer.
#[verifier::external_body]
fn encode_png_raw(width: u32, height: u32, pixels: &Vec<u8>) -> (r: Vec<u8>)
    requires
        1 <= width <= 0x7fff_ffff,
        1 <= height <= 0x7fff_ffff,
        pixels@.len() == width * height * 4,
    ensures
        r@ == png_of(width as int, height as int, pixels@),
{
    let img: image::RgbaImage = image::RgbaImage::from_raw(width, height, pixels.clone()).unwrap();
    let mut buf = std::io::Cursor::new(Vec::new());
    img.write_to(&mut buf, image::ImageFormat::Png).unwrap();
    buf.into_inner()
}

/// The finished canvas as a PNG byte stream, ready for a caller to write to
/// disk or send over a connection.
pub fn image_to_png(img: &Image) -> (r: Vec<u8>)
    requires
        img.wf(),
        1 <= img.spec_width() <= 0x7fff_ffff,
        1 <= img.spec_height() <= 0x7fff_ffff,
    ensures
        r@ == png_of(img.spec_width(), img.spec_height(), img.pixels_seq()),
{
    let w = img.width();
    let h = img.height();
    proof {
        img.lemma_len();
    }
    encode_png_raw(w as u32, h as u32, img.bytes())
}

} // verus!
