//! Encoding a pixel buffer as a PNG file image.

use vstd::prelude::*;

use crate::color::Rgba;
use crate::raster::{bytes_of, lemma_bytes_of_len, painted_grid, render_cells, Cell, PixelBuffer};

verus! {

/// The PNG file that encodes `rgba` as a `width` by `height` RGBA
/// image, as the image library's PNG encoder writes it.
pub uninterp spec fn png_encoding(width: u32, height: u32, rgba: Seq<u8>) -> Seq<u8>;

/// Relies on image's `PngEncoder`, through `ImageEncoder::write_image`
/// with `ColorType::Rgba8`: the encoder writes one PNG file, a function
/// of the dimensions and the pixel bytes alone.  It panics only on a
/// buffer whose length is not `4 * width * height` and fails only on a
/// zero dimension; the `requires` leaves both out.
#[verifier::external_body]
fn encode_rgba_png(width: u32, height: u32, rgba: &Vec<u8>) -> (out: Vec<u8>)
    requires
        1 <= width,
        1 <= height,
        rgba@.len() == 4 * (width * height),
    ensures
        out@ == png_encoding(width, height, rgba@),
{
    let mut out: Vec<u8> = Vec::new();
    let encoder = image::codecs::png::PngEncoder::new(&mut out);
    image::ImageEncoder::write_image(
        encoder,
        rgba.as_slice(),
        width,
        height,
        image::ColorType::Rgba8,
    ).unwrap();
    out
}

/// Encode the buffer as a PNG file image of its dimensions and pixels.
pub fn encode_png(buf: &PixelBuffer) -> (out: Vec<u8>)
    requires
        buf.wf(),
        1 <= buf.spec_width(),
        1 <= buf.spec_height(),
    ensures
        out@ == png_encoding(buf.spec_width(), buf.spec_height(), bytes_of(buf.pixels())),
{
    let bytes = buf.to_rgba_bytes();
    proof {
        buf.lemma_wf_len();
        lemma_bytes_of_len(buf.pixels());
    }
    encode_rgba_png(buf.width(), buf.height(), &bytes)
}

/// Paint the glyph cells in order over a `width` by `height` background
/// colour and return the image encoded as a PNG file.
pub fn render_cells_to_png(width: u32, height: u32, bg: Rgba, cells: &Vec<Cell>) -> (out: Vec<
    u8,
>)
    requires
        1 <= width,
        1 <= height,
        width * height <= usize::MAX,
    ensures
        out@ == png_encoding(width, height, bytes_of(painted_grid(width, height, bg, cells@))),
{
    let buf = render_cells(width, height, bg, cells);
    encode_png(&buf)
}

} // verus!
