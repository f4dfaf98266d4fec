//! Rasterized pages and their PNG encoding.

use vstd::prelude::*;

verus! {

/// Why a page could not be rendered or encoded.
#[derive(Debug)]
pub enum PdfRenderError {
    /// The image could not be encoded; the encoder's message.
    Image(String),
    /// A file could not be written; the system's message.
    Io(String),
}

/// A page rasterized to RGBA pixels, row by row from the top.
pub struct RasterPage {
    /// Width in pixels.
    pub width: u32,
    /// Height in pixels.
    pub height: u32,
    /// Four bytes (red, green, blue, alpha) per pixel.
    pub pixels: Vec<u8>,
}

/// The PNG file that `png`'s encoder writes for an 8-bit RGBA image of the given size and
/// pixel rows.
pub uninterp spec fn png_rgba8(width: u32, height: u32, pixels: Seq<u8>) -> Seq<u8>;

/// The eight bytes that open every PNG file.
pub open spec fn png_signature() -> Seq<u8> {
    seq![137u8, 80u8, 78u8, 71u8, 13u8, 10u8, 26u8, 10u8]
}

/// Encodes an 8-bit RGBA image with `png::Encoder` into a byte vector (`write_header`, then
/// `write_image_data`; the writer finishes the file when dropped). The encoder refuses a
/// zero width or height and pixel data whose length is not `4 * width * height`; the file
/// starts with the PNG signature. Its error is handed back as its message.
#[verifier::external_body]
fn encode_png_rgba8(width: u32, height: u32, pixels: &[u8]) -> (r: Result<Vec<u8>, String>)
    requires
        4 * width * height <= usize::MAX,
    ensures
        r is Ok <==> (width > 0 && height > 0 && pixels@.len() == 4 * width * height),
        r matches Ok(b) ==> b@ == png_rgba8(width, height, pixels@) && b@.len() >= 8 && b@.take(8) == png_signature(),
{
    let mut out = Vec::new();
    {
        let mut encoder = png::Encoder::new(&mut out, width, height);
        encoder.set_color(png::ColorType::Rgba);
        encoder.set_depth(png::BitDepth::Eight);
        let mut writer = match encoder.write_header() {
            Ok(w) => w,
            Err(e) => return Err(e.to_string()),
        };
        if let Err(e) = writer.write_image_data(pixels) {
            return Err(e.to_string());
        }
    }
    Ok(out)
}

impl RasterPage {
    /// The page as a PNG file: 8-bit RGBA. Fails when the page has no pixel or its pixel
    /// data does not hold four bytes per pixel.
    pub fn to_png(&self) -> (r: Result<Vec<u8>, PdfRenderError>)
        requires
            4 * self.width * self.height <= usize::MAX,
        ensures
            r is Ok <==> (self.width > 0 && self.height > 0 && self.pixels@.len() == 4 * self.width * self.height),
            r matches Ok(b) ==> b@ == png_rgba8(self.width, self.height, self.pixels@)
                && b@.len() >= 8 && b@.take(8) == png_signature(),
            r is Err ==> r->Err_0 is Image,
    {
        match encode_png_rgba8(self.width, self.height, self.pixels.as_slice()) {
            Ok(bytes) => Ok(bytes),
            Err(msg) => Err(PdfRenderError::Image(msg)),
        }
    }
}

} // verus!
