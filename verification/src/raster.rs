//! Decoded images as plain RGBA bytes, and the image codec that turns
//! encoded files into them and back.

use vstd::prelude::*;

use image::ImageFormat as CodecFormat;

use crate::formats::{magic_format, ImageFormat};

verus! {

/// An image decoded to 8-bit RGBA, row-major, four bytes per pixel.
#[derive(Debug, Clone)]
pub struct Raster {
    pub width: u32,
    pub height: u32,
    pub pixels: Vec<u8>,
}

impl Raster {
    /// Number of pixels.
    pub open spec fn pixel_count(&self) -> int {
        self.width * self.height
    }

    /// The pixel buffer holds exactly four bytes for every pixel.
    pub open spec fn wf(&self) -> bool {
        self.pixels@.len() == 4 * (self.width * self.height)
    }
}

/// Largest number of pixels the image codec decodes: its default allocation
/// limit is 512 MiB and every decoded pixel takes at least one byte.
pub open spec fn decode_pixel_limit() -> int {
    536870912
}

/// What `image::load_from_memory` followed by `to_rgba8` makes of a file:
/// width, height and RGBA bytes, or `None` where the file does not decode.
pub uninterp spec fn decoded_rgba(bytes: Seq<u8>) -> Option<(u32, u32, Seq<u8>)>;

/// What the `image` crate writes for an RGBA image in a format, or `None`
/// where its encoder refuses.
pub uninterp spec fn encoded_image(width: u32, height: u32, pixels: Seq<u8>, format: ImageFormat) -> Option<
    Seq<u8>,
>;

/// Calls `image::load_from_memory` and converts the result with
/// `DynamicImage::to_rgba8`. Claims: the result is the decoder's (a function of
/// the bytes); the RGBA buffer holds exactly four bytes per pixel; the decoder's
/// default 512 MiB allocation limit bounds the pixel count. The error text is
/// the codec's message and is not stated.
#[verifier::external_body]
pub(crate) fn decode_rgba(bytes: &[u8]) -> (r: Result<Raster, String>)
    ensures
        r is Ok <==> decoded_rgba(bytes@) is Some,
        r matches Ok(img) ==> decoded_rgba(bytes@) == Some((img.width, img.height, img.pixels@)),
        r matches Ok(img) ==> img.wf() && img.width * img.height <= decode_pixel_limit(),
{
    match image::load_from_memory(bytes) {
        Ok(img) => {
            let rgba = img.to_rgba8();
            let (width, height) = rgba.dimensions();
            Ok(Raster { width, height, pixels: rgba.into_raw() })
        },
        Err(e) => Err(e.to_string()),
    }
}

/// The image codec reads back, unchanged, the RGBA pixels it writes in this
/// format at this size. Decoding reserves four bytes per pixel against the
/// 512 MiB allocation limit; the BMP decoder also refuses sides above 65535;
/// the TIFF decoder gets what is left of the limit after that reservation for
/// its own image buffer and for one strip (about 1 MB) at a time.
pub open spec fn reads_back(width: u32, height: u32, format: ImageFormat) -> bool {
    match format {
        ImageFormat::Png => 4 * (width * height) <= decode_pixel_limit(),
        ImageFormat::Bmp => 1 <= width <= 65535 && 1 <= height <= 65535 && 4 * (width * height)
            <= decode_pixel_limit(),
        ImageFormat::Tiff => 12 * (width * height) + 1048576 <= decode_pixel_limit(),
        _ => false,
    }
}

/// Builds an `image::RgbaImage` from the raster and calls its `write_to` with
/// the `image::ImageFormat` matching `format`. Claims that the bytes (or the
/// refusal) are the encoder's, a function of the image and the format; that a
/// PNG, BMP or TIFF it writes starts with that format's signature (the PNG
/// signature, `BM`, `II*\0` or `MM\0*`); and that such a file decodes back to
/// the same pixels within the bounds of `reads_back`: those encoders write
/// 8-bit RGBA losslessly (PNG as RGBA8, BMP as BGRA with a V4 header and alpha
/// mask, TIFF as uncompressed RGB with four samples), and `load_from_memory`
/// reads them back as RGBA8 (`to_rgba8` of an RGBA8 image is a copy). Nothing
/// is claimed of decoding JPEG, WebP or GIF output.
#[verifier::external_body]
pub(crate) fn encode_rgba(img: &Raster, format: ImageFormat) -> (r: Result<Vec<u8>, String>)
    requires
        img.wf(),
    ensures
        r is Ok <==> encoded_image(img.width, img.height, img.pixels@, format) is Some,
        r matches Ok(out) ==> encoded_image(img.width, img.height, img.pixels@, format) == Some(out@),
        format is Png || format is Bmp || format is Tiff ==> (r matches Ok(out) ==> magic_format(out@)
            == Some(format)),
        reads_back(img.width, img.height, format) ==> (r matches Ok(out) ==> decoded_rgba(out@) == Some(
            (img.width, img.height, img.pixels@),
        )),
{
    let target = match format {
        ImageFormat::Png => CodecFormat::Png, ImageFormat::Bmp => CodecFormat::Bmp,
        ImageFormat::Jpeg => CodecFormat::Jpeg, ImageFormat::WebP => CodecFormat::WebP,
        ImageFormat::Gif => CodecFormat::Gif, ImageFormat::Tiff => CodecFormat::Tiff,
    };
    let buffer = image::RgbaImage::from_raw(img.width, img.height, img.pixels.clone()).unwrap();
    let mut output = Vec::new();
    match buffer.write_to(&mut std::io::Cursor::new(&mut output), target) {
        Ok(()) => Ok(output),
        Err(e) => Err(e.to_string()),
    }
}

} // verus!
