//! JPEG covers: the stego output is PNG, since JPEG's lossy compression
//! would destroy the low bits.

use vstd::prelude::*;

use crate::error::CloakError;
use crate::raster::{decoded_rgba, encoded_image};
use crate::traits::{Capacity, Encoder};

use super::lsb::{spec_max_payload, spec_pixel_bits, LsbParams};
use super::lsb_model::{default_settings, lsb_embed, padded_len};
use super::{cover_capacity, dims_fit, encode_cover, encoder_refuses, written_as, ImageFormat};

verus! {

/// JPEG cover image support.
///
/// JPEG is lossy, so the stego output is PNG (lossless) to preserve LSBs.
/// Extraction uses a PNG codec since the output format is PNG.
pub struct JpegCodec;

impl Capacity for JpegCodec {
    fn capacity(&self, cover: &[u8]) -> (r: Result<usize, CloakError>)
        ensures
            decoded_rgba(cover@) is None ==> (r matches Err(e) && e is Image),
            decoded_rgba(cover@) matches Some((w, h, _px)) ==> (if w * h * 3 <= usize::MAX
                && spec_pixel_bits(w, h, 1) <= usize::MAX {
                r == Ok::<usize, CloakError>(spec_max_payload(w, h, 1) as usize)
            } else {
                (r matches Err(e) && e is Image)
            }),
    {
        let params = LsbParams::default();
        cover_capacity(&params, cover)
    }
}

impl Encoder for JpegCodec {
    open spec fn encode_accepts(&self) -> bool {
        true
    }

    fn encode(&self, cover: &[u8], payload: &[u8]) -> (r: Result<Vec<u8>, CloakError>)
        ensures
            decoded_rgba(cover@) is None ==> (r matches Err(e) && e is Image),
            decoded_rgba(cover@) matches Some((w, h, px)) ==> {
                &&& !dims_fit(w, h, 1) ==> (r matches Err(e) && e is Image)
                &&& dims_fit(w, h, 1) && payload@.len() > spec_max_payload(w, h, 1)
                    ==> (r matches Err(e) && e is PayloadTooLarge)
                &&& dims_fit(w, h, 1) && payload@.len() <= spec_max_payload(w, h, 1)
                    ==> (r is Ok || (r matches Err(e) && e is Image))
                &&& dims_fit(w, h, 1) ==> (r matches Ok(out) ==> exists|pad: Seq<u8>|
                    pad.len() == padded_len(payload@.len() as int) - payload@.len() && written_as(w, h, #[trigger] lsb_embed(px, (w * h) as nat, payload@, pad, default_settings()), ImageFormat::Png, out@))
                &&& dims_fit(w, h, 1) && (r matches Err(e) && e is Image) ==> encoder_refuses(
                    default_settings(),
                    ImageFormat::Png,
                    w,
                    h,
                    px,
                    payload@,
                )
            },
    {
        // Encode as PNG to preserve LSBs (JPEG would destroy them)
        let params = LsbParams::default();
        encode_cover(&params, ImageFormat::Png, cover, payload)
    }
}

} // verus!
