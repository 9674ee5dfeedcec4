//! WebP covers: the stego output is PNG, since lossy WebP would destroy the
//! low bits.

use vstd::prelude::*;

use crate::error::CloakError;
use crate::raster::{decoded_rgba, encoded_image};
use crate::traits::{Capacity, Encoder};

use super::lsb::{spec_max_payload, spec_pixel_bits, LsbParams};
use super::lsb_model::{eff_depth, lsb_embed, order_covers, padded_len};
use super::{cover_capacity, dims_fit, encode_cover, encoder_refuses, params_fit, written_as, ImageFormat};

verus! {

/// WebP cover image support.
///
/// WebP is lossy, so the stego output is PNG (lossless) to preserve LSBs.
pub struct WebpCodec {
    pub params: LsbParams,
}

impl Default for WebpCodec {
    fn default() -> (r: Self)
        ensures
            r.params.bit_depth == 1,
            r.params.pixel_order is Sequential,
            r.params.length_mask@ == seq![0u8, 0u8, 0u8, 0u8],
    {
        WebpCodec { params: LsbParams::default() }
    }
}

impl WebpCodec {
    pub fn new(params: LsbParams) -> (r: Self)
        ensures
            r.params == params,
    {
        WebpCodec { params }
    }
}

impl Capacity for WebpCodec {
    fn capacity(&self, cover: &[u8]) -> (r: Result<usize, CloakError>)
        ensures
            decoded_rgba(cover@) is None ==> (r matches Err(e) && e is Image),
            decoded_rgba(cover@) matches Some((w, h, _px)) ==> (if w * h * 3 <= usize::MAX
                && spec_pixel_bits(w, h, self.params.bit_depth) <= usize::MAX {
                r == Ok::<usize, CloakError>(spec_max_payload(w, h, self.params.bit_depth) as usize)
            } else {
                (r matches Err(e) && e is Image)
            }),
    {
        cover_capacity(&self.params, cover)
    }
}

impl Encoder for WebpCodec {
    open spec fn encode_accepts(&self) -> bool {
        eff_depth(self.params.bit_depth) <= 7
    }

    fn encode(&self, cover: &[u8], payload: &[u8]) -> (r: Result<Vec<u8>, CloakError>)
        ensures
            decoded_rgba(cover@) is None ==> (r matches Err(e) && e is Image),
            decoded_rgba(cover@) matches Some((w, h, px)) ==> {
                &&& !dims_fit(w, h, eff_depth(self.params.bit_depth)) ==> (r matches Err(e) && e is Image)
                &&& dims_fit(w, h, eff_depth(self.params.bit_depth)) && !order_covers(
                    self.params.pixel_order@,
                    w * h,
                ) ==> (r matches Err(e) && e is CorruptedData)
                &&& params_fit(self.params, w, h) && payload@.len() > spec_max_payload(
                    w,
                    h,
                    eff_depth(self.params.bit_depth),
                ) ==> (r matches Err(e) && e is PayloadTooLarge)
                &&& params_fit(self.params, w, h) && payload@.len() <= spec_max_payload(
                    w,
                    h,
                    eff_depth(self.params.bit_depth),
                ) ==> (r is Ok || (r matches Err(e) && e is Image))
                &&& params_fit(self.params, w, h) ==> (r matches Ok(out) ==> exists|pad: Seq<u8>|
                    pad.len() == padded_len(payload@.len() as int) - payload@.len() && written_as(w, h, #[trigger] lsb_embed(px, (w * h) as nat, payload@, pad, self.params@), ImageFormat::Png, out@))
                &&& params_fit(self.params, w, h) && (r matches Err(e) && e is Image) ==> encoder_refuses(
                    self.params@,
                    ImageFormat::Png,
                    w,
                    h,
                    px,
                    payload@,
                )
            },
    {
        encode_cover(&self.params, ImageFormat::Png, cover, payload)
    }
}

} // verus!
