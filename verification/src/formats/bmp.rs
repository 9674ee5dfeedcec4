//! The BMP codec: one bit in each of R, G and B, row-major, behind an
//! unmasked 32-bit big-endian length prefix, with no padding.

use vstd::prelude::*;

use crate::error::CloakError;
use crate::raster::{decode_rgba, decoded_rgba, encode_rgba, encoded_image, Raster};
use crate::traits::{Capacity, Decoder, Encoder};

use super::lsb::{spec_raw_capacity, write_stream, PixelOrder};
use super::lsb_model::{
    embed_order_ok, embed_upto, header_length, lemma_lsb_roundtrip, lsb_embed, lsb_extract,
    lsb_stream, order_injective, read_bit_at, read_u32, read_u8, stream_bits, unmask_length,
    default_settings,
};
use super::{dims_fit, fits_platform, ImageFormat};

verus! {

/// LSB steganography for BMP images.
///
/// Same algorithm as PNG: embeds in LSB of R, G, B channels.
/// 32-bit big-endian length prefix followed by payload data.
pub struct BmpCodec;

/// Carrier bits per pixel: one in each of R, G and B.
pub const BITS_PER_PIXEL: usize = 3;

/// The pixels after the BMP codec has written `payload` into `px`.
pub open spec fn bmp_embed(px: Seq<u8>, width: u32, height: u32, payload: Seq<u8>) -> Seq<u8> {
    embed_upto(
        px,
        lsb_stream(payload, seq![0u8, 0u8, 0u8, 0u8], Seq::empty()),
        1,
        None,
        (width * height) as nat,
    )
}

/// The first `n` entries of `bits` folded into a word, most significant first.
pub open spec fn fold_bits_u32(bits: Seq<u8>, n: nat) -> u32
    decreases n,
{
    if n == 0 {
        0
    } else {
        (fold_bits_u32(bits, (n - 1) as nat) << 1u32) | (bits[n - 1] as u32)
    }
}

/// The first `n` entries of `bits` folded into a byte, most significant first.
pub open spec fn fold_bits_u8(bits: Seq<u8>, n: nat) -> u8
    decreases n,
{
    if n == 0 {
        0
    } else {
        (fold_bits_u8(bits, (n - 1) as nat) << 1u8) | bits[n - 1]
    }
}

impl BmpCodec {
    fn max_payload_bytes(width: u32, height: u32) -> (r: usize)
        requires
            width * height * 3 <= usize::MAX,
        ensures
            r == spec_raw_capacity(width, height, 1),
    {
        let total_bits: usize = width as usize * height as usize * BITS_PER_PIXEL;
        total_bits.saturating_sub(32) / 8
    }
}

impl Capacity for BmpCodec {
    fn capacity(&self, cover: &[u8]) -> (r: Result<usize, CloakError>)
        ensures
            decoded_rgba(cover@) is None ==> (r matches Err(e) && e is Image),
            decoded_rgba(cover@) matches Some((w, h, _px)) ==> (if w * h * 3 <= usize::MAX {
                r == Ok::<usize, CloakError>(spec_raw_capacity(w, h, 1) as usize)
            } else {
                (r matches Err(e) && e is Image)
            }),
    {
        let img = match decode_rgba(cover) {
            Ok(img) => img,
            Err(msg) => return Err(CloakError::Image(msg)),
        };
        let pixels: u64 = img.width as u64 * img.height as u64;
        if pixels * 3 > usize::MAX as u64 {
            return Err(CloakError::Image(String::from_str("image too large for this platform")));
        }
        Ok(BmpCodec::max_payload_bytes(img.width, img.height))
    }
}

impl Encoder for BmpCodec {
    open spec fn encode_accepts(&self) -> bool {
        true
    }

    fn encode(&self, cover: &[u8], payload: &[u8]) -> (r: Result<Vec<u8>, CloakError>)
        ensures
            decoded_rgba(cover@) is None ==> (r matches Err(e) && e is Image),
            decoded_rgba(cover@) matches Some((w, h, px)) ==> {
                &&& !dims_fit(w, h, 1) ==> (r matches Err(e) && e is Image)
                &&& dims_fit(w, h, 1) && payload@.len() > spec_raw_capacity(w, h, 1) ==> r == Err::<
                    Vec<u8>,
                    CloakError,
                >(
                    CloakError::PayloadTooLarge {
                        needed: payload@.len() as usize,
                        capacity: spec_raw_capacity(w, h, 1) as usize,
                    },
                )
                &&& dims_fit(w, h, 1) && payload@.len() <= spec_raw_capacity(w, h, 1) ==> (r is Ok || (
                r matches Err(e) && e is Image))
                &&& dims_fit(w, h, 1) && payload@.len() <= spec_raw_capacity(w, h, 1) ==> (r is Ok
                    <==> encoded_image(w, h, bmp_embed(px, w, h, payload@), ImageFormat::Bmp) is Some)
                &&& r matches Ok(out) ==> encoded_image(
                    w,
                    h,
                    bmp_embed(px, w, h, payload@),
                    ImageFormat::Bmp,
                ) == Some(out@)
            },
    {
        let img = match decode_rgba(cover) {
            Ok(img) => img,
            Err(msg) => return Err(CloakError::Image(msg)),
        };
        let width = img.width;
        let height = img.height;
        if !fits_platform(width, height, 1) {
            return Err(CloakError::Image(String::from_str("image too large for this platform")));
        }
        let max = BmpCodec::max_payload_bytes(width, height);

        if payload.len() > max {
            return Err(CloakError::PayloadTooLarge { needed: payload.len(), capacity: max });
        }
        let mut rgba = Raster { width, height, pixels: img.pixels.clone() };
        assert(rgba.pixels@ =~= img.pixels@);

        let raw_len: u32 = payload.len() as u32;
        let len_bytes: [u8; 4] = [
            (raw_len >> 24u32) as u8,
            (raw_len >> 16u32) as u8,
            (raw_len >> 8u32) as u8,
            raw_len as u8,
        ];
        let mut all_bytes: Vec<u8> = Vec::with_capacity(4 + payload.len());
        all_bytes.extend_from_slice(&len_bytes);
        all_bytes.extend_from_slice(payload);
        proof {
            let z = seq![0u8, 0u8, 0u8, 0u8];
            assert(len_bytes@ =~= super::lsb_model::length_header(raw_len, z)) by {
                assert((((raw_len >> 24u32) as u8) ^ 0u8) == ((raw_len >> 24u32) as u8)) by (bit_vector);
                assert((((raw_len >> 16u32) as u8) ^ 0u8) == ((raw_len >> 16u32) as u8)) by (bit_vector);
                assert((((raw_len >> 8u32) as u8) ^ 0u8) == ((raw_len >> 8u32) as u8)) by (bit_vector);
                assert(((raw_len as u8) ^ 0u8) == (raw_len as u8)) by (bit_vector);
            }
            assert(all_bytes@ =~= lsb_stream(payload@, z, Seq::empty()));
        }
        let order = PixelOrder::Sequential;
        write_stream(&mut rgba, &all_bytes, 1, &order);
        match encode_rgba(&rgba, ImageFormat::Bmp) {
            Ok(out) => Ok(out),
            Err(msg) => Err(CloakError::Image(msg)),
        }
    }
}

impl Decoder for BmpCodec {
    open spec fn decode_accepts(&self) -> bool {
        true
    }

    fn decode(&self, stego: &[u8]) -> (r: Result<Vec<u8>, CloakError>)
        ensures
            decoded_rgba(stego@) is None ==> (r matches Err(e) && e is Image),
            decoded_rgba(stego@) matches Some((w, h, px)) ==> {
                &&& !dims_fit(w, h, 1) ==> (r matches Err(e) && e is Image)
                &&& dims_fit(w, h, 1) ==> (r is Ok <==> lsb_extract(px, w, h, default_settings()) is Some)
                &&& r matches Ok(v) ==> lsb_extract(px, w, h, default_settings()) == Some(v@)
                &&& dims_fit(w, h, 1) ==> (r matches Err(e) ==> e is CorruptedData)
            },
    {
        let img = match decode_rgba(stego) {
            Ok(img) => img,
            Err(msg) => return Err(CloakError::Image(msg)),
        };
        let width = img.width;
        let height = img.height;
        if !fits_platform(width, height, 1) {
            return Err(CloakError::Image(String::from_str("image too large for this platform")));
        }
        let ghost px = img.pixels@;
        let total_pixels: usize = width as usize * height as usize;
        if total_pixels * BITS_PER_PIXEL < 32 {
            return Err(CloakError::CorruptedData(String::from_str("image too small to contain data")));
        }
        let mut bits: Vec<u8> = Vec::with_capacity(total_pixels * BITS_PER_PIXEL);
        let plen: usize = img.pixels.len();
        proof {
            assert(super::lsb_model::value_mask(1) == 1u8) by (bit_vector);
        }
        let mut p: usize = 0;
        while p < total_pixels
            invariant
                p <= total_pixels,
                total_pixels == width * height,
                total_pixels * 3 <= usize::MAX,
                img.wf(),
                img.width == width,
                img.height == height,
                px == img.pixels@,
                plen == px.len(),
                super::lsb_model::value_mask(1) == 1u8,
                bits@.len() == 3 * p,
                forall|k: int| 0 <= k < 3 * p ==> #[trigger] bits@[k] == read_bit_at(px, 1, None, k),
            decreases total_pixels - p,
        {
            let mut channel: usize = 0;
            while channel < 3
                invariant
                    channel <= 3,
                    p < total_pixels,
                    total_pixels == width * height,
                    total_pixels * 3 <= usize::MAX,
                    img.wf(),
                    img.width == width,
                    img.height == height,
                    px == img.pixels@,
                    plen == px.len(),
                    super::lsb_model::value_mask(1) == 1u8,
                    bits@.len() == 3 * p + channel,
                    forall|k: int| 0 <= k < 3 * p + channel ==> #[trigger] bits@[k] == read_bit_at(px, 1, None, k),
                decreases 3 - channel,
            {
                let ghost k: int = 3 * p + channel;
                let v = img.pixels[p * 4 + channel];
                proof {
                    assert(k / 3 == p && k % 3 == channel);
                    assert((k % 3) / 1 == channel && (k % 3) % 1 == 0);
                    assert(((v & 1u8) >> 0u8) & 1u8 == v & 1u8) by (bit_vector);
                    assert(read_bit_at(px, 1, None, k) == v & 1u8);
                }
                bits.push(v & 1);
                channel = channel + 1;
            }
            p = p + 1;
        }

        let length: u32 = bits_to_u32(bits.as_slice());
        proof {
            lemma_fold_reads_u32(bits@, px, 32);
            lemma_unmasked_zero(read_u32(px, 1, None, 32));
            assert(length == header_length(px, default_settings()));
        }

        let needed_bits: u64 = 32 + (length as u64) * 8;
        if needed_bits > bits.len() as u64 {
            let message = String::from_str("claimed payload length ").concat(length.to_string().as_str()).concat(
                " exceeds image capacity",
            );
            return Err(CloakError::CorruptedData(message));
        }

        let mut payload: Vec<u8> = Vec::with_capacity(length as usize);
        let mut i: usize = 0;
        while i < length as usize
            invariant
                i <= length,
                32 + length * 8 <= bits@.len(),
                bits@.len() <= usize::MAX,
                forall|k: int| 0 <= k < bits@.len() ==> #[trigger] bits@[k] == read_bit_at(px, 1, None, k),
                payload@ =~= Seq::new(i as nat, |q: int| read_u8(px, 1, None, 32 + 8 * q, 8)),
            decreases length - i,
        {
            let start: usize = 32 + i * 8;
            let byte = bits_to_byte(vstd::slice::slice_subrange(bits.as_slice(), start, start + 8));
            proof {
                lemma_fold_reads_u8(bits@.subrange(start as int, start + 8), px, start as int, 8);
            }
            payload.push(byte);
            i = i + 1;
        }
        Ok(payload)
    }
}

/// Folds the first (up to) 32 entries into a word, most significant first.
pub fn bits_to_u32(bits: &[u8]) -> (r: u32)
    ensures
        r == fold_bits_u32(bits@, if bits@.len() < 32 { bits@.len() } else { 32 }),
{
    let n: usize = if bits.len() < 32 {
        bits.len()
    } else {
        32
    };
    let mut val: u32 = 0;
    let mut i: usize = 0;
    while i < n
        invariant
            i <= n,
            n <= bits@.len(),
            val == fold_bits_u32(bits@, i as nat),
        decreases n - i,
    {
        val = (val << 1u32) | bits[i] as u32;
        i = i + 1;
    }
    val
}

/// Folds the first (up to) 8 entries into a byte, most significant first.
pub fn bits_to_byte(bits: &[u8]) -> (r: u8)
    ensures
        r == fold_bits_u8(bits@, if bits@.len() < 8 { bits@.len() } else { 8 }),
{
    let n: usize = if bits.len() < 8 {
        bits.len()
    } else {
        8
    };
    let mut val: u8 = 0;
    let mut i: usize = 0;
    while i < n
        invariant
            i <= n,
            n <= bits@.len(),
            val == fold_bits_u8(bits@, i as nat),
        decreases n - i,
    {
        val = (val << 1u8) | bits[i];
        i = i + 1;
    }
    val
}

/// Folding the bits read back gives the header word as read by extraction.
proof fn lemma_fold_reads_u32(bits: Seq<u8>, px: Seq<u8>, n: nat)
    requires
        n <= 32,
        32 <= bits.len(),
        forall|k: int| 0 <= k < bits.len() ==> #[trigger] bits[k] == read_bit_at(px, 1, None, k),
    ensures
        fold_bits_u32(bits, n) == read_u32(px, 1, None, n),
    decreases n,
{
    if n > 0 {
        lemma_fold_reads_u32(bits, px, (n - 1) as nat);
        assert(bits[n - 1] == read_bit_at(px, 1, None, n - 1));
    }
}

/// Folding eight bits read back from `start` on gives the byte extraction reads there.
proof fn lemma_fold_reads_u8(window: Seq<u8>, px: Seq<u8>, start: int, n: nat)
    requires
        n <= 8,
        window.len() == 8,
        forall|t: int| 0 <= t < 8 ==> #[trigger] window[t] == read_bit_at(px, 1, None, start + t),
    ensures
        fold_bits_u8(window, n) == read_u8(px, 1, None, start, n),
    decreases n,
{
    if n > 0 {
        lemma_fold_reads_u8(window, px, start, (n - 1) as nat);
        assert(window[n - 1] == read_bit_at(px, 1, None, start + n - 1));
    }
}

/// Removing an all-zero mask leaves the header word as it is.
proof fn lemma_unmasked_zero(acc: u32)
    ensures
        unmask_length(acc, seq![0u8, 0u8, 0u8, 0u8]) == acc,
{
    let z = seq![0u8, 0u8, 0u8, 0u8];
    assert(z[0] == 0u8 && z[1] == 0u8 && z[2] == 0u8 && z[3] == 0u8);
    assert((((((acc >> 24u32) as u8) ^ 0u8) as u32) << 24u32) | (((((acc >> 16u32) as u8) ^ 0u8) as u32)
        << 16u32) | (((((acc >> 8u32) as u8) ^ 0u8) as u32) << 8u32) | ((((acc as u8) ^ 0u8)) as u32)
        == acc) by (bit_vector);
}

/// What the BMP codec writes into an image, its decoder reads back: the
/// payload, whenever it fits the image's capacity.
pub proof fn lemma_bmp_roundtrip(px: Seq<u8>, width: u32, height: u32, payload: Seq<u8>)
    requires
        px.len() == 4 * (width * height),
        payload.len() <= spec_raw_capacity(width, height, 1),
        payload.len() <= u32::MAX,
        width * height * 3 >= 32,
    ensures
        lsb_extract(bmp_embed(px, width, height, payload), width, height, default_settings()) == Some(payload),
{
    let s = default_settings();
    let z = seq![0u8, 0u8, 0u8, 0u8];
    let bytes = lsb_stream(payload, z, Seq::empty());
    assert(super::lsb_model::carrier_bits(width, height, s) == width * height * 3);
    assert(embed_order_ok(None, 1, stream_bits(bytes), width * height));
    assert(order_injective(None, 1, stream_bits(bytes), width * height));
    assert(bmp_embed(px, width, height, payload) == lsb_embed(px, (width * height) as nat, payload, Seq::empty(), s));
    lemma_lsb_roundtrip(px, width, height, payload, Seq::empty(), s);
}

} // verus!
