//! The LSB engine: capacity arithmetic, embedding and extraction.

use vstd::prelude::*;
use vstd::string::StringSliceAdditionalSpecFns;

use rand::seq::SliceRandom;
use rand::SeedableRng;
use rand_chacha::ChaCha20Rng;

use crate::crypto::{argon2_hash, argon2id_key};
use crate::error::CloakError;
use crate::random::thread_random_bytes;
use crate::raster::Raster;

use rayon::iter::{IntoParallelIterator, ParallelIterator};

use super::lsb_model::{
    channel_start, clear_mask, embed_order_ok, embed_upto, eff_depth, lemma_embed_upto_inactive,
    lemma_embed_upto_len, lemma_write_channels_inactive, lsb_embed, lsb_stream, order_at,
    order_at_valid, padded_len, slot_active, stream_bits, write_channel, write_channels, chan_bits,
    carrier_bits, extract_reads_ok, header_length, lsb_extract, read_bit_at, read_u32, read_u8,
    reads_valid, value_mask, LsbSettings, order_covers,
};

verus! {

/// Number of color channels used for embedding (R, G, B).
pub const CHANNELS: usize = 3;

/// Parameters controlling LSB embedding behavior.
#[derive(Debug, Clone)]
pub struct LsbParams {
    /// Number of bits per channel to use (1-4).
    pub bit_depth: u8,
    /// Pixel traversal order.
    pub pixel_order: PixelOrder,
    /// XOR mask applied to the 4-byte length header.
    /// Defaults to `[0; 4]` (no masking).
    pub length_mask: [u8; 4],
}

impl View for LsbParams {
    type V = LsbSettings;

    open spec fn view(&self) -> LsbSettings {
        LsbSettings { bit_depth: self.bit_depth, order: self.pixel_order@, mask: self.length_mask@ }
    }
}

impl Default for LsbParams {
    fn default() -> (r: Self)
        ensures
            r.bit_depth == 1,
            r.pixel_order is Sequential,
            r.length_mask@ == seq![0u8, 0u8, 0u8, 0u8],
    {
        LsbParams { bit_depth: 1, pixel_order: PixelOrder::Sequential, length_mask: [0u8; 4] }
    }
}

/// Controls pixel traversal order during embed/extract.
#[derive(Debug, Clone)]
pub enum PixelOrder {
    /// Sequential row-major order (default).
    Sequential,
    /// Randomized order derived from passphrase.
    Randomized(Vec<usize>),
}

impl View for PixelOrder {
    type V = Option<Seq<usize>>;

    open spec fn view(&self) -> Option<Seq<usize>> {
        match self {
            PixelOrder::Sequential => None,
            PixelOrder::Randomized(p) => Some(p@),
        }
    }
}

impl Default for PixelOrder {
    fn default() -> (r: Self)
        ensures
            r is Sequential,
    {
        PixelOrder::Sequential
    }
}

/// Block size for payload padding (bytes).
pub const PAD_BLOCK: usize = 64;

/// Detailed breakdown of embedding capacity at a given bit depth.
#[derive(Debug, Clone)]
pub struct CapacityBreakdown {
    /// Total embeddable bits across all usable pixel channels.
    pub total_pixel_bits: usize,
    /// Bits consumed by the 4-byte length header.
    pub length_header_bits: usize,
    /// Raw capacity in bytes after subtracting the length header.
    pub raw_capacity_bytes: usize,
    /// Number of full `PAD_BLOCK`-sized blocks that fit in raw capacity.
    pub full_pad_blocks: usize,
    /// Usable bytes: `full_blocks * PAD_BLOCK`, or `raw` if no full block fits.
    pub usable_bytes: usize,
}

/// Total number of carrier bits of a `width` x `height` image at `bit_depth`.
pub open spec fn spec_pixel_bits(width: u32, height: u32, bit_depth: u8) -> int {
    width * height * 3 * bit_depth
}

/// Bytes available after the 32-bit length header.
pub open spec fn spec_raw_capacity(width: u32, height: u32, bit_depth: u8) -> int {
    let bits = spec_pixel_bits(width, height, bit_depth);
    if bits < 32 { 0 } else { (bits - 32) / 8 }
}

/// Usable payload bytes: whole padding blocks, or the raw capacity when no block fits.
pub open spec fn spec_max_payload(width: u32, height: u32, bit_depth: u8) -> int {
    let raw = spec_raw_capacity(width, height, bit_depth);
    if raw / 64 == 0 { raw } else { (raw / 64) * 64 }
}

/// Compute detailed capacity breakdown for the given image dimensions and bit depth.
pub fn capacity_breakdown(width: u32, height: u32, bit_depth: u8) -> (r: CapacityBreakdown)
    requires
        width * height * 3 <= usize::MAX,
        spec_pixel_bits(width, height, bit_depth) <= usize::MAX,
    ensures
        r.total_pixel_bits == spec_pixel_bits(width, height, bit_depth),
        r.length_header_bits == 32,
        r.raw_capacity_bytes == spec_raw_capacity(width, height, bit_depth),
        r.full_pad_blocks == spec_raw_capacity(width, height, bit_depth) / 64,
        r.usable_bytes == spec_max_payload(width, height, bit_depth),
{
    assert(width * height * 3 * bit_depth == (width * height * 3) * bit_depth) by (nonlinear_arith);
    let total_pixel_bits: usize = width as usize * height as usize * CHANNELS * bit_depth as usize;
    let length_header_bits: usize = 32;
    let raw_capacity_bytes: usize = total_pixel_bits.saturating_sub(length_header_bits) / 8;
    let full_pad_blocks: usize = raw_capacity_bytes / PAD_BLOCK;
    let usable_bytes: usize = if full_pad_blocks == 0 {
        raw_capacity_bytes
    } else {
        full_pad_blocks * PAD_BLOCK
    };
    CapacityBreakdown {
        total_pixel_bits,
        length_header_bits,
        raw_capacity_bytes,
        full_pad_blocks,
        usable_bytes,
    }
}

/// Maximum payload bytes that can be embedded at a given bit depth.
pub fn max_payload_bytes(width: u32, height: u32, bit_depth: u8) -> (r: usize)
    requires
        width * height * 3 <= usize::MAX,
        spec_pixel_bits(width, height, bit_depth) <= usize::MAX,
    ensures
        r == spec_max_payload(width, height, bit_depth),
{
    capacity_breakdown(width, height, bit_depth).usable_bytes
}

/// Random bytes that pad a payload of `payload_len` bytes up to a multiple of `PAD_BLOCK`.
fn random_padding(payload_len: usize) -> (r: Vec<u8>)
    requires
        payload_len + 64 <= usize::MAX,
    ensures
        r@.len() == padded_len(payload_len as int) - payload_len,
{
    let padded_len: usize = if payload_len == 0 {
        0
    } else {
        ((payload_len + 63) / PAD_BLOCK) * PAD_BLOCK
    };
    thread_random_bytes(padded_len - payload_len)
}

/// Embedding at these parameters cannot panic and the traversal names pixels of the image.
pub open spec fn embed_ready(rgba: Raster, payload_len: int, s: LsbSettings) -> bool {
    let bd = eff_depth(s.bit_depth);
    let npix = rgba.width * rgba.height;
    &&& bd <= 7
    &&& npix <= u32::MAX
    &&& embed_order_ok(s.order, bd, 8 * (4 + padded_len(payload_len)), npix)
}

/// Embed payload, followed by the given padding, into the low N bits of the
/// R, G, B channels of an RGBA image.
pub fn embed_lsb_with_padding(rgba: &mut Raster, payload: &[u8], padding: &[u8], params: &LsbParams) -> (r:
    Result<(), CloakError>)
    requires
        old(rgba).wf(),
        old(rgba).width * old(rgba).height * 3 <= usize::MAX,
        spec_pixel_bits(old(rgba).width, old(rgba).height, eff_depth(params.bit_depth)) + 1024 <= usize::MAX,
        payload@.len() > spec_max_payload(old(rgba).width, old(rgba).height, eff_depth(params.bit_depth))
            || embed_ready(*old(rgba), payload@.len() as int, params@),
        padding@.len() == padded_len(payload@.len() as int) - payload@.len(),
    ensures
        final(rgba).width == old(rgba).width,
        final(rgba).height == old(rgba).height,
        final(rgba).wf(),
        r is Ok <==> payload@.len() <= spec_max_payload(
            old(rgba).width,
            old(rgba).height,
            eff_depth(params.bit_depth),
        ),
        r is Ok ==> final(rgba).pixels@ == lsb_embed(
            old(rgba).pixels@,
            (old(rgba).width * old(rgba).height) as nat,
            payload@,
            padding@,
            params@,
        ),
        r matches Err(e) ==> final(rgba).pixels@ == old(rgba).pixels@ && e == (CloakError::PayloadTooLarge {
            needed: payload@.len() as usize,
            capacity: spec_max_payload(old(rgba).width, old(rgba).height, eff_depth(params.bit_depth))
                as usize,
        }),
{
    let bit_depth: u8 = if params.bit_depth == 0 {
        1
    } else {
        params.bit_depth
    };
    let width = rgba.width;
    let height = rgba.height;
    let max = max_payload_bytes(width, height, bit_depth);

    if payload.len() > max {
        return Err(CloakError::PayloadTooLarge { needed: payload.len(), capacity: max });
    }
    let all_bytes = build_stream(payload, padding, &params.length_mask);

    let ghost old_px = rgba.pixels@;
    proof {
        assert(embed_order_ok(params.pixel_order@, bit_depth, stream_bits(all_bytes@), width * height));
    }
    write_stream(rgba, &all_bytes, bit_depth, &params.pixel_order);
    Ok(())
}

/// Embed payload into the low N bits of R, G, B channels of an RGBA image.
pub fn embed_lsb(rgba: &mut Raster, payload: &[u8], params: &LsbParams) -> (r: Result<(), CloakError>)
    requires
        old(rgba).wf(),
        old(rgba).width * old(rgba).height * 3 <= usize::MAX,
        spec_pixel_bits(old(rgba).width, old(rgba).height, eff_depth(params.bit_depth)) + 1024 <= usize::MAX,
        payload@.len() > spec_max_payload(old(rgba).width, old(rgba).height, eff_depth(params.bit_depth))
            || embed_ready(*old(rgba), payload@.len() as int, params@),
    ensures
        final(rgba).width == old(rgba).width,
        final(rgba).height == old(rgba).height,
        final(rgba).wf(),
        r is Ok <==> payload@.len() <= spec_max_payload(
            old(rgba).width,
            old(rgba).height,
            eff_depth(params.bit_depth),
        ),
        r is Ok ==> exists|pad: Seq<u8>|
            pad.len() == padded_len(payload@.len() as int) - payload@.len() && final(rgba).pixels@
                == #[trigger] lsb_embed(
                old(rgba).pixels@,
                (old(rgba).width * old(rgba).height) as nat,
                payload@,
                pad,
                params@,
            ),
        r is Ok && padded_len(payload@.len() as int) == payload@.len() ==> final(rgba).pixels@ == lsb_embed(
            old(rgba).pixels@,
            (old(rgba).width * old(rgba).height) as nat,
            payload@,
            Seq::<u8>::empty(),
            params@,
        ),
        r matches Err(e) ==> final(rgba).pixels@ == old(rgba).pixels@ && e == (CloakError::PayloadTooLarge {
            needed: payload@.len() as usize,
            capacity: spec_max_payload(old(rgba).width, old(rgba).height, eff_depth(params.bit_depth))
                as usize,
        }),
{
    let bit_depth: u8 = if params.bit_depth == 0 {
        1
    } else {
        params.bit_depth
    };
    let max = max_payload_bytes(rgba.width, rgba.height, bit_depth);
    if payload.len() > max {
        return Err(CloakError::PayloadTooLarge { needed: payload.len(), capacity: max });
    }
    let padding = random_padding(payload.len());
    let r = embed_lsb_with_padding(rgba, payload, &padding, params);
    assert(padding@.len() == 0 ==> padding@ =~= Seq::<u8>::empty());
    r
}

/// Write a byte stream into the low bits of the image's R, G and B channels,
/// `bit_depth` bits per channel, visiting pixels in traversal order.
pub(crate) fn write_stream(rgba: &mut Raster, all_bytes: &Vec<u8>, bit_depth: u8, order_param: &PixelOrder)
    requires
        old(rgba).wf(),
        1 <= bit_depth <= 7,
        old(rgba).width * old(rgba).height <= usize::MAX,
        all_bytes@.len() * 8 <= usize::MAX,
        embed_order_ok(order_param@, bit_depth, stream_bits(all_bytes@), old(rgba).width * old(rgba).height),
    ensures
        final(rgba).width == old(rgba).width,
        final(rgba).height == old(rgba).height,
        final(rgba).wf(),
        final(rgba).pixels@ == embed_upto(
            old(rgba).pixels@,
            all_bytes@,
            bit_depth,
            order_param@,
            (old(rgba).width * old(rgba).height) as nat,
        ),
{
    let width = rgba.width;
    let height = rgba.height;
    assert(1u8 <= bit_depth <= 7 ==> (1u8 << bit_depth) >= 1) by (bit_vector);
    let mask: u8 = !((1u8 << bit_depth) - 1);
    let total_pixels: usize = width as usize * height as usize;

    let ghost bd = bit_depth;
    let ghost bytes = all_bytes@;
    let ghost order = order_param@;
    let ghost old_px = rgba.pixels@;
    let ghost npix: int = width * height;
    let total_bits: usize = all_bytes.len() * 8;
    let plen: usize = rgba.pixels.len();
    let mut bit_idx: usize = 0;
    let mut i: usize = 0;
    while i < total_pixels
        invariant_except_break
            i <= total_pixels,
            bit_idx == (if i * (3 * bd) < total_bits { i * (3 * bd) } else { total_bits as int }),
        invariant
            bd == bit_depth,
            1 <= bd <= 7,
            mask == clear_mask(bd),
            total_pixels == npix,
            npix == width * height,
            width == rgba.width,
            height == rgba.height,
            old_px.len() == 4 * npix,
            old_px.len() == plen,
            rgba.pixels@.len() == old_px.len(),
            total_bits == stream_bits(bytes),
            bytes == all_bytes@,
            order == order_param@,
            embed_order_ok(order, bd, stream_bits(bytes), npix),
            rgba.pixels@ == embed_upto(old_px, bytes, bd, order, i as nat),
        ensures
            rgba.pixels@ == embed_upto(old_px, bytes, bd, order, npix as nat),
            rgba.pixels@.len() == old_px.len(),
            width == rgba.width,
            height == rgba.height,
        decreases total_pixels - i,
    {
        if bit_idx >= total_bits {
            proof {
                lemma_embed_upto_inactive(old_px, bytes, bd, order, i as nat, npix as nat);
            }
            break;
        }
        assert(slot_active(bd, i as int, total_bits as int));
        assert(order_at_valid(order, i as int, npix));
        let pixel_idx: usize = match &order_param {
            PixelOrder::Sequential => i,
            PixelOrder::Randomized(perm) => perm[i],
        };
        assert(pixel_idx == order_at(order, i as int));
        let base: usize = pixel_idx * 4;
        let ghost slot_img = rgba.pixels@;
        assert(channel_start(bd, i as int, 3) == (i + 1) * (3 * bd)) by (nonlinear_arith);
        let mut channel: usize = 0;
        while channel < 3
            invariant_except_break
                channel <= 3,
                bit_idx == (if channel_start(bd, i as int, channel as int) < total_bits {
                    channel_start(bd, i as int, channel as int)
                } else {
                    total_bits as int
                }),
            invariant
                bd == bit_depth,
                1 <= bd <= 7,
                mask == clear_mask(bd),
                i < total_pixels,
                total_pixels == npix,
                0 <= pixel_idx < npix,
                base == 4 * pixel_idx,
                pixel_idx == order_at(order, i as int),
                channel_start(bd, i as int, 3) == (i + 1) * (3 * bd),
                rgba.pixels@.len() == old_px.len(),
                old_px.len() == 4 * npix,
                slot_img.len() == old_px.len(),
                total_bits == stream_bits(bytes),
                bytes == all_bytes@,
                width == rgba.width,
                height == rgba.height,
                rgba.pixels@ == write_channels(slot_img, bytes, bd, pixel_idx as int, i as int, channel as nat),
            ensures
                rgba.pixels@ == write_channels(slot_img, bytes, bd, pixel_idx as int, i as int, 3),
                rgba.pixels@.len() == old_px.len(),
                width == rgba.width,
                height == rgba.height,
                bit_idx == (if (i + 1) * (3 * bd) < total_bits { (i + 1) * (3 * bd) } else { total_bits as int }),
            decreases 3 - channel,
        {
            if bit_idx >= total_bits {
                proof {
                    lemma_write_channels_inactive(
                        slot_img,
                        bytes,
                        bd,
                        pixel_idx as int,
                        i as int,
                        channel as nat,
                        3,
                    );
                    assert(channel_start(bd, i as int, 3) == (i + 1) * (3 * bd)) by (nonlinear_arith);
                    assert(channel_start(bd, i as int, channel as int) <= channel_start(bd, i as int, 3))
                        by (nonlinear_arith)
                        requires
                            channel <= 3,
                    ;
                }
                break;
            }
            let ghost start: int = channel_start(bd, i as int, channel as int);
            let mut val: u8 = 0;
            let mut b: u8 = 0;
            while b < bit_depth
                invariant
                    bd == bit_depth,
                    1 <= bd <= 7,
                    b <= bd,
                    0 <= start < total_bits,
                    total_bits == stream_bits(bytes),
                    bytes == all_bytes@,
                    bit_idx == (if start + b < total_bits { start + b } else { total_bits as int }),
                    val == chan_bits(bytes, bd, start, b as nat),
                decreases bd - b,
            {
                if bit_idx < total_bits {
                    let byte_pos: usize = bit_idx / 8;
                    let bit_pos: u8 = (7 - (bit_idx % 8)) as u8;
                    let bit: u8 = (all_bytes[byte_pos] >> bit_pos) & 1;
                    val = val | (bit << (bit_depth - 1 - b));
                    bit_idx = bit_idx + 1;
                }
                b = b + 1;
            }
            let old_v = rgba.pixels[base + channel];
            rgba.pixels.set(base + channel, (old_v & mask) | val);
            proof {
                assert(start < total_bits);
                let cur = write_channels(slot_img, bytes, bd, pixel_idx as int, i as int, channel as nat);
                assert(rgba.pixels@ =~= write_channel(cur, bytes, bd, pixel_idx as int, i as int, channel as int));
                assert(channel_start(bd, i as int, channel + 1) == start + bd) by (nonlinear_arith)
                    requires
                        start == channel_start(bd, i as int, channel as int),
                ;
            }
            channel = channel + 1;
        }
        proof {
            assert(embed_upto(old_px, bytes, bd, order, (i + 1) as nat) == write_channels(
                embed_upto(old_px, bytes, bd, order, i as nat),
                bytes,
                bd,
                order_at(order, i as int),
                i as int,
                3,
            ));
        }
        i = i + 1;
    }
    proof {
        lemma_embed_upto_len(old_px, bytes, bd, order, npix as nat, npix);
    }
}

/// Minimum pixel count for parallel embedding; below this, fall back to sequential.
pub const PARALLEL_MIN_PIXELS: usize = 4096;

/// The low-bit value written into a channel whose first stream bit is `start`.
fn channel_value(bytes: &Vec<u8>, bit_depth: u8, start: usize) -> (r: u8)
    requires
        1 <= bit_depth <= 7,
        start + bit_depth <= usize::MAX,
        bytes@.len() * 8 <= usize::MAX,
    ensures
        r == chan_bits(bytes@, bit_depth, start as int, bit_depth as nat),
{
    let total_bits: usize = bytes.len() * 8;
    let mut val: u8 = 0;
    let mut b: u8 = 0;
    while b < bit_depth
        invariant
            1 <= bit_depth <= 7,
            b <= bit_depth,
            start + bit_depth <= usize::MAX,
            total_bits == stream_bits(bytes@),
            val == chan_bits(bytes@, bit_depth, start as int, b as nat),
        decreases bit_depth - b,
    {
        let bit_idx: usize = start + b as usize;
        if bit_idx < total_bits {
            let byte_pos: usize = bit_idx / 8;
            let bit_pos: u8 = (7 - (bit_idx % 8)) as u8;
            let bit: u8 = (bytes[byte_pos] >> bit_pos) & 1;
            val = val | (bit << (bit_depth - 1 - b));
        }
        b = b + 1;
    }
    val
}

/// The low-bit values that traversal slot `i` writes into its R, G and B channels.
pub fn slot_channel_values(bytes: &Vec<u8>, bit_depth: u8, i: usize) -> (r: [u8; 3])
    requires
        1 <= bit_depth <= 7,
        (i + 1) * (3 * bit_depth) <= usize::MAX,
        bytes@.len() * 8 <= usize::MAX,
    ensures
        forall|c: int|
            0 <= c < 3 ==> #[trigger] r@[c] == chan_bits(
                bytes@,
                bit_depth,
                channel_start(bit_depth, i as int, c),
                bit_depth as nat,
            ),
{
    let bd: usize = bit_depth as usize;
    assert(i * (3 * bd) + 3 * bd == (i + 1) * (3 * bd)) by (nonlinear_arith);
    let base: usize = i * (CHANNELS * bd);
    let v0 = channel_value(bytes, bit_depth, base);
    let v1 = channel_value(bytes, bit_depth, base + bd);
    let v2 = channel_value(bytes, bit_depth, base + 2 * bd);
    let r = [v0, v1, v2];
    assert forall|c: int| 0 <= c < 3 implies #[trigger] r@[c] == chan_bits(
        bytes@,
        bit_depth,
        channel_start(bit_depth, i as int, c),
        bit_depth as nat,
    ) by {
        assert(channel_start(bit_depth, i as int, c) == base + c * bd);
    }
    r
}

/// Maps `slot_channel_values` over the slots `0..count` with rayon's
/// `into_par_iter().map(..).collect()`. Claims: the collected vector has one
/// entry per slot, in slot order (rayon's indexed `collect` keeps order), each
/// the value that function returns for the slot.
#[verifier::external_body]
fn par_slot_values(bytes: &Vec<u8>, bit_depth: u8, count: usize) -> (r: Vec<[u8; 3]>)
    requires
        1 <= bit_depth <= 7,
        count * (3 * bit_depth) <= usize::MAX,
        bytes@.len() * 8 <= usize::MAX,
    ensures
        r@.len() == count,
        forall|j: int, c: int|
            0 <= j < count && 0 <= c < 3 ==> #[trigger] r@[j]@[c] == chan_bits(
                bytes@,
                bit_depth,
                channel_start(bit_depth, j, c),
                bit_depth as nat,
            ),
{
    (0..count).into_par_iter().map(|i| slot_channel_values(bytes, bit_depth, i)).collect()
}

/// A stream that fits a large enough image needs no more slots than it has pixels.
proof fn lemma_parallel_slots(npix: int, bd: int, len: int)
    requires
        npix >= 4096,
        1 <= bd <= 7,
        0 <= len <= spec_max_payload_int(npix * 3 * bd),
    ensures
        8 * (4 + padded_len(len)) <= npix * (3 * bd),
{
    let bits = npix * 3 * bd;
    assert(bits >= 12288) by (nonlinear_arith)
        requires
            npix >= 4096,
            bd >= 1,
            bits == npix * 3 * bd,
    ;
    let raw = (bits - 32) / 8;
    assert(raw >= 1532);
    let max = (raw / 64) * 64;
    assert(raw / 64 >= 23);
    assert(max <= raw);
    if len > 0 {
        assert(padded_len(len) <= max) by {
            let k = (len + 63) / 64;
            assert(len <= (raw / 64) * 64);
            assert(k <= raw / 64) by {
                assert((len + 63) / 64 <= ((raw / 64) * 64 + 63) / 64);
                assert(((raw / 64) * 64 + 63) / 64 == raw / 64);
            }
            assert(k * 64 <= (raw / 64) * 64) by (nonlinear_arith)
                requires
                    k <= raw / 64,
            ;
        }
    }
    assert(npix * 3 * bd == npix * (3 * bd)) by (nonlinear_arith);
}

/// The usable payload of an image with `bits` carrier bits.
pub open spec fn spec_max_payload_int(bits: int) -> int {
    let raw = if bits < 32 { 0 } else { (bits - 32) / 8 };
    if raw / 64 == 0 { raw } else { (raw / 64) * 64 }
}

/// Embed payload, followed by the given padding, into the low N bits of the
/// R, G, B channels using parallel processing; the same pixels as
/// [`embed_lsb_with_padding`]. For images smaller than 64x64 pixels, falls
/// back to the sequential implementation.
pub fn embed_lsb_parallel_with_padding(
    rgba: &mut Raster,
    payload: &[u8],
    padding: &[u8],
    params: &LsbParams,
) -> (r: Result<(), CloakError>)
    requires
        old(rgba).wf(),
        old(rgba).width * old(rgba).height * 3 <= usize::MAX,
        spec_pixel_bits(old(rgba).width, old(rgba).height, eff_depth(params.bit_depth)) + 1024 <= usize::MAX,
        payload@.len() > spec_max_payload(old(rgba).width, old(rgba).height, eff_depth(params.bit_depth))
            || embed_ready(*old(rgba), payload@.len() as int, params@),
        padding@.len() == padded_len(payload@.len() as int) - payload@.len(),
    ensures
        final(rgba).width == old(rgba).width,
        final(rgba).height == old(rgba).height,
        final(rgba).wf(),
        r is Ok <==> payload@.len() <= spec_max_payload(
            old(rgba).width,
            old(rgba).height,
            eff_depth(params.bit_depth),
        ),
        r is Ok ==> final(rgba).pixels@ == lsb_embed(
            old(rgba).pixels@,
            (old(rgba).width * old(rgba).height) as nat,
            payload@,
            padding@,
            params@,
        ),
        r matches Err(e) ==> final(rgba).pixels@ == old(rgba).pixels@ && e == (CloakError::PayloadTooLarge {
            needed: payload@.len() as usize,
            capacity: spec_max_payload(old(rgba).width, old(rgba).height, eff_depth(params.bit_depth))
                as usize,
        }),
{
    let width = rgba.width;
    let height = rgba.height;
    let total_pixels: usize = width as usize * height as usize;

    if total_pixels < PARALLEL_MIN_PIXELS {
        return embed_lsb_with_padding(rgba, payload, padding, params);
    }
    let bit_depth: u8 = if params.bit_depth == 0 {
        1
    } else {
        params.bit_depth
    };
    let max = max_payload_bytes(width, height, bit_depth);

    if payload.len() > max {
        return Err(CloakError::PayloadTooLarge { needed: payload.len(), capacity: max });
    }
    let all_bytes = build_stream(payload, padding, &params.length_mask);
    let ghost pad = padding@;

    let ghost bd = bit_depth;
    let ghost bytes = all_bytes@;
    let ghost order = params.pixel_order@;
    let ghost old_px = rgba.pixels@;
    let ghost npix: int = width * height;
    assert(spec_pixel_bits(width, height, bit_depth) == npix * 3 * bd) by (nonlinear_arith)
        requires
            npix == width * height,
            bd == bit_depth,
    ;
    proof {
        lemma_parallel_slots(npix, bd as int, payload@.len() as int);
    }
    let total_bits: usize = all_bytes.len() * 8;
    let bits_per_pixel: usize = CHANNELS * bit_depth as usize;
    let pixels_needed: usize = (total_bits + bits_per_pixel - 1) / bits_per_pixel;
    assert(pixels_needed <= npix && pixels_needed * bits_per_pixel >= total_bits) by (nonlinear_arith)
        requires
            pixels_needed == (total_bits + bits_per_pixel - 1) / (bits_per_pixel as int),
            bits_per_pixel >= 1,
            total_bits <= npix * bits_per_pixel,
    ;
    assert(pixels_needed * (3 * bd) <= npix * (3 * bd)) by (nonlinear_arith)
        requires
            pixels_needed <= npix,
            bd >= 1,
    ;
    assert(npix * (3 * bd) == npix * 3 * bd) by (nonlinear_arith);
    let vals = par_slot_values(&all_bytes, bit_depth, pixels_needed);
    let plen: usize = rgba.pixels.len();

    assert(1u8 <= bit_depth <= 7 ==> (1u8 << bit_depth) >= 1) by (bit_vector);
    let mask: u8 = !((1u8 << bit_depth) - 1);

    let mut i: usize = 0;
    while i < pixels_needed
        invariant
            i <= pixels_needed,
            pixels_needed <= npix,
            pixels_needed * bits_per_pixel >= total_bits,
            (total_bits + bits_per_pixel - 1) / (bits_per_pixel as int) == pixels_needed,
            bits_per_pixel == 3 * bd,
            bd == bit_depth,
            1 <= bd <= 7,
            mask == clear_mask(bd),
            npix == width * height,
            npix * 3 * bd + 1024 <= usize::MAX,
            width == rgba.width,
            height == rgba.height,
            old_px.len() == 4 * npix,
            old_px.len() == plen,
            rgba.pixels@.len() == old_px.len(),
            total_bits == stream_bits(bytes),
            bytes == all_bytes@,
            order == params.pixel_order@,
            embed_order_ok(order, bd, stream_bits(bytes), npix),
            vals@.len() == pixels_needed,
            forall|j: int, c: int|
                0 <= j < pixels_needed && 0 <= c < 3 ==> #[trigger] vals@[j]@[c] == chan_bits(
                    bytes,
                    bd,
                    channel_start(bd, j, c),
                    bd as nat,
                ),
            rgba.pixels@ == embed_upto(old_px, bytes, bd, order, i as nat),
        decreases pixels_needed - i,
    {
        assert(i * bits_per_pixel < total_bits) by (nonlinear_arith)
            requires
                i < pixels_needed,
                pixels_needed == (total_bits + bits_per_pixel - 1) / (bits_per_pixel as int),
                bits_per_pixel >= 1,
        ;
        assert(slot_active(bd, i as int, total_bits as int));
        assert(order_at_valid(order, i as int, npix));
        let pixel_idx: usize = match &params.pixel_order {
            PixelOrder::Sequential => i,
            PixelOrder::Randomized(perm) => perm[i],
        };
        assert(pixel_idx == order_at(order, i as int));
        let base: usize = pixel_idx * 4;
        let cv: [u8; 3] = vals[i];
        let ghost slot_img = rgba.pixels@;
        assert(i * bits_per_pixel + 2 * bd < npix * 3 * bd) by (nonlinear_arith)
            requires
                i < npix,
                bits_per_pixel == 3 * bd,
                bd >= 1,
        ;
        let mut ch: usize = 0;
        while ch < 3
            invariant
                ch <= 3,
                i < pixels_needed,
                pixels_needed <= npix,
                bits_per_pixel == 3 * bd,
                bd == bit_depth,
                1 <= bd <= 7,
                mask == clear_mask(bd),
                i * bits_per_pixel + 2 * bd < npix * 3 * bd,
                npix * 3 * bd + 1024 <= usize::MAX,
                0 <= pixel_idx < npix,
                base == 4 * pixel_idx,
                rgba.pixels@.len() == old_px.len(),
                old_px.len() == 4 * npix,
                slot_img.len() == old_px.len(),
                total_bits == stream_bits(bytes),
                bytes == all_bytes@,
                width == rgba.width,
                height == rgba.height,
                forall|c: int|
                    0 <= c < 3 ==> #[trigger] cv@[c] == chan_bits(
                        bytes,
                        bd,
                        channel_start(bd, i as int, c),
                        bd as nat,
                    ),
                rgba.pixels@ == write_channels(slot_img, bytes, bd, pixel_idx as int, i as int, ch as nat),
            decreases 3 - ch,
        {
            assert(ch * bd <= 2 * bd) by (nonlinear_arith)
                requires
                    ch < 3,
                    bd >= 1,
            ;
            let start: usize = i * bits_per_pixel + ch * bit_depth as usize;
            assert(start == channel_start(bd, i as int, ch as int));
            let ghost cur = rgba.pixels@;
            if start < total_bits {
                let old_v = rgba.pixels[base + ch];
                rgba.pixels.set(base + ch, (old_v & mask) | cv[ch]);
            }
            assert(rgba.pixels@ =~= write_channel(cur, bytes, bd, pixel_idx as int, i as int, ch as int));
            ch = ch + 1;
        }
        proof {
            assert(embed_upto(old_px, bytes, bd, order, (i + 1) as nat) == write_channels(
                embed_upto(old_px, bytes, bd, order, i as nat),
                bytes,
                bd,
                order_at(order, i as int),
                i as int,
                3,
            ));
        }
        i = i + 1;
    }
    proof {
        lemma_embed_upto_inactive(old_px, bytes, bd, order, pixels_needed as nat, npix as nat);
        lemma_embed_upto_len(old_px, bytes, bd, order, npix as nat, npix);
        assert(rgba.pixels@ == lsb_embed(old_px, npix as nat, payload@, pad, params@));
    }
    Ok(())
}

/// Embed payload into the low N bits of R, G, B channels using parallel processing.
///
/// Produces bit-identical output to [`embed_lsb`]. For images smaller than 64x64
/// pixels, falls back to the sequential implementation.
pub fn embed_lsb_parallel(rgba: &mut Raster, payload: &[u8], params: &LsbParams) -> (r: Result<
    (),
    CloakError,
>)
    requires
        old(rgba).wf(),
        old(rgba).width * old(rgba).height * 3 <= usize::MAX,
        spec_pixel_bits(old(rgba).width, old(rgba).height, eff_depth(params.bit_depth)) + 1024 <= usize::MAX,
        payload@.len() > spec_max_payload(old(rgba).width, old(rgba).height, eff_depth(params.bit_depth))
            || embed_ready(*old(rgba), payload@.len() as int, params@),
    ensures
        final(rgba).width == old(rgba).width,
        final(rgba).height == old(rgba).height,
        final(rgba).wf(),
        r is Ok <==> payload@.len() <= spec_max_payload(
            old(rgba).width,
            old(rgba).height,
            eff_depth(params.bit_depth),
        ),
        r is Ok ==> exists|pad: Seq<u8>|
            pad.len() == padded_len(payload@.len() as int) - payload@.len() && final(rgba).pixels@
                == #[trigger] lsb_embed(
                old(rgba).pixels@,
                (old(rgba).width * old(rgba).height) as nat,
                payload@,
                pad,
                params@,
            ),
        r is Ok && padded_len(payload@.len() as int) == payload@.len() ==> final(rgba).pixels@ == lsb_embed(
            old(rgba).pixels@,
            (old(rgba).width * old(rgba).height) as nat,
            payload@,
            Seq::<u8>::empty(),
            params@,
        ),
        r matches Err(e) ==> final(rgba).pixels@ == old(rgba).pixels@ && e == (CloakError::PayloadTooLarge {
            needed: payload@.len() as usize,
            capacity: spec_max_payload(old(rgba).width, old(rgba).height, eff_depth(params.bit_depth))
                as usize,
        }),
{
    let total_pixels: usize = rgba.width as usize * rgba.height as usize;
    if total_pixels < PARALLEL_MIN_PIXELS {
        return embed_lsb(rgba, payload, params);
    }
    let bit_depth: u8 = if params.bit_depth == 0 {
        1
    } else {
        params.bit_depth
    };
    let max = max_payload_bytes(rgba.width, rgba.height, bit_depth);
    if payload.len() > max {
        return Err(CloakError::PayloadTooLarge { needed: payload.len(), capacity: max });
    }
    let padding = random_padding(payload.len());
    let r = embed_lsb_parallel_with_padding(rgba, payload, &padding, params);
    assert(padding@.len() == 0 ==> padding@ =~= Seq::<u8>::empty());
    r
}

/// The byte stream written into the carrier: the masked length header, the
/// payload, and the padding that fills its last block.
fn build_stream(payload: &[u8], padding: &[u8], length_mask: &[u8; 4]) -> (r: Vec<u8>)
    requires
        payload@.len() + 1024 <= usize::MAX,
        padding@.len() == padded_len(payload@.len() as int) - payload@.len(),
    ensures
        r@.len() == 4 + padded_len(payload@.len() as int),
        r@ == lsb_stream(payload@, length_mask@, padding@),
{
    // The length header stores the real payload length (before padding).
    let raw_len: u32 = payload.len() as u32;
    let len_bytes: [u8; 4] = [
        ((raw_len >> 24u32) as u8) ^ length_mask[0],
        ((raw_len >> 16u32) as u8) ^ length_mask[1],
        ((raw_len >> 8u32) as u8) ^ length_mask[2],
        (raw_len as u8) ^ length_mask[3],
    ];
    let mut all_bytes: Vec<u8> = Vec::with_capacity(4 + payload.len() + padding.len());
    all_bytes.extend_from_slice(&len_bytes);
    all_bytes.extend_from_slice(payload);
    all_bytes.extend_from_slice(padding);
    assert(all_bytes@ =~= lsb_stream(payload@, length_mask@, padding@));
    all_bytes
}

/// Read a single bit from the image at the given bit position.
fn read_bit(rgba: &Raster, params: &LsbParams, bit_idx: usize) -> (r: u8)
    requires
        rgba.wf(),
        1 <= eff_depth(params.bit_depth) <= 7,
        order_at_valid(
            params.pixel_order@,
            (bit_idx as int) / (3 * eff_depth(params.bit_depth)),
            rgba.width * rgba.height,
        ),
    ensures
        r == read_bit_at(rgba.pixels@, eff_depth(params.bit_depth), params.pixel_order@, bit_idx as int),
        r <= 1,
{
    let depth: u8 = if params.bit_depth == 0 {
        1
    } else {
        params.bit_depth
    };
    let bit_depth: usize = depth as usize;
    let bits_per_pixel: usize = CHANNELS * bit_depth;
    assert(1u8 <= depth <= 7 ==> (1u8 << depth) >= 1) by (bit_vector);
    let value_mask: u8 = (1u8 << depth) - 1;
    let plen: usize = rgba.pixels.len();

    let pixel_i = bit_idx / bits_per_pixel;
    let within_pixel = bit_idx % bits_per_pixel;
    let channel = within_pixel / bit_depth;
    let bit_in_channel = within_pixel % bit_depth;

    let pixel_idx: usize = match &params.pixel_order {
        PixelOrder::Sequential => pixel_i,
        PixelOrder::Randomized(perm) => perm[pixel_i],
    };
    assert(channel < 3) by (nonlinear_arith)
        requires
            within_pixel < 3 * bit_depth,
            channel == within_pixel / bit_depth,
            bit_depth >= 1,
    ;
    let low_bits = rgba.pixels[pixel_idx * 4 + channel] & value_mask;
    let r = (low_bits >> ((bit_depth - 1 - bit_in_channel) as u8)) & 1;
    assert(r <= 1) by (bit_vector)
        requires
            r == (low_bits >> ((bit_depth - 1 - bit_in_channel) as u8)) & 1,
    ;
    r
}

/// Extract payload from the low N bits of R, G, B channels of an RGBA image.
pub fn extract_lsb(rgba: &Raster, params: &LsbParams) -> (r: Result<Vec<u8>, CloakError>)
    requires
        rgba.wf(),
        rgba.width * rgba.height * 3 <= usize::MAX,
        spec_pixel_bits(rgba.width, rgba.height, eff_depth(params.bit_depth)) <= usize::MAX,
        eff_depth(params.bit_depth) <= 7 || carrier_bits(rgba.width, rgba.height, params@) < 32,
        extract_reads_ok(rgba.pixels@, rgba.width, rgba.height, params@),
    ensures
        r is Ok <==> lsb_extract(rgba.pixels@, rgba.width, rgba.height, params@) is Some,
        r matches Ok(v) ==> lsb_extract(rgba.pixels@, rgba.width, rgba.height, params@) == Some(v@),
        r matches Err(e) ==> e is CorruptedData,
{
    let bit_depth: u8 = if params.bit_depth == 0 {
        1
    } else {
        params.bit_depth
    };
    let width = rgba.width;
    let height = rgba.height;
    let total_pixels: usize = width as usize * height as usize;
    let bits_per_pixel: usize = CHANNELS * bit_depth as usize;
    assert(width * height * 3 * bit_depth == total_pixels * bits_per_pixel) by (nonlinear_arith)
        requires
            total_pixels == width * height,
            bits_per_pixel == 3 * bit_depth,
    ;
    let total_bits: usize = total_pixels * bits_per_pixel;
    let ghost img = rgba.pixels@;
    let ghost bd = bit_depth;
    let ghost order = params.pixel_order@;
    assert(total_bits == carrier_bits(width, height, params@));

    if total_bits < 32 {
        return Err(CloakError::CorruptedData(String::from_str("image too small to contain data")));
    }
    // Extract the 4-byte (32-bit) masked length header.

    let mut bit_idx: usize = 0;
    let mut accumulated: u32 = 0;
    while bit_idx < 32
        invariant
            bit_idx <= 32,
            rgba.wf(),
            img == rgba.pixels@,
            bd == eff_depth(params.bit_depth),
            1 <= bd <= 7,
            order == params.pixel_order@,
            reads_valid(order, bd, width * height, 32),
            width == rgba.width,
            height == rgba.height,
            accumulated == read_u32(img, bd, order, bit_idx as nat),
        decreases 32 - bit_idx,
    {
        let bit = read_bit(rgba, params, bit_idx);
        accumulated = (accumulated << 1u32) | bit as u32;
        bit_idx = bit_idx + 1;
    }
    // Unmask the length

    let b0: u8 = ((accumulated >> 24u32) as u8) ^ params.length_mask[0];
    let b1: u8 = ((accumulated >> 16u32) as u8) ^ params.length_mask[1];
    let b2: u8 = ((accumulated >> 8u32) as u8) ^ params.length_mask[2];
    let b3: u8 = (accumulated as u8) ^ params.length_mask[3];
    let length: u32 = ((b0 as u32) << 24u32) | ((b1 as u32) << 16u32) | ((b2 as u32) << 8u32) | (
    b3 as u32);
    assert(length == header_length(img, params@));

    let needed_bits: u64 = 32 + (length as u64) * 8;
    if needed_bits > total_bits as u64 {
        let message = String::from_str("claimed payload length ").concat(length.to_string().as_str()).concat(
            " exceeds image capacity",
        );
        return Err(CloakError::CorruptedData(message));
    }
    // Extract payload bytes directly.

    let mut payload: Vec<u8> = Vec::with_capacity(length as usize);
    let mut idx: u32 = 0;
    while idx < length
        invariant
            idx <= length,
            rgba.wf(),
            img == rgba.pixels@,
            bd == eff_depth(params.bit_depth),
            1 <= bd <= 7,
            order == params.pixel_order@,
            32 + length * 8 <= total_bits,
            reads_valid(order, bd, width * height, 32 + length * 8),
            width == rgba.width,
            height == rgba.height,
            bit_idx == 32 + 8 * idx,
            payload@ =~= Seq::new(idx as nat, |i: int| read_u8(img, bd, order, 32 + 8 * i, 8)),
        decreases length - idx,
    {
        let mut byte: u8 = 0;
        let mut n: u8 = 0;
        while n < 8
            invariant
                n <= 8,
                idx < length,
                rgba.wf(),
                img == rgba.pixels@,
                bd == eff_depth(params.bit_depth),
                1 <= bd <= 7,
                order == params.pixel_order@,
                32 + length * 8 <= total_bits,
                reads_valid(order, bd, width * height, 32 + length * 8),
                width == rgba.width,
                height == rgba.height,
                bit_idx == 32 + 8 * idx + n,
                byte == read_u8(img, bd, order, 32 + 8 * idx, n as nat),
            decreases 8 - n,
        {
            let bit = read_bit(rgba, params, bit_idx);
            byte = (byte << 1u8) | bit;
            bit_idx = bit_idx + 1;
            n = n + 1;
        }
        payload.push(byte);
        idx = idx + 1;
    }
    Ok(payload)
}

// ---------------------------------------------------------------------------
// Passphrase-derived traversal order and length mask
// ---------------------------------------------------------------------------

/// Salt for the permutation seed: `cloak-permutation`.
pub open spec fn permutation_salt() -> Seq<u8> {
    seq![
        0x63u8, 0x6cu8, 0x6fu8, 0x61u8, 0x6bu8, 0x2du8, 0x70u8, 0x65u8, 0x72u8, 0x6du8, 0x75u8,
        0x74u8, 0x61u8, 0x74u8, 0x69u8, 0x6fu8, 0x6eu8,
    ]
}

/// Salt for the length mask: `cloak-len-mask!!`.
pub open spec fn length_mask_salt() -> Seq<u8> {
    seq![
        0x63u8, 0x6cu8, 0x6fu8, 0x61u8, 0x6bu8, 0x2du8, 0x6cu8, 0x65u8, 0x6eu8, 0x2du8, 0x6du8,
        0x61u8, 0x73u8, 0x6bu8, 0x21u8, 0x21u8,
    ]
}

/// The passphrase feeds Argon2id with a different salt for each purpose: the
/// permutation seed and the length mask never share one, and the permutation
/// salt's 17 bytes never equal a 16-byte encryption salt.
pub proof fn lemma_distinct_salts()
    ensures
        permutation_salt() != length_mask_salt(),
        permutation_salt().len() != 16,
        length_mask_salt().len() == 16,
{
    assert(permutation_salt().len() == 17);
}

/// The sequence `0, 1, ..., n - 1`.
pub open spec fn identity_order(n: nat) -> Seq<usize> {
    Seq::new(n, |i: int| i as usize)
}

/// What a Fisher-Yates shuffle driven by `ChaCha20Rng::from_seed(seed)` makes of a sequence.
pub uninterp spec fn seeded_shuffle(seed: Seq<u8>, items: Seq<usize>) -> Seq<usize>;

/// Seeds `rand_chacha::ChaCha20Rng::from_seed` and calls `SliceRandom::shuffle`.
/// Claims: the result is a function of seed and input, and (the shuffle only
/// swaps elements) holds the same elements with the same multiplicities.
#[verifier::external_body]
fn shuffle_seeded(items: &mut Vec<usize>, seed: [u8; 32])
    ensures
        final(items)@ == seeded_shuffle(seed@, old(items)@),
        final(items)@.to_multiset() == old(items)@.to_multiset(),
{
    let mut rng = ChaCha20Rng::from_seed(seed);
    items.shuffle(&mut rng);
}

/// The traversal derived from a passphrase for `n` pixels.
pub open spec fn spec_permutation(password: Seq<u8>, n: nat) -> Seq<usize> {
    seeded_shuffle(argon2id_key(password, permutation_salt()), identity_order(n))
}

/// `p` lists each of `0..n` exactly once.
pub open spec fn is_permutation(p: Seq<usize>, n: nat) -> bool {
    &&& p.len() == n
    &&& p.no_duplicates()
    &&& forall|i: int| 0 <= i < p.len() ==> #[trigger] p[i] < n
}

proof fn lemma_shuffled_identity_is_permutation(q: Seq<usize>, n: nat)
    requires
        n <= usize::MAX,
        q.to_multiset() == identity_order(n).to_multiset(),
    ensures
        is_permutation(q, n),
{
    let id = identity_order(n);
    broadcast use vstd::seq_lib::group_to_multiset_ensures;

    assert forall|a: int, b: int| 0 <= a < id.len() && 0 <= b < id.len() && a != b implies id[a]
        != id[b] by {
        assert(id[a] as int == a && id[b] as int == b);
    }
    assert(id.no_duplicates());
    id.lemma_multiset_has_no_duplicates();
    q.lemma_multiset_has_no_duplicates_conv();
    assert forall|i: int| 0 <= i < q.len() implies #[trigger] q[i] < n by {
        assert(q.contains(q[i]));
        assert(q.to_multiset().count(q[i]) > 0);
        assert(id.contains(q[i]));
    }
    assert(q.len() == q.to_multiset().len());
    assert(id.len() == id.to_multiset().len());
}

/// Generate a deterministic permutation of `[0..n)` from a passphrase.
///
/// Uses Argon2id with a distinct salt to derive a seed, then ChaCha20Rng
/// for a Fisher-Yates shuffle.
pub fn generate_permutation(passphrase: &str, n: usize) -> (r: Result<Vec<usize>, CloakError>)
    ensures
        r is Ok <==> passphrase.spec_bytes().len() <= 0xFFFF_FFFF,
        r matches Ok(p) ==> p@ == spec_permutation(passphrase.spec_bytes(), n as nat),
        r matches Ok(p) ==> is_permutation(p@, n as nat),
        r matches Err(e) ==> e is CorruptedData,
{
    let salt: [u8; 17] = [
        0x63, 0x6c, 0x6f, 0x61, 0x6b, 0x2d, 0x70, 0x65, 0x72, 0x6d, 0x75, 0x74, 0x61, 0x74, 0x69,
        0x6f, 0x6e,
    ];
    assert(salt@ =~= permutation_salt());
    let seed = match argon2_hash(passphrase.as_bytes(), &salt) {
        Ok(seed) => seed,
        Err(msg) => {
            return Err(
                CloakError::CorruptedData(
                    String::from_str("argon2 key derivation failed: ").concat(msg.as_str()),
                ),
            );
        },
    };
    let mut indices: Vec<usize> = Vec::with_capacity(n);
    let mut i: usize = 0;
    while i < n
        invariant
            i <= n,
            indices@ =~= identity_order(i as nat),
        decreases n - i,
    {
        indices.push(i);
        i = i + 1;
    }
    assert(indices@ =~= identity_order(n as nat));
    shuffle_seeded(&mut indices, seed);
    proof {
        lemma_shuffled_identity_is_permutation(indices@, n as nat);
    }
    Ok(indices)
}

/// The length mask derived from a passphrase: the first four bytes of its
/// Argon2id hash, or zeros where the hash is refused.
pub open spec fn spec_length_mask(password: Seq<u8>) -> Seq<u8> {
    if password.len() <= 0xFFFF_FFFF {
        argon2id_key(password, length_mask_salt()).subrange(0, 4)
    } else {
        seq![0u8, 0u8, 0u8, 0u8]
    }
}

/// Derive a 4-byte XOR mask for the length header from a passphrase.
///
/// Uses Argon2id with a distinct salt so the mask is deterministic for a given
/// passphrase but independent of the permutation seed.
pub fn derive_length_mask(passphrase: &str) -> (r: [u8; 4])
    ensures
        r@ == spec_length_mask(passphrase.spec_bytes()),
{
    let salt: [u8; 16] = [
        0x63, 0x6c, 0x6f, 0x61, 0x6b, 0x2d, 0x6c, 0x65, 0x6e, 0x2d, 0x6d, 0x61, 0x73, 0x6b, 0x21, 0x21,
    ];
    assert(salt@ =~= length_mask_salt());
    let buf: [u8; 32] = match argon2_hash(passphrase.as_bytes(), &salt) {
        Ok(key) => key,
        Err(_) => [0u8; 32],
    };
    let r = [buf[0], buf[1], buf[2], buf[3]];
    assert(r@ =~= spec_length_mask(passphrase.spec_bytes()));
    r
}

/// Whether each of the first `npix` slots of the traversal names a pixel.
pub fn order_covers_image(order: &PixelOrder, npix: usize) -> (r: bool)
    ensures
        r == order_covers(order@, npix as int),
{
    match order {
        PixelOrder::Sequential => true,
        PixelOrder::Randomized(perm) => {
            if perm.len() < npix {
                assert(!order_at_valid(order@, perm@.len() as int, npix as int));
                return false;
            }
            let mut j: usize = 0;
            while j < npix
                invariant
                    j <= npix,
                    perm@.len() >= npix,
                    order@ == Some(perm@),
                    forall|t: int| 0 <= t < j ==> #[trigger] order_at_valid(order@, t, npix as int),
                decreases npix - j,
            {
                if perm[j] >= npix {
                    assert(!order_at_valid(order@, j as int, npix as int));
                    return false;
                }
                j = j + 1;
            }
            true
        },
    }
}

} // verus!
