//! The mathematical model of LSB embedding: which bit of the payload stream
//! lands in which pixel channel, and what reading those channels gives back.

use vstd::prelude::*;

use super::lsb::is_permutation;

verus! {

/// The parameters of embedding as plain values: bit depth, traversal
/// (`None` for row-major order), and the mask of the length header.
pub struct LsbSettings {
    pub bit_depth: u8,
    pub order: Option<Seq<usize>>,
    pub mask: Seq<u8>,
}

/// The default settings: one bit per channel, row-major order, and a length
/// header without mask.
pub open spec fn default_settings() -> LsbSettings {
    LsbSettings { bit_depth: 1, order: None, mask: seq![0u8, 0u8, 0u8, 0u8] }
}

/// Effective bit depth: a depth of zero is treated as one.
pub open spec fn eff_depth(bd: u8) -> u8 {
    if bd == 0 {
        1
    } else {
        bd
    }
}

/// The mask `2^bd - 1` selecting the low `bd` bits of a channel.
pub open spec fn value_mask(bd: u8) -> u8 {
    ((1u8 << bd) - 1) as u8
}

/// The mask that clears the low `bd` bits of a channel.
pub open spec fn clear_mask(bd: u8) -> u8 {
    !value_mask(bd)
}

/// Bit `k` of a byte stream, most significant bit of each byte first.
pub open spec fn stream_bit(bytes: Seq<u8>, k: int) -> u8 {
    (bytes[k / 8] >> ((7 - k % 8) as u8)) & 1u8
}

/// Number of bits in a byte stream.
pub open spec fn stream_bits(bytes: Seq<u8>) -> int {
    (bytes.len() * 8) as int
}

/// The pixel visited in slot `j` of the traversal.
pub open spec fn order_at(order: Option<Seq<usize>>, j: int) -> int {
    match order {
        None => j,
        Some(p) => p[j] as int,
    }
}

/// Slot `j` of the traversal names a pixel of an image with `npix` pixels.
pub open spec fn order_at_valid(order: Option<Seq<usize>>, j: int, npix: int) -> bool {
    match order {
        None => 0 <= j < npix,
        Some(p) => 0 <= j < p.len() && p[j] < npix,
    }
}

/// First stream bit carried by channel `c` of slot `j`.
pub open spec fn channel_start(bd: u8, j: int, c: int) -> int {
    j * (3 * bd) + c * bd
}

/// Slot `j` carries at least one bit of a stream of `total_bits` bits.
pub open spec fn slot_active(bd: u8, j: int, total_bits: int) -> bool {
    channel_start(bd, j, 0) < total_bits
}

/// Every slot that carries stream bits names a pixel of the image.
pub open spec fn embed_order_ok(order: Option<Seq<usize>>, bd: u8, total_bits: int, npix: int) -> bool {
    forall|j: int| 0 <= j < npix && #[trigger] slot_active(bd, j, total_bits) ==> order_at_valid(order, j, npix)
}

/// No two slots that carry stream bits name the same pixel.
pub open spec fn order_injective(order: Option<Seq<usize>>, bd: u8, total_bits: int, npix: int) -> bool {
    forall|j1: int, j2: int|
        #![trigger slot_active(bd, j1, total_bits), slot_active(bd, j2, total_bits)]
        0 <= j1 < npix && 0 <= j2 < npix && j1 != j2 && slot_active(bd, j1, total_bits)
            && slot_active(bd, j2, total_bits) ==> order_at(order, j1) != order_at(order, j2)
}

/// Every bit position below `nbits` is read from a pixel of the image.
pub open spec fn reads_valid(order: Option<Seq<usize>>, bd: u8, npix: int, nbits: int) -> bool {
    forall|k: int| 0 <= k < nbits ==> order_at_valid(order, #[trigger] (k / (3 * bd)), npix)
}

/// The value written into the low `bd` bits of a channel whose first stream bit
/// is `start`, after its first `n` bits have been placed (most significant first).
pub open spec fn chan_bits(bytes: Seq<u8>, bd: u8, start: int, n: nat) -> u8
    decreases n,
{
    if n == 0 {
        0
    } else {
        let prev = chan_bits(bytes, bd, start, (n - 1) as nat);
        let idx = start + n - 1;
        if idx < stream_bits(bytes) {
            prev | (stream_bit(bytes, idx) << ((bd - n) as u8))
        } else {
            prev
        }
    }
}

/// Write channel `c` of slot `j` (pixel `p`) if it carries stream bits.
pub open spec fn write_channel(img: Seq<u8>, bytes: Seq<u8>, bd: u8, p: int, j: int, c: int) -> Seq<u8> {
    let start = channel_start(bd, j, c);
    if start < stream_bits(bytes) {
        img.update(4 * p + c, (img[4 * p + c] & clear_mask(bd)) | chan_bits(bytes, bd, start, bd as nat))
    } else {
        img
    }
}

/// Write the first `n` channels of slot `j` (pixel `p`).
pub open spec fn write_channels(img: Seq<u8>, bytes: Seq<u8>, bd: u8, p: int, j: int, n: nat) -> Seq<u8>
    decreases n,
{
    if n == 0 {
        img
    } else {
        write_channel(write_channels(img, bytes, bd, p, j, (n - 1) as nat), bytes, bd, p, j, n - 1)
    }
}

/// The image after the first `i` slots of the traversal have been written.
pub open spec fn embed_upto(img: Seq<u8>, bytes: Seq<u8>, bd: u8, order: Option<Seq<usize>>, i: nat) -> Seq<u8>
    decreases i,
{
    if i == 0 {
        img
    } else {
        let prev = embed_upto(img, bytes, bd, order, (i - 1) as nat);
        write_channels(prev, bytes, bd, order_at(order, i - 1), i - 1, 3)
    }
}

/// Bit `k` as read back from the low bits of the image.
pub open spec fn read_bit_at(img: Seq<u8>, bd: u8, order: Option<Seq<usize>>, k: int) -> u8 {
    let bpp = 3 * bd;
    let j = k / bpp;
    let within = k % bpp;
    let c = within / (bd as int);
    let b = within % (bd as int);
    ((img[4 * order_at(order, j) + c] & value_mask(bd)) >> ((bd - 1 - b) as u8)) & 1u8
}

/// The first `n` bits read back, accumulated into a `u32` most significant first.
pub open spec fn read_u32(img: Seq<u8>, bd: u8, order: Option<Seq<usize>>, n: nat) -> u32
    decreases n,
{
    if n == 0 {
        0
    } else {
        (read_u32(img, bd, order, (n - 1) as nat) << 1u32) | (read_bit_at(img, bd, order, n - 1) as u32)
    }
}

/// `n` bits read back from bit `start` on, accumulated into a byte most significant first.
pub open spec fn read_u8(img: Seq<u8>, bd: u8, order: Option<Seq<usize>>, start: int, n: nat) -> u8
    decreases n,
{
    if n == 0 {
        0
    } else {
        (read_u8(img, bd, order, start, (n - 1) as nat) << 1u8) | read_bit_at(img, bd, order, start + n - 1)
    }
}

/// Remove the passphrase mask from a header read back as a big-endian word.
pub open spec fn unmask_length(acc: u32, mask: Seq<u8>) -> u32 {
    let b0 = ((acc >> 24u32) as u8) ^ mask[0];
    let b1 = ((acc >> 16u32) as u8) ^ mask[1];
    let b2 = ((acc >> 8u32) as u8) ^ mask[2];
    let b3 = (acc as u8) ^ mask[3];
    ((b0 as u32) << 24u32) | ((b1 as u32) << 16u32) | ((b2 as u32) << 8u32) | (b3 as u32)
}

/// The 4-byte header: the payload length, big-endian, XORed with the mask.
pub open spec fn length_header(len: u32, mask: Seq<u8>) -> Seq<u8> {
    seq![
        ((len >> 24u32) as u8) ^ mask[0],
        ((len >> 16u32) as u8) ^ mask[1],
        ((len >> 8u32) as u8) ^ mask[2],
        (len as u8) ^ mask[3],
    ]
}

/// Length of a payload after padding to whole 64-byte blocks (empty stays empty).
pub open spec fn padded_len(n: int) -> int {
    if n == 0 {
        0
    } else {
        ((n + 63) / 64) * 64
    }
}

/// Padding fills the last block: the padded length is a whole number of
/// 64-byte blocks, at least the payload and less than a block more.
pub proof fn lemma_padded_len(n: int)
    requires
        n >= 0,
    ensures
        padded_len(n) % 64 == 0,
        n <= padded_len(n) < n + 64,
        n == 0 <==> padded_len(n) == 0,
{
    if n > 0 {
        let k = (n + 63) / 64;
        vstd::arithmetic::div_mod::lemma_fundamental_div_mod(n + 63, 64);
        vstd::arithmetic::div_mod::lemma_mod_multiples_basic(k, 64);
    }
}

/// The byte stream that is embedded: masked length header, payload, padding.
pub open spec fn lsb_stream(payload: Seq<u8>, mask: Seq<u8>, pad: Seq<u8>) -> Seq<u8> {
    length_header(payload.len() as u32, mask) + payload + pad
}

/// The pixels of an image after `payload` (padded with `pad`) has been embedded.
pub open spec fn lsb_embed(
    img: Seq<u8>,
    npix: nat,
    payload: Seq<u8>,
    pad: Seq<u8>,
    s: LsbSettings,
) -> Seq<u8> {
    embed_upto(
        img,
        lsb_stream(payload, s.mask, pad),
        eff_depth(s.bit_depth),
        s.order,
        npix,
    )
}

/// Total carrier bits of the image at the parameters' bit depth.
pub open spec fn carrier_bits(width: u32, height: u32, s: LsbSettings) -> int {
    width * height * (3 * eff_depth(s.bit_depth))
}

/// The payload length announced by the header of an image.
pub open spec fn header_length(img: Seq<u8>, s: LsbSettings) -> u32 {
    unmask_length(
        read_u32(img, eff_depth(s.bit_depth), s.order, 32),
        s.mask,
    )
}

/// What extraction gives back: `None` where the image cannot hold what the header announces.
pub open spec fn lsb_extract(img: Seq<u8>, width: u32, height: u32, s: LsbSettings) -> Option<Seq<u8>> {
    let bd = eff_depth(s.bit_depth);
    let total_bits = carrier_bits(width, height, s);
    if total_bits < 32 {
        None
    } else {
        let length = header_length(img, s);
        if 32 + length * 8 > total_bits {
            None
        } else {
            Some(Seq::new(length as nat, |i: int| read_u8(img, bd, s.order, 32 + 8 * i, 8)))
        }
    }
}

/// Every bit that extraction reads lies in a pixel of the image.
pub open spec fn extract_reads_ok(img: Seq<u8>, width: u32, height: u32, s: LsbSettings) -> bool {
    let bd = eff_depth(s.bit_depth);
    let npix = width * height;
    let total_bits = carrier_bits(width, height, s);
    total_bits >= 32 ==> {
        &&& reads_valid(s.order, bd, npix, 32)
        &&& (32 + header_length(img, s) * 8 <= total_bits ==> reads_valid(
            s.order,
            bd,
            npix,
            32 + header_length(img, s) * 8,
        ))
    }
}

// ---------------------------------------------------------------------------
// Bit-level facts
// ---------------------------------------------------------------------------

pub proof fn lemma_bit_of_shift_right(x: u8, s: u8)
    by (bit_vector)
    ensures
        (x >> s) & 1u8 <= 1,
{
}

proof fn lemma_or_shift_bit(v: u8, bit: u8, s: u8, t: u8)
    by (bit_vector)
    requires
        bit <= 1,
        s < 8,
        t < 8,
    ensures
        ((v | (bit << s)) >> t) & 1u8 == (if t == s {
            ((v >> t) & 1u8) | bit
        } else {
            (v >> t) & 1u8
        }),
{
}

proof fn lemma_or_shift_bound(v: u8, bit: u8, s: u8, bd: u8)
    by (bit_vector)
    requires
        bit <= 1,
        s < bd,
        1 <= bd <= 7,
        v < (1u8 << bd),
    ensures
        (v | (bit << s)) < (1u8 << bd),
{
}

proof fn lemma_zero_bits(t: u8)
    by (bit_vector)
    requires
        t < 8,
    ensures
        (0u8 >> t) & 1u8 == 0,
        0u8 < (1u8 << 1u8),
{
}

proof fn lemma_one_shift_pos(bd: u8)
    by (bit_vector)
    requires
        1 <= bd <= 7,
    ensures
        0u8 < (1u8 << bd),
        (1u8 << bd) >= 2,
{
}

/// Writing `cv` into the low bits and reading bit `u` of the low bits gives bit `u` of `cv`.
proof fn lemma_write_read_low_bits(old_v: u8, cv: u8, bd: u8, u: u8)
    by (bit_vector)
    requires
        1 <= bd <= 7,
        u < bd,
        cv < (1u8 << bd),
    ensures
        ((((old_v & !(((1u8 << bd) - 1) as u8)) | cv) & (((1u8 << bd) - 1) as u8)) >> u) & 1u8
            == (cv >> u) & 1u8,
{
}

/// What bit `u` of a partially assembled channel value is.
pub open spec fn chan_bit_expected(bytes: Seq<u8>, bd: u8, start: int, n: nat, u: int) -> u8 {
    if bd - n <= u < bd && start + (bd - 1 - u) < stream_bits(bytes) {
        stream_bit(bytes, start + (bd - 1 - u))
    } else {
        0
    }
}

pub proof fn lemma_chan_bits(bytes: Seq<u8>, bd: u8, start: int, n: nat, u: u8)
    requires
        1 <= bd <= 7,
        n <= bd,
        u < 8,
        start >= 0,
    ensures
        chan_bits(bytes, bd, start, n) < (1u8 << bd),
        (chan_bits(bytes, bd, start, n) >> u) & 1u8 == chan_bit_expected(bytes, bd, start, n, u as int),
    decreases n,
{
    if n == 0 {
        lemma_zero_bits(u);
        lemma_one_shift_pos(bd);
    } else {
        lemma_chan_bits(bytes, bd, start, (n - 1) as nat, u);
        let prev = chan_bits(bytes, bd, start, (n - 1) as nat);
        let idx = start + n - 1;
        let s = (bd - n) as u8;
        if idx < stream_bits(bytes) {
            let bit = stream_bit(bytes, idx);
            lemma_bit_of_shift_right(bytes[idx / 8], (7 - idx % 8) as u8);
            lemma_or_shift_bit(prev, bit, s, u);
            lemma_or_shift_bound(prev, bit, s, bd);
            if u == s {
                assert(bd - 1 - u == n - 1);
                assert(chan_bit_expected(bytes, bd, start, (n - 1) as nat, u as int) == 0);
                assert(0u8 | bit == bit) by (bit_vector);
            }
        } else {
            if u == s {
                assert(chan_bit_expected(bytes, bd, start, (n - 1) as nat, u as int) == 0);
            }
        }
    }
}

// ---------------------------------------------------------------------------
// Writes touch only the channels they are meant for
// ---------------------------------------------------------------------------

proof fn lemma_channel_start_mono(bd: u8, j: int, c: int)
    requires
        j >= 0,
        0 <= c,
    ensures
        channel_start(bd, j, 0) <= channel_start(bd, j, c),
        channel_start(bd, j, 0) == j * (3 * bd),
{
    assert(c * bd >= 0) by (nonlinear_arith)
        requires
            c >= 0,
            bd >= 0,
    ;
}

/// The value a written channel takes.
pub open spec fn written_value(old_v: u8, bytes: Seq<u8>, bd: u8, j: int, c: int) -> u8 {
    (old_v & clear_mask(bd)) | chan_bits(bytes, bd, channel_start(bd, j, c), bd as nat)
}

proof fn lemma_write_channels(img: Seq<u8>, bytes: Seq<u8>, bd: u8, p: int, j: int, n: nat, idx: int)
    requires
        n <= 3,
        j >= 0,
        slot_active(bd, j, stream_bits(bytes)) ==> (0 <= p && 4 * p + 4 <= img.len()),
    ensures
        write_channels(img, bytes, bd, p, j, n).len() == img.len(),
        0 <= idx < img.len() ==> write_channels(img, bytes, bd, p, j, n)[idx] == (if 4 * p <= idx < 4 * p
            + n && channel_start(bd, j, idx - 4 * p) < stream_bits(bytes) {
            written_value(img[idx], bytes, bd, j, idx - 4 * p)
        } else {
            img[idx]
        }),
    decreases n,
{
    if n > 0 {
        lemma_write_channels(img, bytes, bd, p, j, (n - 1) as nat, idx);
        let prev = write_channels(img, bytes, bd, p, j, (n - 1) as nat);
        lemma_channel_start_mono(bd, j, n - 1);
        if 0 <= idx < img.len() && idx == 4 * p + n - 1 {
            lemma_write_channels(img, bytes, bd, p, j, (n - 1) as nat, idx);
        }
    }
}

/// Writing a value below `2^bd` into the low bits keeps the high bits.
proof fn lemma_keep_high_bits(o: u8, cv: u8, bd: u8)
    by (bit_vector)
    requires
        1 <= bd <= 7,
        cv < (1u8 << bd),
    ensures
        ((o & !(((1u8 << bd) - 1) as u8)) | cv) & !(((1u8 << bd) - 1) as u8) == o & !(((1u8 << bd)
            - 1) as u8),
{
}

/// Embedding changes only the low `bd` bits of R, G and B: above them every
/// channel keeps its bits, and alpha is untouched.
pub proof fn lemma_embed_keeps_high_bits(
    img: Seq<u8>,
    bytes: Seq<u8>,
    bd: u8,
    order: Option<Seq<usize>>,
    i: nat,
    npix: int,
)
    requires
        1 <= bd <= 7,
        img.len() == 4 * npix,
        i <= npix,
        embed_order_ok(order, bd, stream_bits(bytes), npix),
    ensures
        embed_upto(img, bytes, bd, order, i).len() == img.len(),
        forall|idx: int|
            0 <= idx < img.len() ==> (#[trigger] embed_upto(img, bytes, bd, order, i)[idx] & clear_mask(bd))
                == img[idx] & clear_mask(bd) && (idx % 4 == 3 ==> embed_upto(img, bytes, bd, order, i)[idx]
                == img[idx]),
    decreases i,
{
    lemma_embed_upto_len(img, bytes, bd, order, i, npix);
    if i > 0 {
        lemma_embed_keeps_high_bits(img, bytes, bd, order, (i - 1) as nat, npix);
        lemma_embed_upto_len(img, bytes, bd, order, (i - 1) as nat, npix);
        let prev = embed_upto(img, bytes, bd, order, (i - 1) as nat);
        let p = order_at(order, i - 1);
        let j = i - 1;
        assert(slot_active(bd, j, stream_bits(bytes)) ==> order_at_valid(order, j, npix));
        assert forall|idx: int| 0 <= idx < img.len() implies (#[trigger] embed_upto(img, bytes, bd, order, i)[idx]
            & clear_mask(bd)) == img[idx] & clear_mask(bd) && (idx % 4 == 3 ==> embed_upto(
            img,
            bytes,
            bd,
            order,
            i,
        )[idx] == img[idx]) by {
            assert(prev[idx] & clear_mask(bd) == img[idx] & clear_mask(bd));
            lemma_write_channels(prev, bytes, bd, p, j, 3, idx);
            if 4 * p <= idx < 4 * p + 3 && channel_start(bd, j, idx - 4 * p) < stream_bits(bytes) {
                lemma_channel_start_mono(bd, j, idx - 4 * p);
                lemma_chan_bits(bytes, bd, channel_start(bd, j, idx - 4 * p), bd as nat, 0);
                lemma_keep_high_bits(
                    prev[idx],
                    chan_bits(bytes, bd, channel_start(bd, j, idx - 4 * p), bd as nat),
                    bd,
                );
                vstd::arithmetic::div_mod::lemma_fundamental_div_mod_converse(idx, 4, p, idx - 4 * p);
            }
        }
    }
}

/// The image keeps its length while slots that name valid pixels are written.
pub proof fn lemma_embed_upto_len(img: Seq<u8>, bytes: Seq<u8>, bd: u8, order: Option<Seq<usize>>, i: nat, npix: int)
    requires
        img.len() == 4 * npix,
        i <= npix,
        embed_order_ok(order, bd, stream_bits(bytes), npix),
    ensures
        embed_upto(img, bytes, bd, order, i).len() == img.len(),
    decreases i,
{
    if i > 0 {
        lemma_embed_upto_len(img, bytes, bd, order, (i - 1) as nat, npix);
        let prev = embed_upto(img, bytes, bd, order, (i - 1) as nat);
        let p = order_at(order, i - 1);
        if slot_active(bd, i - 1, stream_bits(bytes)) {
            assert(order_at_valid(order, i - 1, npix));
            assert(0 <= p < npix);
        }
        lemma_write_channels(prev, bytes, bd, p, i - 1, 3, 0);
    }
}

/// Slots written after slot `j0` leave the pixel of slot `j0` alone.
proof fn lemma_embed_upto_keeps(
    img: Seq<u8>,
    bytes: Seq<u8>,
    bd: u8,
    order: Option<Seq<usize>>,
    npix: int,
    j0: int,
    c: int,
    i: nat,
)
    requires
        img.len() == 4 * npix,
        0 <= j0 < i <= npix,
        0 <= c < 3,
        slot_active(bd, j0, stream_bits(bytes)),
        embed_order_ok(order, bd, stream_bits(bytes), npix),
        order_injective(order, bd, stream_bits(bytes), npix),
    ensures
        embed_upto(img, bytes, bd, order, i)[4 * order_at(order, j0) + c] == embed_upto(
            img,
            bytes,
            bd,
            order,
            (j0 + 1) as nat,
        )[4 * order_at(order, j0) + c],
    decreases i,
{
    if i > j0 + 1 {
        lemma_embed_upto_keeps(img, bytes, bd, order, npix, j0, c, (i - 1) as nat);
        let prev = embed_upto(img, bytes, bd, order, (i - 1) as nat);
        let p = order_at(order, i - 1);
        let p0 = order_at(order, j0);
        lemma_embed_upto_len(img, bytes, bd, order, (i - 1) as nat, npix);
        assert(order_at_valid(order, j0, npix));
        if slot_active(bd, i - 1, stream_bits(bytes)) {
            assert(order_at_valid(order, i - 1, npix));
            assert(p != p0);
        }
        lemma_write_channels(prev, bytes, bd, p, i - 1, 3, 4 * p0 + c);
    }
}

/// Reading back bit `k` of an embedded stream gives bit `k` of the stream.
pub proof fn lemma_read_after_write(
    img: Seq<u8>,
    bytes: Seq<u8>,
    bd: u8,
    order: Option<Seq<usize>>,
    npix: int,
    k: int,
)
    requires
        1 <= bd <= 7,
        img.len() == 4 * npix,
        0 <= k < stream_bits(bytes),
        k < npix * (3 * bd),
        embed_order_ok(order, bd, stream_bits(bytes), npix),
        order_injective(order, bd, stream_bits(bytes), npix),
    ensures
        read_bit_at(embed_upto(img, bytes, bd, order, npix as nat), bd, order, k) == stream_bit(bytes, k),
        order_at_valid(order, k / (3 * bd), npix),
{
    let bpp: int = 3 * bd;
    let j = k / bpp;
    let within = k % bpp;
    let c = within / (bd as int);
    let b = within % (bd as int);
    vstd::arithmetic::div_mod::lemma_fundamental_div_mod(k, bpp);
    vstd::arithmetic::div_mod::lemma_fundamental_div_mod(within, bd as int);
    assert(0 <= within < bpp);
    assert(0 <= j);
    assert(j < npix) by {
        if j >= npix {
            assert(j * bpp >= npix * bpp) by (nonlinear_arith)
                requires
                    j >= npix,
                    bpp >= 0,
            ;
        }
    }
    assert(0 <= c < 3) by {
        if c >= 3 {
            assert(c * bd >= 3 * bd) by (nonlinear_arith)
                requires
                    c >= 3,
                    bd >= 0,
            ;
        }
    }
    assert(0 <= b < bd);
    let start = channel_start(bd, j, c);
    assert(start + b == k);
    assert(j * bpp == j * (3 * bd));
    lemma_channel_start_mono(bd, j, c);
    assert(slot_active(bd, j, stream_bits(bytes)));
    assert(order_at_valid(order, j, npix));
    let p = order_at(order, j);
    let before = embed_upto(img, bytes, bd, order, j as nat);
    lemma_embed_upto_len(img, bytes, bd, order, j as nat, npix);
    lemma_write_channels(before, bytes, bd, p, j, 3, 4 * p + c);
    if j + 1 < npix {
        lemma_embed_upto_keeps(img, bytes, bd, order, npix, j, c, npix as nat);
    }
    let cv = chan_bits(bytes, bd, start, bd as nat);
    let u = (bd - 1 - b) as u8;
    lemma_chan_bits(bytes, bd, start, bd as nat, u);
    lemma_write_read_low_bits(before[4 * p + c], cv, bd, u);
    assert(start + (bd - 1 - u) == k);
}

// ---------------------------------------------------------------------------
// Reassembling the header and the payload bytes
// ---------------------------------------------------------------------------

/// Big-endian word of four bytes.
pub open spec fn be_word(b0: u8, b1: u8, b2: u8, b3: u8) -> u32 {
    ((b0 as u32) << 24u32) | ((b1 as u32) << 16u32) | ((b2 as u32) << 8u32) | (b3 as u32)
}

proof fn lemma_acc_step_u32(h: u32, n: u32, acc: u32, bit: u8)
    by (bit_vector)
    requires
        n < 32,
        acc == ((h as u64) >> ((32 - n) as u64)) as u32,
        bit as u32 == (h >> ((31 - n) as u32)) & 1u32,
    ensures
        ((acc << 1u32) | (bit as u32)) == ((h as u64) >> ((31 - n) as u64)) as u32,
{
}

proof fn lemma_acc_step_u8(x: u8, n: u8, acc: u8, bit: u8)
    by (bit_vector)
    requires
        n < 8,
        acc == ((x as u16) >> ((8 - n) as u16)) as u8,
        bit == (x >> ((7 - n) as u8)) & 1u8,
    ensures
        ((acc << 1u8) | bit) == ((x as u16) >> ((7 - n) as u16)) as u8,
{
}

proof fn lemma_acc_init(h: u32, x: u8)
    by (bit_vector)
    ensures
        ((h as u64) >> 32u64) as u32 == 0u32,
        ((x as u16) >> 8u16) as u8 == 0u8,
        ((x as u16) >> 0u16) as u8 == x,
        ((h as u64) >> 0u64) as u32 == h,
{
}

proof fn lemma_be_word_bits(b0: u8, b1: u8, b2: u8, b3: u8, r: u32)
    by (bit_vector)
    requires
        r < 8,
    ensures
        (be_word(b0, b1, b2, b3) >> ((31 - r) as u32)) & 1u32 == ((b0 >> ((7 - r) as u8)) & 1u8) as u32,
        (be_word(b0, b1, b2, b3) >> ((23 - r) as u32)) & 1u32 == ((b1 >> ((7 - r) as u8)) & 1u8) as u32,
        (be_word(b0, b1, b2, b3) >> ((15 - r) as u32)) & 1u32 == ((b2 >> ((7 - r) as u8)) & 1u8) as u32,
        (be_word(b0, b1, b2, b3) >> ((7 - r) as u32)) & 1u32 == ((b3 >> ((7 - r) as u8)) & 1u8) as u32,
{
}

proof fn lemma_unmask_header(len: u32, m0: u8, m1: u8, m2: u8, m3: u8)
    by (bit_vector)
    ensures
        ({
            let h = be_word(
                ((len >> 24u32) as u8) ^ m0,
                ((len >> 16u32) as u8) ^ m1,
                ((len >> 8u32) as u8) ^ m2,
                (len as u8) ^ m3,
            );
            let c0 = ((h >> 24u32) as u8) ^ m0;
            let c1 = ((h >> 16u32) as u8) ^ m1;
            let c2 = ((h >> 8u32) as u8) ^ m2;
            let c3 = (h as u8) ^ m3;
            ((c0 as u32) << 24u32) | ((c1 as u32) << 16u32) | ((c2 as u32) << 8u32) | (c3 as u32) == len
        }),
{
}

/// The header bits read back from an image assemble into the header word.
proof fn lemma_read_header(img: Seq<u8>, bytes: Seq<u8>, bd: u8, order: Option<Seq<usize>>, npix: int, n: nat)
    requires
        1 <= bd <= 7,
        img.len() == 4 * npix,
        bytes.len() >= 4,
        n <= 32,
        32 <= npix * (3 * bd),
        embed_order_ok(order, bd, stream_bits(bytes), npix),
        order_injective(order, bd, stream_bits(bytes), npix),
    ensures
        read_u32(embed_upto(img, bytes, bd, order, npix as nat), bd, order, n) == ((be_word(
            bytes[0],
            bytes[1],
            bytes[2],
            bytes[3],
        ) as u64) >> ((32 - n) as u64)) as u32,
        reads_valid(order, bd, npix, n as int),
    decreases n,
{
    let e = embed_upto(img, bytes, bd, order, npix as nat);
    let h = be_word(bytes[0], bytes[1], bytes[2], bytes[3]);
    lemma_acc_init(h, 0);
    if n > 0 {
        lemma_read_header(img, bytes, bd, order, npix, (n - 1) as nat);
        let k = n - 1;
        lemma_read_after_write(img, bytes, bd, order, npix, k);
        let r = (k % 8) as u32;
        lemma_be_word_bits(bytes[0], bytes[1], bytes[2], bytes[3], r);
        assert(k / 8 == 0 || k / 8 == 1 || k / 8 == 2 || k / 8 == 3);
        assert((h >> ((31 - k) as u32)) & 1u32 == stream_bit(bytes, k) as u32);
        lemma_acc_step_u32(h, k as u32, read_u32(e, bd, order, k as nat), read_bit_at(e, bd, order, k));
        assert forall|q: int| 0 <= q < n implies order_at_valid(order, #[trigger] (q / (3 * bd)), npix) by {
            if q < k {
                assert(reads_valid(order, bd, npix, k));
            }
        }
    }
}

/// The bits of byte `q` of the stream, read back, assemble into that byte.
proof fn lemma_read_byte(
    img: Seq<u8>,
    bytes: Seq<u8>,
    bd: u8,
    order: Option<Seq<usize>>,
    npix: int,
    q: int,
    n: nat,
)
    requires
        1 <= bd <= 7,
        img.len() == 4 * npix,
        0 <= q < bytes.len(),
        n <= 8,
        8 * q + 8 <= npix * (3 * bd),
        embed_order_ok(order, bd, stream_bits(bytes), npix),
        order_injective(order, bd, stream_bits(bytes), npix),
    ensures
        read_u8(embed_upto(img, bytes, bd, order, npix as nat), bd, order, 8 * q, n) == ((bytes[q] as u16)
            >> ((8 - n) as u16)) as u8,
        forall|t: int| 0 <= t < n ==> order_at_valid(order, #[trigger] ((8 * q + t) / (3 * bd)), npix),
    decreases n,
{
    let e = embed_upto(img, bytes, bd, order, npix as nat);
    lemma_acc_init(0, bytes[q]);
    if n > 0 {
        lemma_read_byte(img, bytes, bd, order, npix, q, (n - 1) as nat);
        let t = n - 1;
        let k = 8 * q + t;
        lemma_read_after_write(img, bytes, bd, order, npix, k);
        assert(k / 8 == q && k % 8 == t);
        lemma_acc_step_u8(bytes[q], t as u8, read_u8(e, bd, order, 8 * q, t as nat), read_bit_at(e, bd, order, k));
    }
}

/// Extraction gives back exactly the payload that embedding wrote, and reads
/// only pixels of the image.
pub proof fn lemma_lsb_roundtrip(
    img: Seq<u8>,
    width: u32,
    height: u32,
    payload: Seq<u8>,
    pad: Seq<u8>,
    s: LsbSettings,
)
    requires
        img.len() == 4 * (width * height),
        1 <= eff_depth(s.bit_depth) <= 7,
        32 + 8 * payload.len() <= carrier_bits(width, height, s),
        payload.len() <= u32::MAX,
        embed_order_ok(
            s.order,
            eff_depth(s.bit_depth),
            stream_bits(lsb_stream(payload, s.mask, pad)),
            width * height,
        ),
        order_injective(
            s.order,
            eff_depth(s.bit_depth),
            stream_bits(lsb_stream(payload, s.mask, pad)),
            width * height,
        ),
    ensures
        lsb_extract(lsb_embed(img, (width * height) as nat, payload, pad, s), width, height, s)
            == Some(payload),
        extract_reads_ok(lsb_embed(img, (width * height) as nat, payload, pad, s), width, height, s),
{
    let bd = eff_depth(s.bit_depth);
    let npix: int = width * height;
    let order = s.order;
    let mask = s.mask;
    let bytes = lsb_stream(payload, mask, pad);
    let e = lsb_embed(img, npix as nat, payload, pad, s);
    let total = carrier_bits(width, height, s);
    let len = payload.len();
    assert(total == npix * (3 * bd));
    assert(width * height * 3 * bd == npix * (3 * bd)) by (nonlinear_arith)
        requires
            npix == width * height,
    ;
    assert(32 + 8 * len <= total);
    let hdr = length_header(len as u32, mask);
    assert(bytes[0] == hdr[0] && bytes[1] == hdr[1] && bytes[2] == hdr[2] && bytes[3] == hdr[3]);
    lemma_read_header(img, bytes, bd, order, npix, 32);
    lemma_acc_init(be_word(bytes[0], bytes[1], bytes[2], bytes[3]), 0);
    lemma_unmask_header(len as u32, mask[0], mask[1], mask[2], mask[3]);
    assert(header_length(e, s) == len as u32);
    assert(header_length(e, s) == len);
    let extracted = Seq::new(len as nat, |i: int| read_u8(e, bd, order, 32 + 8 * i, 8));
    assert forall|i: int| 0 <= i < len implies extracted[i] == payload[i] by {
        lemma_read_byte(img, bytes, bd, order, npix, 4 + i, 8);
        lemma_acc_init(0, bytes[4 + i]);
        assert(32 + 8 * i == 8 * (4 + i));
        assert(bytes[4 + i] == payload[i]);
        assert(extracted[i] == read_u8(e, bd, order, 8 * (4 + i), 8));
    }
    assert(extracted =~= payload);
    assert forall|k: int| 0 <= k < 32 + len * 8 implies order_at_valid(order, #[trigger] (k / (3 * bd)), npix) by {
        if k < 32 {
            assert(reads_valid(order, bd, npix, 32));
        } else {
            let q = k / 8;
            let t = k % 8;
            lemma_read_byte(img, bytes, bd, order, npix, q, 8);
            assert(8 * q + t == k);
        }
    }
}

// ---------------------------------------------------------------------------
// Channels and slots past the end of the stream are left alone
// ---------------------------------------------------------------------------

pub proof fn lemma_write_channels_inactive(
    img: Seq<u8>,
    bytes: Seq<u8>,
    bd: u8,
    p: int,
    j: int,
    m: nat,
    n: nat,
)
    requires
        m <= n <= 3,
        j >= 0,
        channel_start(bd, j, m as int) >= stream_bits(bytes),
    ensures
        write_channels(img, bytes, bd, p, j, n) == write_channels(img, bytes, bd, p, j, m),
    decreases n,
{
    if n > m {
        lemma_write_channels_inactive(img, bytes, bd, p, j, m, (n - 1) as nat);
        assert(channel_start(bd, j, n - 1) >= channel_start(bd, j, m as int)) by (nonlinear_arith)
            requires
                n - 1 >= m,
                bd >= 0,
        ;
    }
}

pub proof fn lemma_embed_upto_inactive(img: Seq<u8>, bytes: Seq<u8>, bd: u8, order: Option<Seq<usize>>, i: nat, n: nat)
    requires
        i <= n,
        i * (3 * bd) >= stream_bits(bytes),
    ensures
        embed_upto(img, bytes, bd, order, n) == embed_upto(img, bytes, bd, order, i),
    decreases n,
{
    if n > i {
        lemma_embed_upto_inactive(img, bytes, bd, order, i, (n - 1) as nat);
        let prev = embed_upto(img, bytes, bd, order, (n - 1) as nat);
        assert((n - 1) * (3 * bd) >= i * (3 * bd)) by (nonlinear_arith)
            requires
                n - 1 >= i,
                bd >= 0,
        ;
        assert(channel_start(bd, n - 1, 0) == (n - 1) * (3 * bd));
        lemma_write_channels_inactive(prev, bytes, bd, order_at(order, n - 1), n - 1, 0, 3);
    }
}

// ---------------------------------------------------------------------------
// Orders that visit every pixel exactly once
// ---------------------------------------------------------------------------

/// The traversal visits each of the `npix` pixels exactly once.
pub open spec fn order_fits(order: Option<Seq<usize>>, npix: nat) -> bool {
    match order {
        None => true,
        Some(p) => is_permutation(p, npix),
    }
}

/// A traversal that visits each pixel once names valid pixels for every
/// stream and never names one pixel twice.
pub proof fn lemma_fitting_order(order: Option<Seq<usize>>, bd: u8, total_bits: int, npix: nat, nbits: int)
    requires
        1 <= bd,
        order_fits(order, npix),
        nbits <= npix * (3 * bd),
    ensures
        embed_order_ok(order, bd, total_bits, npix as int),
        order_injective(order, bd, total_bits, npix as int),
        reads_valid(order, bd, npix as int, nbits),
{
    assert forall|k: int| 0 <= k < nbits implies order_at_valid(order, #[trigger] (k / (3 * bd)), npix as int) by {
        let bpp: int = 3 * bd;
        vstd::arithmetic::div_mod::lemma_fundamental_div_mod(k, bpp);
        let j = k / bpp;
        assert(j < npix) by {
            if j >= npix {
                assert(j * bpp >= npix * bpp) by (nonlinear_arith)
                    requires
                        j >= npix,
                        bpp >= 0,
                ;
            }
        }
    }
    match order {
        None => {},
        Some(p) => {
            assert forall|j1: int, j2: int|
                #![trigger slot_active(bd, j1, total_bits), slot_active(bd, j2, total_bits)]
                0 <= j1 < npix && 0 <= j2 < npix && j1 != j2 && slot_active(bd, j1, total_bits)
                    && slot_active(bd, j2, total_bits) implies order_at(order, j1) != order_at(
                order,
                j2,
            ) by {
                assert(p.no_duplicates());
            }
        },
    }
}

/// Each of the first `npix` slots names a pixel of the image.
pub open spec fn order_covers(order: Option<Seq<usize>>, npix: int) -> bool {
    forall|j: int| 0 <= j < npix ==> #[trigger] order_at_valid(order, j, npix)
}

/// A traversal that covers the image names valid pixels for every stream
/// and for every read extraction makes.
pub proof fn lemma_covering_order(
    order: Option<Seq<usize>>,
    bd: u8,
    total_bits: int,
    npix: int,
    nbits: int,
)
    requires
        1 <= bd,
        npix >= 0,
        order_covers(order, npix),
        nbits <= npix * (3 * bd),
    ensures
        embed_order_ok(order, bd, total_bits, npix),
        reads_valid(order, bd, npix, nbits),
{
    assert forall|k: int| 0 <= k < nbits implies order_at_valid(order, #[trigger] (k / (3 * bd)), npix) by {
        let bpp: int = 3 * bd;
        vstd::arithmetic::div_mod::lemma_fundamental_div_mod(k, bpp);
        let j = k / bpp;
        assert(j < npix) by {
            if j >= npix {
                assert(j * bpp >= npix * bpp) by (nonlinear_arith)
                    requires
                        j >= npix,
                        bpp >= 0,
                ;
            }
        }
        assert(order_at_valid(order, j, npix));
    }
}

/// A covering traversal lets extraction read every bit it needs.
pub proof fn lemma_covering_order_extract(img: Seq<u8>, width: u32, height: u32, s: LsbSettings)
    requires
        1 <= eff_depth(s.bit_depth),
        order_covers(s.order, width * height),
    ensures
        extract_reads_ok(img, width, height, s),
{
    let bd = eff_depth(s.bit_depth);
    let npix = width * height;
    let total = carrier_bits(width, height, s);
    if total >= 32 {
        lemma_covering_order(s.order, bd, 0, npix, 32);
        let need = 32 + header_length(img, s) * 8;
        if need <= total {
            lemma_covering_order(s.order, bd, 0, npix, need);
        }
    }
}

/// A traversal that visits each pixel once covers the image.
pub proof fn lemma_fitting_order_covers(order: Option<Seq<usize>>, npix: nat)
    requires
        order_fits(order, npix),
    ensures
        order_covers(order, npix as int),
{
}

} // verus!
