//! Steganalysis: the counting behind the statistical tests. Bit planes,
//! value histograms, the group tallies of RS analysis, the pair tallies of
//! sample-pairs analysis, and the tallies of GIF palette analysis. Turning
//! the counts into rates, entropies and p-values is floating point and is
//! done by the caller.

use vstd::prelude::*;

use crate::error::CloakError;
use crate::raster::{decode_rgba, decoded_rgba, Raster};

verus! {

/// Bit-plane data for a single channel.
#[derive(Debug, Clone)]
pub struct BitPlane {
    pub width: u32,
    pub height: u32,
    /// One byte per pixel: 0 or 1.
    pub data: Vec<u8>,
}

/// Decode an image to RGBA pixels.
pub fn load_pixels(image_data: &[u8]) -> (r: Result<Raster, CloakError>)
    ensures
        r is Ok <==> decoded_rgba(image_data@) is Some,
        r matches Ok(img) ==> img.wf() && decoded_rgba(image_data@) == Some(
            (img.width, img.height, img.pixels@),
        ),
        r matches Err(e) ==> e is Image,
{
    match decode_rgba(image_data) {
        Ok(img) => Ok(img),
        Err(msg) => Err(CloakError::Image(msg)),
    }
}

/// Bit `bit` of channel `channel` of pixel `i`.
pub open spec fn plane_bit(px: Seq<u8>, channel: int, bit: u8, i: int) -> u8 {
    (px[4 * i + channel] >> bit) & 1u8
}

/// Extract a single bit plane from an image.
///
/// `channel`: 0=R, 1=G, 2=B
/// `bit`: 0 (LSB) to 7 (MSB)
pub fn extract_bit_plane(image_data: &[u8], channel: usize, bit: u8) -> (r: Result<BitPlane, CloakError>)
    ensures
        channel > 2 ==> (r matches Err(e) && e is CorruptedData),
        channel <= 2 && bit > 7 ==> (r matches Err(e) && e is CorruptedData),
        channel <= 2 && bit <= 7 ==> match decoded_rgba(image_data@) {
            None => r matches Err(e) && e is Image,
            Some((w, h, px)) => r matches Ok(plane) && plane.width == w && plane.height == h
                && plane.data@.len() == w * h && forall|i: int|
                0 <= i < w * h ==> #[trigger] plane.data@[i] == plane_bit(px, channel as int, bit, i),
        },
{
    if channel > 2 {
        return Err(CloakError::CorruptedData(String::from_str("channel must be 0 (R), 1 (G), or 2 (B)")));
    }
    if bit > 7 {
        return Err(CloakError::CorruptedData(String::from_str("bit must be 0-7")));
    }
    let img = load_pixels(image_data)?;
    let plen: usize = img.pixels.len();
    let npix: usize = plen / 4;
    assert(npix == img.width * img.height);
    let mut data: Vec<u8> = Vec::with_capacity(npix);
    let mut i: usize = 0;
    while i < npix
        invariant
            i <= npix,
            img.wf(),
            npix == img.width * img.height,
            plen == img.pixels@.len(),
            channel <= 2,
            bit <= 7,
            data@.len() == i,
            forall|j: int| 0 <= j < i ==> #[trigger] data@[j] == plane_bit(img.pixels@, channel as int, bit, j),
        decreases npix - i,
    {
        let val: u8 = (img.pixels[i * 4 + channel] >> bit) & 1;
        data.push(val);
        i = i + 1;
    }
    Ok(BitPlane { width: img.width, height: img.height, data })
}

/// A bit plane holds only zeros and ones.
pub proof fn lemma_plane_bits_binary(px: Seq<u8>, channel: int, bit: u8, i: int)
    ensures
        plane_bit(px, channel, bit, i) <= 1,
{
    let x = px[4 * i + channel];
    assert((x >> bit) & 1u8 <= 1u8) by (bit_vector);
}

/// The R, G and B values of pixel `i`.
pub open spec fn rgb_of(px: Seq<u8>, i: int) -> Seq<u8> {
    seq![px[4 * i], px[4 * i + 1], px[4 * i + 2]]
}

/// The R, G and B values of every pixel, in row-major order.
pub fn rgb_pixels(img: &Raster) -> (r: Vec<[u8; 3]>)
    requires
        img.wf(),
    ensures
        r@.len() == img.width * img.height,
        forall|i: int| 0 <= i < r@.len() ==> #[trigger] r@[i]@ == rgb_of(img.pixels@, i),
{
    let plen: usize = img.pixels.len();
    let npix: usize = plen / 4;
    let mut out: Vec<[u8; 3]> = Vec::with_capacity(npix);
    let mut i: usize = 0;
    while i < npix
        invariant
            i <= npix,
            img.wf(),
            npix == img.width * img.height,
            plen == img.pixels@.len(),
            out@.len() == i,
            forall|j: int| 0 <= j < i ==> #[trigger] out@[j]@ == rgb_of(img.pixels@, j),
        decreases npix - i,
    {
        let base = i * 4;
        let p: [u8; 3] = [img.pixels[base], img.pixels[base + 1], img.pixels[base + 2]];
        assert(p@ =~= rgb_of(img.pixels@, i as int));
        out.push(p);
        i = i + 1;
    }
    out
}

// ---------------------------------------------------------------------------
// Value histograms
// ---------------------------------------------------------------------------

/// Channel value `k` of the pixels, R, G and B of each pixel in turn.
pub open spec fn channel_value_at(pixels: Seq<[u8; 3]>, k: int) -> u8 {
    pixels[k / 3]@[k % 3]
}

/// How many of the first `k` channel values equal `v`.
pub open spec fn value_count(pixels: Seq<[u8; 3]>, k: nat, v: int) -> nat
    decreases k,
{
    if k == 0 {
        0
    } else {
        value_count(pixels, (k - 1) as nat, v) + if channel_value_at(pixels, k - 1) == v {
            1nat
        } else {
            0nat
        }
    }
}

/// The sum of the first `n` entries.
pub open spec fn seq_sum(s: Seq<u64>, n: nat) -> int
    decreases n,
{
    if n == 0 {
        0
    } else {
        seq_sum(s, (n - 1) as nat) + s[n - 1]
    }
}

/// Histogram of pixel values over 256 bins, summed across R, G and B.
pub fn pixel_histogram(pixels: &[[u8; 3]]) -> (r: Vec<u64>)
    requires
        pixels@.len() * 3 <= usize::MAX,
    ensures
        r@.len() == 256,
        forall|v: int| 0 <= v < 256 ==> #[trigger] r@[v] == value_count(pixels@, (3 * pixels@.len()) as nat, v),
{
    let mut histogram: Vec<u64> = Vec::with_capacity(256);
    let mut v: usize = 0;
    while v < 256
        invariant
            v <= 256,
            histogram@.len() == v,
            forall|u: int| 0 <= u < v ==> #[trigger] histogram@[u] == 0,
        decreases 256 - v,
    {
        histogram.push(0);
        v = v + 1;
    }
    let n: usize = pixels.len() * 3;
    let mut k: usize = 0;
    while k < n
        invariant
            k <= n,
            n == 3 * pixels@.len(),
            histogram@.len() == 256,
            forall|u: int| 0 <= u < 256 ==> #[trigger] histogram@[u] == value_count(pixels@, k as nat, u),
        decreases n - k,
    {
        proof {
            lemma_count_bounded(pixels@, k as nat);
        }
        let val: u8 = pixels[k / 3][k % 3];
        assert(val == channel_value_at(pixels@, k as int));
        let idx: usize = val as usize;
        let old_count = histogram[idx];
        assert(old_count <= k);
        histogram.set(idx, old_count + 1);
        k = k + 1;
    }
    histogram
}

/// Each channel value lands in exactly one bin: the bins of the first `k`
/// values sum to `k`.
pub proof fn lemma_value_counts_sum(pixels: Seq<[u8; 3]>, k: nat)
    requires
        k <= u64::MAX,
    ensures
        seq_sum(Seq::new(256, |v: int| value_count(pixels, k, v) as u64), 256) == k,
    decreases k,
{
    if k > 0 {
        lemma_value_counts_sum(pixels, (k - 1) as nat);
        let prev = Seq::new(256, |v: int| value_count(pixels, (k - 1) as nat, v) as u64);
        let cur = Seq::new(256, |v: int| value_count(pixels, k, v) as u64);
        let x = channel_value_at(pixels, k - 1) as int;
        lemma_count_bounded(pixels, k);
        lemma_count_bounded(pixels, (k - 1) as nat);
        assert forall|v: int| 0 <= v < 256 && v != x implies #[trigger] cur[v] == prev[v] by {
            assert(value_count(pixels, k, v) == value_count(pixels, (k - 1) as nat, v));
        }
        assert(value_count(pixels, k, x) == value_count(pixels, (k - 1) as nat, x) + 1);
        assert(value_count(pixels, k, x) <= k);
        lemma_sum_bump(prev, cur, x, 256);
    } else {
        lemma_sum_zero(Seq::new(256, |v: int| value_count(pixels, k, v) as u64), 256);
    }
}

proof fn lemma_sum_zero(s: Seq<u64>, n: nat)
    requires
        n <= s.len(),
        forall|i: int| 0 <= i < n ==> #[trigger] s[i] == 0,
    ensures
        seq_sum(s, n) == 0,
    decreases n,
{
    if n > 0 {
        lemma_sum_zero(s, (n - 1) as nat);
    }
}

proof fn lemma_count_bounded(pixels: Seq<[u8; 3]>, k: nat)
    ensures
        forall|v: int| #[trigger] value_count(pixels, k, v) <= k,
    decreases k,
{
    if k > 0 {
        lemma_count_bounded(pixels, (k - 1) as nat);
        assert forall|v: int| #[trigger] value_count(pixels, k, v) <= k by {
            assert(value_count(pixels, (k - 1) as nat, v) <= k - 1);
        }
    }
}

/// Two sequences that agree except that `cur` is one more at `x` (when `x < n`):
/// their sums over the first `n` entries differ by one exactly when `x < n`.
proof fn lemma_sum_bump(prev: Seq<u64>, cur: Seq<u64>, x: int, n: nat)
    requires
        n <= prev.len(),
        prev.len() == cur.len(),
        0 <= x < prev.len(),
        forall|v: int| 0 <= v < prev.len() && v != x ==> #[trigger] cur[v] == prev[v],
        cur[x] == prev[x] + 1,
    ensures
        seq_sum(cur, n) == seq_sum(prev, n) + if x < n { 1int } else { 0int },
    decreases n,
{
    if n > 0 {
        lemma_sum_bump(prev, cur, x, (n - 1) as nat);
    }
}

/// The histogram counts every R, G and B value once: its bins sum to three
/// times the number of pixels.
pub proof fn lemma_histogram_total(pixels: Seq<[u8; 3]>, hist: Seq<u64>)
    requires
        3 * pixels.len() <= u64::MAX,
        hist.len() == 256,
        forall|v: int| 0 <= v < 256 ==> #[trigger] hist[v] == value_count(pixels, (3 * pixels.len()) as nat, v),
    ensures
        seq_sum(hist, 256) == 3 * pixels.len(),
{
    let k = (3 * pixels.len()) as nat;
    lemma_value_counts_sum(pixels, k);
    lemma_count_bounded(pixels, k);
    assert(hist =~= Seq::new(256, |v: int| value_count(pixels, k, v) as u64));
}

// ---------------------------------------------------------------------------
// Flipping functions of RS analysis
// ---------------------------------------------------------------------------

/// Positive LSB flip: toggles the least significant bit (2k <-> 2k+1).
pub fn flip_lsb(val: u8) -> (r: u8)
    ensures
        r == val ^ 1u8,
        r as int == if val % 2 == 0 { val + 1 } else { val - 1 },
{
    assert(val ^ 1u8 == if val % 2 == 0 { (val + 1) as u8 } else { (val - 1) as u8 }) by (bit_vector);
    val ^ 1
}

/// The negative flip of a value: odd values step up, even ones step down
/// (2k-1 <-> 2k), with 0 going to 1 and 255 to 254 at the ends.
pub open spec fn spec_flip_neg(val: u8) -> int {
    if val == 255 {
        254
    } else if val == 0 {
        1
    } else if val % 2 == 0 {
        val - 1
    } else {
        val + 1
    }
}

/// Negative LSB flip: swap 2k-1 <-> 2k, the inverse direction of `flip_lsb`.
/// For RS analysis: the -1 operation is `((val + 1) ^ 1) - 1`.
pub fn flip_lsb_neg(val: u8) -> (r: u8)
    ensures
        r == spec_flip_neg(val),
{
    if val == 255 {
        254
    } else if val == 0 {
        1
    } else {
        // -1 flipping: shift by 1 then flip
        let shifted: i16 = val as i16 + 1;
        let flipped: i16 = shifted ^ 1;
        assert(flipped == if shifted % 2 == 0 { shifted + 1 } else { shifted - 1 }) by (bit_vector)
            requires
                flipped == shifted ^ 1,
                2 <= shifted <= 255,
        ;
        let r: i16 = if flipped >= i16::MIN + 1 {
            flipped - 1
        } else {
            i16::MIN
        };
        r as u8
    }
}

/// Flipping the least significant bit twice gives the value back.
pub proof fn lemma_flip_lsb_involution(val: u8)
    ensures
        (val ^ 1u8) ^ 1u8 == val,
{
    assert((val ^ 1u8) ^ 1u8 == val) by (bit_vector);
}

/// The negative flip undoes itself on 1..=254; at the ends 0 and 255 it does not
/// (0 goes to 1, and 1 to 2).
pub proof fn lemma_flip_neg_involution(val: u8)
    requires
        1 <= val <= 254,
    ensures
        spec_flip_neg(spec_flip_neg(val) as u8) == val,
{
}

/// The negative flip moves a value by exactly one, and away from the ends it
/// is the positive flip taken one step lower: `((val + 1) ^ 1) - 1`.
pub proof fn lemma_flip_neg_shifted(val: u8)
    ensures
        spec_flip_neg(val) == val + 1 || spec_flip_neg(val) == val - 1,
        0 <= spec_flip_neg(val) <= 255,
        1 <= val <= 254 ==> spec_flip_neg(val) == (((val as u16 + 1) as u16) ^ 1u16) - 1,
{
    let s: u16 = (val as u16 + 1) as u16;
    assert(1 <= val <= 254 ==> (s ^ 1u16) == if s % 2 == 0 { s + 1 } else { s - 1 }) by (bit_vector)
        requires
            s == (val as u16 + 1) as u16,
    ;
}

/// Apply an RS flipping mask to a pixel group: 1 flips positively, -1
/// negatively, anything else leaves the value.
pub open spec fn spec_mask_value(val: u8, m: i8) -> u8 {
    if m == 1 {
        val ^ 1u8
    } else if m == -1 {
        spec_flip_neg(val) as u8
    } else {
        val
    }
}

/// Apply RS flipping mask to a pixel group.
/// mask values: 0 = no change, 1 = flip LSB (positive), -1 = flip LSB (negative/inverse)
pub fn apply_mask(group: &[u8], mask: &[i8]) -> (r: Vec<u8>)
    ensures
        r@.len() == if group@.len() < mask@.len() { group@.len() } else { mask@.len() },
        forall|i: int| 0 <= i < r@.len() ==> #[trigger] r@[i] == spec_mask_value(group@[i], mask@[i]),
{
    let n: usize = if group.len() < mask.len() {
        group.len()
    } else {
        mask.len()
    };
    let mut out: Vec<u8> = Vec::with_capacity(n);
    let mut i: usize = 0;
    while i < n
        invariant
            i <= n,
            n <= group@.len(),
            n <= mask@.len(),
            out@.len() == i,
            forall|j: int| 0 <= j < i ==> #[trigger] out@[j] == spec_mask_value(group@[j], mask@[j]),
        decreases n - i,
    {
        let val = group[i];
        let m = mask[i];
        let v = if m == 1 {
            flip_lsb(val)
        } else if m == -1 {
            flip_lsb_neg(val)
        } else {
            val
        };
        out.push(v);
        i = i + 1;
    }
    out
}

/// Smoothness of the first `n` values: the sum of absolute differences of neighbours.
pub open spec fn spec_smoothness(g: Seq<u8>, n: nat) -> int
    decreases n,
{
    if n <= 1 {
        0
    } else {
        let d = g[n - 1] - g[n - 2];
        spec_smoothness(g, (n - 1) as nat) + if d < 0 { -d } else { d }
    }
}

/// The smoothness of two values is the distance between them.
pub proof fn lemma_smoothness_pair(a: u8, b: u8)
    ensures
        spec_smoothness(seq![a, b], 2) == if a <= b { b - a } else { a - b },
{
    reveal_with_fuel(spec_smoothness, 2);
}

/// Appending a value adds its distance to the last one: the smoothness of a
/// sequence is the sum of the smoothness of its neighbouring pairs.
pub proof fn lemma_smoothness_push(g: Seq<u8>, x: u8)
    requires
        g.len() >= 1,
    ensures
        spec_smoothness(g.push(x), g.len() + 1) == spec_smoothness(g, g.len()) + spec_smoothness(
            seq![g.last(), x],
            2,
        ),
{
    lemma_smoothness_prefix(g, x, g.len());
    lemma_smoothness_pair(g.last(), x);
}

proof fn lemma_smoothness_prefix(g: Seq<u8>, x: u8, n: nat)
    requires
        n <= g.len(),
    ensures
        spec_smoothness(g.push(x), n) == spec_smoothness(g, n),
    decreases n,
{
    if n > 1 {
        lemma_smoothness_prefix(g, x, (n - 1) as nat);
    }
}

/// Smoothness of a group: sum of absolute differences between adjacent values.
pub fn smoothness(group: &[u8]) -> (r: u64)
    requires
        group@.len() <= 0x1_0000_0000,
    ensures
        r == spec_smoothness(group@, group@.len()),
{
    let mut s: u64 = 0;
    let mut i: usize = 1;
    if group.len() == 0 {
        return 0;
    }
    while i < group.len()
        invariant
            1 <= i <= group@.len(),
            group@.len() <= 0x1_0000_0000,
            s == spec_smoothness(group@, i as nat),
            s <= 255 * i,
        decreases group@.len() - i,
    {
        let a = group[i - 1];
        let b = group[i];
        let d: u64 = if b >= a {
            (b - a) as u64
        } else {
            (a - b) as u64
        };
        s = s + d;
        i = i + 1;
    }
    s
}

// ---------------------------------------------------------------------------
// RS (regular-singular) group tallies
// ---------------------------------------------------------------------------

/// Regular and singular group counts of RS analysis under the masks `m` and `-m`.
#[derive(Debug, Clone, Copy)]
pub struct RsCounts {
    /// Groups that the mask m makes less smooth.
    pub r_m: u64,
    /// Groups that the mask m makes smoother.
    pub s_m: u64,
    /// Groups that the mask -m makes less smooth.
    pub r_neg_m: u64,
    /// Groups that the mask -m makes smoother.
    pub s_neg_m: u64,
    /// Number of groups examined.
    pub total_groups: u64,
}

/// The mask m = [0, 1, 1, 0].
pub open spec fn mask_m() -> Seq<i8> {
    seq![0i8, 1i8, 1i8, 0i8]
}

/// The mask -m = [0, -1, -1, 0].
pub open spec fn mask_neg_m() -> Seq<i8> {
    seq![0i8, -1i8, -1i8, 0i8]
}

/// A group with a mask applied.
pub open spec fn masked(g: Seq<u8>, m: Seq<i8>) -> Seq<u8> {
    Seq::new(g.len(), |i: int| spec_mask_value(g[i], m[i]))
}

/// 1 where the mask makes the group less smooth (regular), -1 where it makes
/// it smoother (singular), 0 otherwise.
pub open spec fn rs_class(g: Seq<u8>, m: Seq<i8>) -> int {
    let before = spec_smoothness(g, g.len());
    let after = spec_smoothness(masked(g, m), g.len());
    if after > before {
        1
    } else if after < before {
        -1
    } else {
        0
    }
}

/// The mask m flips the two middle values of a group of four positively and
/// leaves the ends; the mask -m flips them negatively.
pub proof fn lemma_masks_flip_middle(g: Seq<u8>)
    requires
        g.len() == 4,
    ensures
        masked(g, mask_m()) == seq![g[0], g[1] ^ 1u8, g[2] ^ 1u8, g[3]],
        masked(g, mask_neg_m()) == seq![g[0], spec_flip_neg(g[1]) as u8, spec_flip_neg(g[2]) as u8, g[3]],
{
    assert(masked(g, mask_m()) =~= seq![g[0], g[1] ^ 1u8, g[2] ^ 1u8, g[3]]);
    assert(masked(g, mask_neg_m()) =~= seq![g[0], spec_flip_neg(g[1]) as u8, spec_flip_neg(g[2]) as u8, g[3]]);
}

/// A flat group is regular under both masks: flipping its middle values can
/// only make it less smooth.
pub proof fn lemma_flat_group_regular(v: u8)
    ensures
        rs_class(seq![v, v, v, v], mask_m()) == 1,
        rs_class(seq![v, v, v, v], mask_neg_m()) == 1,
{
    let g = seq![v, v, v, v];
    lemma_masks_flip_middle(g);
    assert(v ^ 1u8 != v) by (bit_vector);
    lemma_flip_neg_shifted(v);
    reveal_with_fuel(spec_smoothness, 4);
    assert(spec_smoothness(g, 4) == 0);
    assert(masked(g, mask_m()).len() == 4);
    assert(spec_smoothness(masked(g, mask_m()), 4) > 0);
    assert(spec_smoothness(masked(g, mask_neg_m()), 4) > 0);
}

/// Number of groups: for each of R, G and B, each row, each run of four
/// whole pixels along the row.
pub open spec fn rs_group_count(npix: int, width: int) -> int {
    3 * ((npix / width) * (width / 4))
}

/// Group `q`, in the order channel, row, position along the row.
pub open spec fn rs_group(pixels: Seq<[u8; 3]>, width: int, q: int) -> Seq<u8> {
    let per_row = width / 4;
    let per_channel = ((pixels.len() as int) / width) * per_row;
    let c = q / per_channel;
    let rem = q % per_channel;
    let y = rem / per_row;
    let gi = rem % per_row;
    Seq::new(4, |t: int| pixels[y * width + 4 * gi + t]@[c])
}

/// The four tallies (R_m, S_m, R_-m, S_-m) over the first `n` groups.
pub open spec fn rs_tally(pixels: Seq<[u8; 3]>, width: int, n: nat) -> (nat, nat, nat, nat)
    decreases n,
{
    if n == 0 {
        (0, 0, 0, 0)
    } else {
        let p = rs_tally(pixels, width, (n - 1) as nat);
        let g = rs_group(pixels, width, n - 1);
        let cm = rs_class(g, mask_m());
        let cn = rs_class(g, mask_neg_m());
        (
            p.0 + if cm == 1 { 1nat } else { 0nat },
            p.1 + if cm == -1 { 1nat } else { 0nat },
            p.2 + if cn == 1 { 1nat } else { 0nat },
            p.3 + if cn == -1 { 1nat } else { 0nat },
        )
    }
}

/// The RS tallies over the first `n` groups: R_m counts the groups that the
/// mask m makes less smooth, S_m those it makes smoother, and R_-m, S_-m the
/// same for the mask -m.
pub proof fn lemma_rs_tally_counts_classes(pixels: Seq<[u8; 3]>, width: int, n: nat)
    ensures
        rs_tally(pixels, width, n).0 == Seq::new(n, |q: int| q).filter(
            |q: int|
                spec_smoothness(masked(rs_group(pixels, width, q), mask_m()), 4) > spec_smoothness(
                    rs_group(pixels, width, q),
                    4,
                ),
        ).len(),
        rs_tally(pixels, width, n).1 == Seq::new(n, |q: int| q).filter(
            |q: int|
                spec_smoothness(masked(rs_group(pixels, width, q), mask_m()), 4) < spec_smoothness(
                    rs_group(pixels, width, q),
                    4,
                ),
        ).len(),
        rs_tally(pixels, width, n).2 == Seq::new(n, |q: int| q).filter(
            |q: int|
                spec_smoothness(masked(rs_group(pixels, width, q), mask_neg_m()), 4) > spec_smoothness(
                    rs_group(pixels, width, q),
                    4,
                ),
        ).len(),
        rs_tally(pixels, width, n).3 == Seq::new(n, |q: int| q).filter(
            |q: int|
                spec_smoothness(masked(rs_group(pixels, width, q), mask_neg_m()), 4) < spec_smoothness(
                    rs_group(pixels, width, q),
                    4,
                ),
        ).len(),
    decreases n,
{
    let f0 = |q: int|
        spec_smoothness(masked(rs_group(pixels, width, q), mask_m()), 4) > spec_smoothness(
            rs_group(pixels, width, q),
            4,
        );
    let f1 = |q: int|
        spec_smoothness(masked(rs_group(pixels, width, q), mask_m()), 4) < spec_smoothness(
            rs_group(pixels, width, q),
            4,
        );
    let f2 = |q: int|
        spec_smoothness(masked(rs_group(pixels, width, q), mask_neg_m()), 4) > spec_smoothness(
            rs_group(pixels, width, q),
            4,
        );
    let f3 = |q: int|
        spec_smoothness(masked(rs_group(pixels, width, q), mask_neg_m()), 4) < spec_smoothness(
            rs_group(pixels, width, q),
            4,
        );
    if n == 0 {
        assert(Seq::new(0, |q: int| q) =~= Seq::<int>::empty());
        reveal(Seq::filter);
    } else {
        let m = (n - 1) as nat;
        lemma_rs_tally_counts_classes(pixels, width, m);
        assert(Seq::new(n, |q: int| q) =~= Seq::new(m, |q: int| q).push(m as int));
        Seq::new(m, |q: int| q).lemma_filter_len_push(f0, m as int);
        Seq::new(m, |q: int| q).lemma_filter_len_push(f1, m as int);
        Seq::new(m, |q: int| q).lemma_filter_len_push(f2, m as int);
        Seq::new(m, |q: int| q).lemma_filter_len_push(f3, m as int);
        let g = rs_group(pixels, width, m as int);
        assert(g.len() == 4);
        assert(masked(g, mask_m()).len() == 4);
        assert(masked(g, mask_neg_m()).len() == 4);
    }
}

proof fn lemma_rs_tally_bounded(pixels: Seq<[u8; 3]>, width: int, n: nat)
    ensures
        rs_tally(pixels, width, n).0 <= n,
        rs_tally(pixels, width, n).1 <= n,
        rs_tally(pixels, width, n).2 <= n,
        rs_tally(pixels, width, n).3 <= n,
    decreases n,
{
    if n > 0 {
        lemma_rs_tally_bounded(pixels, width, (n - 1) as nat);
    }
}

/// The position of group `q` in the pixel rows lies inside the image.
proof fn lemma_rs_group_in_bounds(npix: int, width: int, q: int)
    requires
        width > 0,
        npix >= 0,
        0 <= q < rs_group_count(npix, width),
    ensures
        ({
            let per_row = width / 4;
            let per_channel = (npix / width) * per_row;
            let c = q / per_channel;
            let rem = q % per_channel;
            let y = rem / per_row;
            let gi = rem % per_row;
            &&& per_row > 0 && per_channel > 0
            &&& 0 <= c < 3
            &&& 0 <= y * width + 4 * gi
            &&& y * width + 4 * gi + 3 < npix
        }),
{
    let per_row = width / 4;
    let h = npix / width;
    let per_channel = h * per_row;
    assert(per_channel > 0) by (nonlinear_arith)
        requires
            0 <= q < 3 * per_channel,
    ;
    assert(per_row > 0 && h > 0) by (nonlinear_arith)
        requires
            per_channel == h * per_row,
            per_channel > 0,
            h >= 0,
            per_row >= 0,
    ;
    let c = q / per_channel;
    let rem = q % per_channel;
    vstd::arithmetic::div_mod::lemma_fundamental_div_mod(q, per_channel);
    assert(0 <= c < 3) by (nonlinear_arith)
        requires
            q == per_channel * c + rem,
            0 <= rem < per_channel,
            0 <= q < 3 * per_channel,
    ;
    let y = rem / per_row;
    let gi = rem % per_row;
    vstd::arithmetic::div_mod::lemma_fundamental_div_mod(rem, per_row);
    assert(0 <= y < h) by (nonlinear_arith)
        requires
            rem == per_row * y + gi,
            0 <= gi < per_row,
            0 <= rem < h * per_row,
    ;
    vstd::arithmetic::div_mod::lemma_fundamental_div_mod(width, 4);
    vstd::arithmetic::div_mod::lemma_fundamental_div_mod(npix, width);
    assert(y * width + 4 * gi + 3 < npix) by (nonlinear_arith)
        requires
            0 <= y < h,
            0 <= gi < per_row,
            width == 4 * per_row + width % 4,
            0 <= width % 4,
            npix == width * h + npix % width,
            0 <= npix % width,
    ;
    assert(0 <= y * width + 4 * gi) by (nonlinear_arith)
        requires
            0 <= y,
            0 <= gi,
            width > 0,
    ;
}

/// The RS groups are disjoint runs of four pixels along a row: in channel `c`,
/// the `g`-th group of row `y` holds, at position `t`, the value of pixel
/// `y * width + 4 * g + t`, and it is one of the groups counted.
pub proof fn lemma_rs_group_pixels(pixels: Seq<[u8; 3]>, width: int, c: int, y: int, g: int, t: int)
    requires
        width > 0,
        0 <= c < 3,
        0 <= y < (pixels.len() as int) / width,
        0 <= g < width / 4,
        0 <= t < 4,
    ensures
        0 <= c * (((pixels.len() as int) / width) * (width / 4)) + y * (width / 4) + g < rs_group_count(
            pixels.len() as int,
            width,
        ),
        0 <= y * width + 4 * g + t < pixels.len(),
        rs_group(pixels, width, c * (((pixels.len() as int) / width) * (width / 4)) + y * (width / 4) + g)[t]
            == pixels[y * width + 4 * g + t]@[c],
{
    let h = (pixels.len() as int) / width;
    let pr = width / 4;
    let pc = h * pr;
    let rem = y * pr + g;
    let q = c * pc + rem;
    assert(0 <= rem < pc) by (nonlinear_arith)
        requires
            rem == y * pr + g,
            pc == h * pr,
            0 <= y < h,
            0 <= g < pr,
    ;
    assert(0 <= q < 3 * pc) by (nonlinear_arith)
        requires
            q == c * pc + rem,
            0 <= c < 3,
            0 <= rem < pc,
    ;
    assert(h * width <= pixels.len()) by (nonlinear_arith)
        requires
            h == (pixels.len() as int) / width,
            width > 0,
    ;
    assert(0 <= y * width + 4 * g + t < pixels.len()) by (nonlinear_arith)
        requires
            0 <= y < h,
            0 <= g < pr,
            pr == width / 4,
            0 <= t < 4,
            h * width <= pixels.len(),
            width > 0,
    ;
    vstd::arithmetic::div_mod::lemma_fundamental_div_mod_converse(q, pc, c, rem);
    vstd::arithmetic::div_mod::lemma_fundamental_div_mod_converse(rem, pr, y, g);
}

/// Every pixel of the first `4 * (width / 4)` columns takes part, in each
/// channel, in the group of its row that covers its column: pixel `(y, x)` is
/// element `x % 4` of group `x / 4` of row `y`.
pub proof fn lemma_rs_groups_cover_pixels(pixels: Seq<[u8; 3]>, width: int, c: int, y: int, x: int)
    requires
        width > 0,
        0 <= c < 3,
        0 <= y < (pixels.len() as int) / width,
        0 <= x < 4 * (width / 4),
    ensures
        rs_group(pixels, width, c * (((pixels.len() as int) / width) * (width / 4)) + y * (width / 4) + x / 4)[x
            % 4] == pixels[y * width + x]@[c],
{
    lemma_rs_group_pixels(pixels, width, c, y, x / 4, x % 4);
    assert(4 * (x / 4) + x % 4 == x);
}

/// RS group tallies over the pixels, rows of `width` pixels.
pub fn rs_group_counts(pixels: &[[u8; 3]], width: u32) -> (r: RsCounts)
    requires
        width > 0,
    ensures
        r.total_groups == rs_group_count(pixels@.len() as int, width as int),
        (r.r_m as nat, r.s_m as nat, r.r_neg_m as nat, r.s_neg_m as nat) == rs_tally(
            pixels@,
            width as int,
            r.total_groups as nat,
        ),
{
    let w: usize = width as usize;
    let plen: usize = pixels.len();
    let height: usize = plen / w;
    let per_row: usize = w / 4;
    assert(height * per_row * 4 <= pixels@.len()) by (nonlinear_arith)
        requires
            height == (pixels@.len() as int) / (w as int),
            per_row == (w as int) / 4,
            w > 0,
    ;
    let per_channel: usize = height * per_row;
    let total: usize = 3 * per_channel;
    let m: [i8; 4] = [0, 1, 1, 0];
    let neg_m: [i8; 4] = [0, -1, -1, 0];
    assert(m@ =~= mask_m());
    assert(neg_m@ =~= mask_neg_m());
    let mut counts = RsCounts { r_m: 0, s_m: 0, r_neg_m: 0, s_neg_m: 0, total_groups: 0 };
    let mut q: usize = 0;
    while q < total
        invariant
            q <= total,
            total == rs_group_count(pixels@.len() as int, width as int),
            w == width,
            per_row == w / 4,
            per_channel == ((pixels@.len() as int) / (w as int)) * per_row,
            total == 3 * per_channel,
            m@ == mask_m(),
            neg_m@ == mask_neg_m(),
            counts.total_groups == q,
            plen == pixels@.len(),
            (counts.r_m as nat, counts.s_m as nat, counts.r_neg_m as nat, counts.s_neg_m as nat) == rs_tally(
                pixels@,
                width as int,
                q as nat,
            ),
        decreases total - q,
    {
        proof {
            lemma_rs_group_in_bounds(pixels@.len() as int, width as int, q as int);
            lemma_rs_tally_bounded(pixels@, width as int, q as nat);
        }
        let c: usize = q / per_channel;
        let rem: usize = q % per_channel;
        let y: usize = rem / per_row;
        let gi: usize = rem % per_row;
        assert(c == q as int / per_channel as int && rem == q as int % per_channel as int);
        assert(y * w + 4 * gi + 3 < pixels@.len() && 0 <= c < 3);
        assert(0 <= y * w) by (nonlinear_arith);
        let start: usize = y * w + 4 * gi;
        let group: Vec<u8> = vec![
            pixels[start][c],
            pixels[start + 1][c],
            pixels[start + 2][c],
            pixels[start + 3][c],
        ];
        let ghost g = rs_group(pixels@, width as int, q as int);
        assert(group@ =~= g);
        let group_smoothness = smoothness(group.as_slice());

        // Apply mask m = [0, 1, 1, 0]
        let flipped_m = apply_mask(group.as_slice(), m.as_slice());
        assert(flipped_m@ =~= masked(g, mask_m()));
        let smooth_m = smoothness(flipped_m.as_slice());
        if smooth_m > group_smoothness {
            counts.r_m = counts.r_m + 1;
        } else if smooth_m < group_smoothness {
            counts.s_m = counts.s_m + 1;
        }

        // Apply mask -m = [0, -1, -1, 0]
        let flipped_neg_m = apply_mask(group.as_slice(), neg_m.as_slice());
        assert(flipped_neg_m@ =~= masked(g, mask_neg_m()));
        let smooth_neg_m = smoothness(flipped_neg_m.as_slice());
        if smooth_neg_m > group_smoothness {
            counts.r_neg_m = counts.r_neg_m + 1;
        } else if smooth_neg_m < group_smoothness {
            counts.s_neg_m = counts.s_neg_m + 1;
        }

        counts.total_groups = counts.total_groups + 1;
        q = q + 1;
    }
    counts
}

// ---------------------------------------------------------------------------
// Sample-pairs tallies
// ---------------------------------------------------------------------------

/// Tallies of sample-pairs analysis over horizontally adjacent pixel values.
#[derive(Debug, Clone, Copy)]
pub struct PairCounts {
    /// Total pixel pairs analyzed.
    pub total_pairs: u64,
    /// Pairs with close values (differ by <= 1).
    pub close_pairs: u64,
    /// Pairs whose first and second values are both even.
    pub even_even: u64,
    /// Pairs whose first value is even and second odd.
    pub even_odd: u64,
    /// Pairs whose first value is odd and second even.
    pub odd_even: u64,
    /// Pairs whose first and second values are both odd.
    pub odd_odd: u64,
}

/// Number of consecutive pairs along one channel.
pub open spec fn pairs_per_channel(npix: int) -> int {
    if npix == 0 { 0 } else { npix - 1 }
}

/// Pair `q`, in the order channel, position: the values of pixels `i` and `i + 1`.
pub open spec fn sample_pair(pixels: Seq<[u8; 3]>, q: int) -> (u8, u8) {
    let per = pairs_per_channel(pixels.len() as int);
    let c = q / per;
    let i = q % per;
    (pixels[i]@[c], pixels[i + 1]@[c])
}

/// The tallies (close, even-even, even-odd, odd-even, odd-odd) over the first `n` pairs.
pub open spec fn pair_tally(pixels: Seq<[u8; 3]>, n: nat) -> (nat, nat, nat, nat, nat)
    decreases n,
{
    if n == 0 {
        (0, 0, 0, 0, 0)
    } else {
        let p = pair_tally(pixels, (n - 1) as nat);
        let (v1, v2) = sample_pair(pixels, n - 1);
        let d = v1 - v2;
        let e1 = v1 % 2 == 0;
        let e2 = v2 % 2 == 0;
        (
            p.0 + if -1 <= d <= 1 { 1nat } else { 0nat },
            p.1 + if e1 && e2 { 1nat } else { 0nat },
            p.2 + if e1 && !e2 { 1nat } else { 0nat },
            p.3 + if !e1 && e2 { 1nat } else { 0nat },
            p.4 + if !e1 && !e2 { 1nat } else { 0nat },
        )
    }
}

/// Every pair falls into exactly one of the four parity classes, and the
/// close pairs are among them.
pub proof fn lemma_pair_tally_bounded(pixels: Seq<[u8; 3]>, n: nat)
    ensures
        pair_tally(pixels, n).0 <= n,
        pair_tally(pixels, n).1 + pair_tally(pixels, n).2 + pair_tally(pixels, n).3 + pair_tally(pixels, n).4
            == n,
    decreases n,
{
    if n > 0 {
        lemma_pair_tally_bounded(pixels, (n - 1) as nat);
    }
}

/// The close pairs are, channel by channel, the neighbouring pixels whose
/// values in that channel differ by at most one: for R, G and B, the
/// positions `i` with `|pixels[i][c] - pixels[i + 1][c]| <= 1`.
pub proof fn lemma_close_pairs_per_channel(pixels: Seq<[u8; 3]>)
    ensures
        pair_tally(pixels, (3 * pairs_per_channel(pixels.len() as int)) as nat).0 == Seq::new(pairs_per_channel(pixels.len() as int) as nat, |i: int| i).filter(
            |i: int| pixels[i]@[0] <= pixels[i + 1]@[0] + 1 && pixels[i + 1]@[0] <= pixels[i]@[0] + 1,
        ).len()
            + Seq::new(pairs_per_channel(pixels.len() as int) as nat, |i: int| i).filter(
            |i: int| pixels[i]@[1] <= pixels[i + 1]@[1] + 1 && pixels[i + 1]@[1] <= pixels[i]@[1] + 1,
        ).len()
            + Seq::new(pairs_per_channel(pixels.len() as int) as nat, |i: int| i).filter(
            |i: int| pixels[i]@[2] <= pixels[i + 1]@[2] + 1 && pixels[i + 1]@[2] <= pixels[i]@[2] + 1,
        ).len(),
{
    lemma_tally_by_channel(pixels, 0);
    assert(class_at(pixels, 0, 0) =~= (|i: int| pixels[i]@[0] <= pixels[i + 1]@[0] + 1 && pixels[i + 1]@[0] <= pixels[i]@[0] + 1));
    assert(class_at(pixels, 1, 0) =~= (|i: int| pixels[i]@[1] <= pixels[i + 1]@[1] + 1 && pixels[i + 1]@[1] <= pixels[i]@[1] + 1));
    assert(class_at(pixels, 2, 0) =~= (|i: int| pixels[i]@[2] <= pixels[i + 1]@[2] + 1 && pixels[i + 1]@[2] <= pixels[i]@[2] + 1));
}

/// The even-even pairs are, channel by channel, the neighbouring pixels whose
/// values in that channel are both even.
pub proof fn lemma_even_even_pairs_per_channel(pixels: Seq<[u8; 3]>)
    ensures
        pair_tally(pixels, (3 * pairs_per_channel(pixels.len() as int)) as nat).1 == Seq::new(pairs_per_channel(pixels.len() as int) as nat, |i: int| i).filter(
            |i: int| pixels[i]@[0] % 2 == 0 && pixels[i + 1]@[0] % 2 == 0,
        ).len()
            + Seq::new(pairs_per_channel(pixels.len() as int) as nat, |i: int| i).filter(
            |i: int| pixels[i]@[1] % 2 == 0 && pixels[i + 1]@[1] % 2 == 0,
        ).len()
            + Seq::new(pairs_per_channel(pixels.len() as int) as nat, |i: int| i).filter(
            |i: int| pixels[i]@[2] % 2 == 0 && pixels[i + 1]@[2] % 2 == 0,
        ).len(),
{
    lemma_tally_by_channel(pixels, 1);
    assert(class_at(pixels, 0, 1) =~= (|i: int| pixels[i]@[0] % 2 == 0 && pixels[i + 1]@[0] % 2 == 0));
    assert(class_at(pixels, 1, 1) =~= (|i: int| pixels[i]@[1] % 2 == 0 && pixels[i + 1]@[1] % 2 == 0));
    assert(class_at(pixels, 2, 1) =~= (|i: int| pixels[i]@[2] % 2 == 0 && pixels[i + 1]@[2] % 2 == 0));
}

/// The even-odd pairs are, channel by channel, the neighbouring pixels whose
/// first value is even and second value odd.
pub proof fn lemma_even_odd_pairs_per_channel(pixels: Seq<[u8; 3]>)
    ensures
        pair_tally(pixels, (3 * pairs_per_channel(pixels.len() as int)) as nat).2 == Seq::new(pairs_per_channel(pixels.len() as int) as nat, |i: int| i).filter(
            |i: int| pixels[i]@[0] % 2 == 0 && pixels[i + 1]@[0] % 2 == 1,
        ).len()
            + Seq::new(pairs_per_channel(pixels.len() as int) as nat, |i: int| i).filter(
            |i: int| pixels[i]@[1] % 2 == 0 && pixels[i + 1]@[1] % 2 == 1,
        ).len()
            + Seq::new(pairs_per_channel(pixels.len() as int) as nat, |i: int| i).filter(
            |i: int| pixels[i]@[2] % 2 == 0 && pixels[i + 1]@[2] % 2 == 1,
        ).len(),
{
    lemma_tally_by_channel(pixels, 2);
    assert(class_at(pixels, 0, 2) =~= (|i: int| pixels[i]@[0] % 2 == 0 && pixels[i + 1]@[0] % 2 == 1));
    assert(class_at(pixels, 1, 2) =~= (|i: int| pixels[i]@[1] % 2 == 0 && pixels[i + 1]@[1] % 2 == 1));
    assert(class_at(pixels, 2, 2) =~= (|i: int| pixels[i]@[2] % 2 == 0 && pixels[i + 1]@[2] % 2 == 1));
}

/// The odd-even pairs are, channel by channel, the neighbouring pixels whose
/// first value is odd and second value even.
pub proof fn lemma_odd_even_pairs_per_channel(pixels: Seq<[u8; 3]>)
    ensures
        pair_tally(pixels, (3 * pairs_per_channel(pixels.len() as int)) as nat).3 == Seq::new(pairs_per_channel(pixels.len() as int) as nat, |i: int| i).filter(
            |i: int| pixels[i]@[0] % 2 == 1 && pixels[i + 1]@[0] % 2 == 0,
        ).len()
            + Seq::new(pairs_per_channel(pixels.len() as int) as nat, |i: int| i).filter(
            |i: int| pixels[i]@[1] % 2 == 1 && pixels[i + 1]@[1] % 2 == 0,
        ).len()
            + Seq::new(pairs_per_channel(pixels.len() as int) as nat, |i: int| i).filter(
            |i: int| pixels[i]@[2] % 2 == 1 && pixels[i + 1]@[2] % 2 == 0,
        ).len(),
{
    lemma_tally_by_channel(pixels, 3);
    assert(class_at(pixels, 0, 3) =~= (|i: int| pixels[i]@[0] % 2 == 1 && pixels[i + 1]@[0] % 2 == 0));
    assert(class_at(pixels, 1, 3) =~= (|i: int| pixels[i]@[1] % 2 == 1 && pixels[i + 1]@[1] % 2 == 0));
    assert(class_at(pixels, 2, 3) =~= (|i: int| pixels[i]@[2] % 2 == 1 && pixels[i + 1]@[2] % 2 == 0));
}

/// The odd-odd pairs are, channel by channel, the neighbouring pixels whose
/// values in that channel are both odd.
pub proof fn lemma_odd_odd_pairs_per_channel(pixels: Seq<[u8; 3]>)
    ensures
        pair_tally(pixels, (3 * pairs_per_channel(pixels.len() as int)) as nat).4 == Seq::new(pairs_per_channel(pixels.len() as int) as nat, |i: int| i).filter(
            |i: int| pixels[i]@[0] % 2 == 1 && pixels[i + 1]@[0] % 2 == 1,
        ).len()
            + Seq::new(pairs_per_channel(pixels.len() as int) as nat, |i: int| i).filter(
            |i: int| pixels[i]@[1] % 2 == 1 && pixels[i + 1]@[1] % 2 == 1,
        ).len()
            + Seq::new(pairs_per_channel(pixels.len() as int) as nat, |i: int| i).filter(
            |i: int| pixels[i]@[2] % 2 == 1 && pixels[i + 1]@[2] % 2 == 1,
        ).len(),
{
    lemma_tally_by_channel(pixels, 4);
    assert(class_at(pixels, 0, 4) =~= (|i: int| pixels[i]@[0] % 2 == 1 && pixels[i + 1]@[0] % 2 == 1));
    assert(class_at(pixels, 1, 4) =~= (|i: int| pixels[i]@[1] % 2 == 1 && pixels[i + 1]@[1] % 2 == 1));
    assert(class_at(pixels, 2, 4) =~= (|i: int| pixels[i]@[2] % 2 == 1 && pixels[i + 1]@[2] % 2 == 1));
}

/// Component `j` of a tuple of tallies.
spec fn tally_component(t: (nat, nat, nat, nat, nat), j: int) -> nat {
    if j == 0 {
        t.0
    } else if j == 1 {
        t.1
    } else if j == 2 {
        t.2
    } else if j == 3 {
        t.3
    } else {
        t.4
    }
}

/// Whether the pair `(a, b)` falls in class `j`: close, then the four parity classes.
spec fn pair_in_class(a: u8, b: u8, j: int) -> bool {
    if j == 0 {
        a <= b + 1 && b <= a + 1
    } else if j == 1 {
        a % 2 == 0 && b % 2 == 0
    } else if j == 2 {
        a % 2 == 0 && b % 2 == 1
    } else if j == 3 {
        a % 2 == 1 && b % 2 == 0
    } else {
        a % 2 == 1 && b % 2 == 1
    }
}

spec fn class_at(pixels: Seq<[u8; 3]>, c: int, j: int) -> spec_fn(int) -> bool {
    |i: int| pair_in_class(pixels[i]@[c], pixels[i + 1]@[c], j)
}

proof fn lemma_tally_by_channel(pixels: Seq<[u8; 3]>, j: int)
    requires
        0 <= j < 5,
    ensures
        tally_component(pair_tally(pixels, (3 * pairs_per_channel(pixels.len() as int)) as nat), j) == Seq::new(
            pairs_per_channel(pixels.len() as int) as nat,
            |i: int| i,
        ).filter(class_at(pixels, 0, j)).len() + Seq::new(pairs_per_channel(pixels.len() as int) as nat, |i: int| i).filter(
            class_at(pixels, 1, j),
        ).len() + Seq::new(pairs_per_channel(pixels.len() as int) as nat, |i: int| i).filter(class_at(pixels, 2, j)).len(),
{
    let per = pairs_per_channel(pixels.len() as int);
    if per == 0 {
        assert(Seq::new(0, |i: int| i) =~= Seq::<int>::empty());
        reveal(Seq::filter);
    } else {
        lemma_class_prefix(pixels, 0, j, per as nat);
        lemma_class_prefix(pixels, 1, j, per as nat);
        lemma_class_prefix(pixels, 2, j, per as nat);
        assert(0 * per == 0 && 1 * per == per && 2 * per == per + per && 3 * per == per + per + per);
    }
}

proof fn lemma_class_prefix(pixels: Seq<[u8; 3]>, c: int, j: int, k: nat)
    requires
        0 <= c < 3,
        0 <= j < 5,
        pairs_per_channel(pixels.len() as int) > 0,
        k <= pairs_per_channel(pixels.len() as int),
    ensures
        tally_component(pair_tally(pixels, (c * pairs_per_channel(pixels.len() as int) + k) as nat), j)
            == tally_component(pair_tally(pixels, (c * pairs_per_channel(pixels.len() as int)) as nat), j)
            + Seq::new(k, |i: int| i).filter(class_at(pixels, c, j)).len(),
    decreases k,
{
    let per = pairs_per_channel(pixels.len() as int);
    assert(c * per >= 0) by (nonlinear_arith)
        requires
            c >= 0,
            per > 0,
    ;
    if k == 0 {
        assert(Seq::new(0, |i: int| i) =~= Seq::<int>::empty());
        reveal(Seq::filter);
    } else {
        let m = (k - 1) as nat;
        lemma_class_prefix(pixels, c, j, m);
        let q = c * per + m;
        vstd::arithmetic::div_mod::lemma_fundamental_div_mod_converse(q, per, c, m as int);
        assert(sample_pair(pixels, q) == (pixels[m as int]@[c], pixels[m as int + 1]@[c]));
        assert(Seq::new(k, |i: int| i) =~= Seq::new(m, |i: int| i).push(m as int));
        Seq::new(m, |i: int| i).lemma_filter_len_push(class_at(pixels, c, j), m as int);
        assert((c * per + k) as nat == (q + 1) as nat);
    }
}

/// Sample-pairs tallies over consecutive pixels, per channel (Dumitrescu-Wu-Wang framework).
pub fn sample_pair_counts(pixels: &[[u8; 3]]) -> (r: PairCounts)
    requires
        3 * pixels@.len() <= u64::MAX,
    ensures
        r.total_pairs == 3 * pairs_per_channel(pixels@.len() as int),
        (r.close_pairs as nat, r.even_even as nat, r.even_odd as nat, r.odd_even as nat, r.odd_odd as nat)
            == pair_tally(pixels@, r.total_pairs as nat),
{
    let plen: usize = pixels.len();
    let per: usize = plen.saturating_sub(1);
    let mut counts = PairCounts {
        total_pairs: 0,
        close_pairs: 0,
        even_even: 0,
        even_odd: 0,
        odd_even: 0,
        odd_odd: 0,
    };
    let mut channel: usize = 0;
    while channel < 3
        invariant
            channel <= 3,
            plen == pixels@.len(),
            3 * plen <= u64::MAX,
            per == pairs_per_channel(plen as int),
            counts.total_pairs == channel * per,
            (counts.close_pairs as nat, counts.even_even as nat, counts.even_odd as nat, counts.odd_even as nat,
                counts.odd_odd as nat) == pair_tally(pixels@, counts.total_pairs as nat),
        decreases 3 - channel,
    {
        let mut i: usize = 0;
        while i < per
            invariant
                i <= per,
                channel < 3,
                plen == pixels@.len(),
                3 * plen <= u64::MAX,
                per == pairs_per_channel(plen as int),
                counts.total_pairs == channel * per + i,
                (counts.close_pairs as nat, counts.even_even as nat, counts.even_odd as nat,
                    counts.odd_even as nat, counts.odd_odd as nat) == pair_tally(
                    pixels@,
                    counts.total_pairs as nat,
                ),
            decreases per - i,
        {
            let ghost q: int = channel * per + i;
            proof {
                lemma_pair_tally_bounded(pixels@, q as nat);
                vstd::arithmetic::div_mod::lemma_fundamental_div_mod_converse(q, per as int, channel as int, i as int);
                assert(channel * per + i < 3 * per) by (nonlinear_arith)
                    requires
                        channel < 3,
                        i < per,
                ;
            }
            let v1 = pixels[i][channel];
            let v2 = pixels[i + 1][channel];
            assert(sample_pair(pixels@, q) == (v1, v2));

            let diff: u8 = if v1 >= v2 {
                v1 - v2
            } else {
                v2 - v1
            };
            counts.total_pairs = counts.total_pairs + 1;
            if diff <= 1 {
                counts.close_pairs = counts.close_pairs + 1;
            }
            let e1 = v1 % 2 == 0;
            let e2 = v2 % 2 == 0;
            if e1 && e2 {
                counts.even_even = counts.even_even + 1;
            } else if e1 {
                counts.even_odd = counts.even_odd + 1;
            } else if e2 {
                counts.odd_even = counts.odd_even + 1;
            } else {
                counts.odd_odd = counts.odd_odd + 1;
            }
            i = i + 1;
        }
        assert(channel * per + per == (channel + 1) * per) by (nonlinear_arith);
        channel = channel + 1;
    }
    counts
}

// ---------------------------------------------------------------------------
// Per-channel histograms
// ---------------------------------------------------------------------------

/// How many of the first `n` pixels have value `v` in channel `c`.
pub open spec fn channel_count(pixels: Seq<[u8; 3]>, c: int, n: nat, v: int) -> nat
    decreases n,
{
    if n == 0 {
        0
    } else {
        channel_count(pixels, c, (n - 1) as nat, v) + if pixels[n - 1]@[c] == v {
            1nat
        } else {
            0nat
        }
    }
}

proof fn lemma_channel_count_bounded(pixels: Seq<[u8; 3]>, c: int, n: nat)
    ensures
        forall|v: int| #[trigger] channel_count(pixels, c, n, v) <= n,
    decreases n,
{
    if n > 0 {
        lemma_channel_count_bounded(pixels, c, (n - 1) as nat);
        assert forall|v: int| #[trigger] channel_count(pixels, c, n, v) <= n by {
            assert(channel_count(pixels, c, (n - 1) as nat, v) <= n - 1);
        }
    }
}

/// Histogram of one channel's values over 256 bins.
pub fn channel_histogram(pixels: &[[u8; 3]], channel: usize) -> (r: Vec<u64>)
    requires
        channel < 3,
    ensures
        r@.len() == 256,
        forall|v: int|
            0 <= v < 256 ==> #[trigger] r@[v] == channel_count(pixels@, channel as int, pixels@.len(), v),
{
    let mut histogram: Vec<u64> = Vec::with_capacity(256);
    let mut v: usize = 0;
    while v < 256
        invariant
            v <= 256,
            histogram@.len() == v,
            forall|u: int| 0 <= u < v ==> #[trigger] histogram@[u] == 0,
        decreases 256 - v,
    {
        histogram.push(0);
        v = v + 1;
    }
    let n: usize = pixels.len();
    let mut i: usize = 0;
    while i < n
        invariant
            i <= n,
            n == pixels@.len(),
            channel < 3,
            histogram@.len() == 256,
            forall|u: int|
                0 <= u < 256 ==> #[trigger] histogram@[u] == channel_count(pixels@, channel as int, i as nat, u),
        decreases n - i,
    {
        proof {
            lemma_channel_count_bounded(pixels@, channel as int, i as nat);
        }
        let idx: usize = pixels[i][channel] as usize;
        let old_count = histogram[idx];
        histogram.set(idx, old_count + 1);
        i = i + 1;
    }
    histogram
}

/// Bin `v` of the histogram of channel `c` counts the pixels whose value in
/// channel `c` is `v`: the histogram of a channel is the number of pixels
/// that the channel's value selects.
pub proof fn lemma_channel_histogram_counts(pixels: Seq<[u8; 3]>, c: int, v: int)
    requires
        0 <= c < 3,
    ensures
        channel_count(pixels, c, pixels.len(), v) == pixels.filter(|p: [u8; 3]| p@[c] == v).len(),
{
    lemma_channel_count_prefix(pixels, c, v, pixels.len());
    assert(pixels.take(pixels.len() as int) =~= pixels);
}

proof fn lemma_channel_count_prefix(pixels: Seq<[u8; 3]>, c: int, v: int, n: nat)
    requires
        0 <= c < 3,
        n <= pixels.len(),
    ensures
        channel_count(pixels, c, n, v) == pixels.take(n as int).filter(|p: [u8; 3]| p@[c] == v).len(),
    decreases n,
{
    if n == 0 {
        assert(pixels.take(0) =~= Seq::<[u8; 3]>::empty());
        reveal(Seq::filter);
    } else {
        lemma_channel_count_prefix(pixels, c, v, (n - 1) as nat);
        assert(pixels.take(n as int) =~= pixels.take(n - 1).push(pixels[n - 1]));
        pixels.take(n - 1).lemma_filter_len_push(|p: [u8; 3]| p@[c] == v, pixels[n - 1]);
    }
}

/// Bin `v` of the summed histogram is the number of pixels whose red value is
/// `v`, plus those whose green value is `v`, plus those whose blue value is `v`.
pub proof fn lemma_pixel_histogram_counts(pixels: Seq<[u8; 3]>, v: int)
    ensures
        value_count(pixels, (3 * pixels.len()) as nat, v) == pixels.filter(|p: [u8; 3]| p@[0] == v).len()
            + pixels.filter(|p: [u8; 3]| p@[1] == v).len() + pixels.filter(|p: [u8; 3]| p@[2] == v).len(),
{
    lemma_value_count_by_channel(pixels, v, pixels.len());
    lemma_channel_histogram_counts(pixels, 0, v);
    lemma_channel_histogram_counts(pixels, 1, v);
    lemma_channel_histogram_counts(pixels, 2, v);
}

proof fn lemma_value_count_by_channel(pixels: Seq<[u8; 3]>, v: int, n: nat)
    requires
        n <= pixels.len(),
    ensures
        value_count(pixels, 3 * n, v) == channel_count(pixels, 0, n, v) + channel_count(pixels, 1, n, v)
            + channel_count(pixels, 2, n, v),
    decreases n,
{
    if n > 0 {
        let m = (n - 1) as nat;
        lemma_value_count_by_channel(pixels, v, m);
        assert((3 * m) / 3 == m && (3 * m) % 3 == 0);
        assert((3 * m + 1) / 3 == m && (3 * m + 1) % 3 == 1);
        assert((3 * m + 2) / 3 == m && (3 * m + 2) % 3 == 2);
        assert(value_count(pixels, 3 * m + 1, v) == value_count(pixels, 3 * m, v) + if pixels[m as int]@[0]
            == v {
            1nat
        } else {
            0nat
        });
        assert(value_count(pixels, 3 * m + 2, v) == value_count(pixels, 3 * m + 1, v) + if pixels[m as int]@[1]
            == v {
            1nat
        } else {
            0nat
        });
        assert(value_count(pixels, 3 * m + 3, v) == value_count(pixels, 3 * m + 2, v) + if pixels[m as int]@[2]
            == v {
            1nat
        } else {
            0nat
        });
        assert(3 * n == 3 * m + 3);
    }
}

// ---------------------------------------------------------------------------
// GIF palettes
// ---------------------------------------------------------------------------

/// The first frame of a GIF as the decoder hands it out: the color table
/// read with the header, the frame's own color table, and its index stream.
pub struct GifFrame {
    pub global_palette: Option<Vec<u8>>,
    pub local_palette: Option<Vec<u8>>,
    pub indices: Vec<u8>,
}

/// Why the first frame of a GIF could not be read, with the decoder's message.
pub enum GifReadError {
    /// The header (logical screen descriptor, global color table) is invalid.
    Header(String),
    /// The first frame is invalid.
    Frame(String),
    /// The stream ends before any frame.
    NoFrames,
}

/// What the GIF decoder reads from a stream: (global table, frame table,
/// indices) of the first frame, or 0 for a header error, 1 for a frame error,
/// 2 for a stream without frames.
pub uninterp spec fn gif_first_frame(data: Seq<u8>) -> Result<
    (Option<Seq<u8>>, Option<Seq<u8>>, Seq<u8>),
    u8,
>;

/// An optional byte vector as an optional sequence.
pub open spec fn opt_bytes(v: Option<Vec<u8>>) -> Option<Seq<u8>> {
    match v {
        Some(b) => Some(b@),
        None => None,
    }
}

/// Reads the first frame with `gif::DecodeOptions` set to indexed color
/// output: `read_info`, then `palette()` for the table known before the
/// frame, then `read_next_frame`. Claims: the result is the decoder's (a
/// function of the bytes), its kind of failure included; the messages are the
/// decoder's and are not stated.
#[verifier::external_body]
fn read_first_gif_frame(data: &[u8]) -> (r: Result<GifFrame, GifReadError>)
    ensures
        match r {
            Ok(f) => gif_first_frame(data@) == Ok::<(Option<Seq<u8>>, Option<Seq<u8>>, Seq<u8>), u8>(
                (opt_bytes(f.global_palette), opt_bytes(f.local_palette), f.indices@),
            ),
            Err(GifReadError::Header(_)) => gif_first_frame(data@) == Err::<
                (Option<Seq<u8>>, Option<Seq<u8>>, Seq<u8>),
                u8,
            >(0u8),
            Err(GifReadError::Frame(_)) => gif_first_frame(data@) == Err::<
                (Option<Seq<u8>>, Option<Seq<u8>>, Seq<u8>),
                u8,
            >(1u8),
            Err(GifReadError::NoFrames) => gif_first_frame(data@) == Err::<
                (Option<Seq<u8>>, Option<Seq<u8>>, Seq<u8>),
                u8,
            >(2u8),
        },
{
    let mut options = gif::DecodeOptions::new();
    options.set_color_output(gif::ColorOutput::Indexed);
    let mut reader = options.read_info(data).map_err(|e| GifReadError::Header(e.to_string()))?;
    let global_palette = reader.palette().ok().map(|p| p.to_vec());
    match reader.read_next_frame() {
        Err(e) => Err(GifReadError::Frame(e.to_string())),
        Ok(None) => Err(GifReadError::NoFrames),
        Ok(Some(frame)) => Ok(GifFrame {
            global_palette,
            local_palette: frame.palette.clone(),
            indices: frame.buffer.to_vec(),
        }),
    }
}

/// A color table as RGB triples: whole groups of three bytes, a trailing
/// partial group dropped.
pub open spec fn palette_triples(bytes: Seq<u8>) -> Seq<Seq<u8>> {
    Seq::new(bytes.len() / 3, |k: int| seq![bytes[3 * k], bytes[3 * k + 1], bytes[3 * k + 2]])
}

/// The color table that applies to the first frame: its own, else the global one.
pub open spec fn frame_table(global: Option<Seq<u8>>, local: Option<Seq<u8>>) -> Option<Seq<u8>> {
    match local {
        Some(t) => Some(t),
        None => global,
    }
}

/// Parse a GIF's palette and pixel index stream from raw GIF data.
pub fn parse_gif_palette(data: &[u8]) -> (r: Result<(Vec<[u8; 3]>, Vec<u8>), CloakError>)
    ensures
        match gif_first_frame(data@) {
            Err(_) => r matches Err(e) && e is CorruptedData,
            Ok((global, local, indices)) => match frame_table(global, local) {
                None => r matches Err(e) && e is CorruptedData,
                Some(table) => r matches Ok((palette, idx)) && idx@ == indices && palette@.len()
                    == palette_triples(table).len() && forall|k: int|
                    0 <= k < palette@.len() ==> #[trigger] palette@[k]@ == palette_triples(table)[k],
            },
        },
{
    let frame = match read_first_gif_frame(data) {
        Ok(frame) => frame,
        Err(GifReadError::Header(msg)) => {
            return Err(CloakError::CorruptedData(String::from_str("GIF decode error: ").concat(msg.as_str())));
        },
        Err(GifReadError::Frame(msg)) => {
            return Err(CloakError::CorruptedData(String::from_str("GIF frame error: ").concat(msg.as_str())));
        },
        Err(GifReadError::NoFrames) => {
            return Err(CloakError::CorruptedData(String::from_str("GIF has no frames")));
        },
    };
    let GifFrame { global_palette, local_palette, indices } = frame;
    let palette_bytes: Vec<u8> = match local_palette {
        Some(table) => table,
        None => match global_palette {
            Some(table) => table,
            None => {
                return Err(CloakError::CorruptedData(String::from_str("GIF has no color table")));
            },
        },
    };
    let ghost table = palette_bytes@;
    let plen: usize = palette_bytes.len();
    let n: usize = plen / 3;
    let mut palette: Vec<[u8; 3]> = Vec::with_capacity(n);
    let mut k: usize = 0;
    while k < n
        invariant
            k <= n,
            n == table.len() / 3,
            plen == table.len(),
            table == palette_bytes@,
            palette@.len() == k,
            forall|j: int| 0 <= j < k ==> #[trigger] palette@[j]@ == palette_triples(table)[j],
        decreases n - k,
    {
        assert(3 * k + 2 < plen) by {
            vstd::arithmetic::div_mod::lemma_fundamental_div_mod(plen as int, 3);
        }
        let base = 3 * k;
        let c: [u8; 3] = [palette_bytes[base], palette_bytes[base + 1], palette_bytes[base + 2]];
        assert(c@ =~= palette_triples(table)[k as int]);
        palette.push(c);
        k = k + 1;
    }
    Ok((palette, indices))
}

/// How many of the first `m` indices equal `v`.
pub open spec fn index_count(indices: Seq<u8>, m: nat, v: int) -> nat
    decreases m,
{
    if m == 0 {
        0
    } else {
        index_count(indices, (m - 1) as nat, v) + if indices[m - 1] == v {
            1nat
        } else {
            0nat
        }
    }
}

proof fn lemma_index_count_bounded(indices: Seq<u8>, m: nat)
    ensures
        forall|v: int| #[trigger] index_count(indices, m, v) <= m,
    decreases m,
{
    if m > 0 {
        lemma_index_count_bounded(indices, (m - 1) as nat);
        assert forall|v: int| #[trigger] index_count(indices, m, v) <= m by {
            assert(index_count(indices, (m - 1) as nat, v) <= m - 1);
        }
    }
}

/// How often each of the `n` palette entries is used; indices past the
/// palette are not counted.
pub fn palette_usage(n: usize, indices: &[u8]) -> (r: Vec<u64>)
    ensures
        r@.len() == n,
        forall|v: int| 0 <= v < n ==> #[trigger] r@[v] == index_count(indices@, indices@.len(), v),
{
    let mut freq: Vec<u64> = Vec::with_capacity(n);
    let mut v: usize = 0;
    while v < n
        invariant
            v <= n,
            freq@.len() == v,
            forall|u: int| 0 <= u < v ==> #[trigger] freq@[u] == 0,
        decreases n - v,
    {
        freq.push(0);
        v = v + 1;
    }
    let m: usize = indices.len();
    let mut i: usize = 0;
    while i < m
        invariant
            i <= m,
            m == indices@.len(),
            freq@.len() == n,
            forall|u: int| 0 <= u < n ==> #[trigger] freq@[u] == index_count(indices@, i as nat, u),
        decreases m - i,
    {
        proof {
            lemma_index_count_bounded(indices@, i as nat);
        }
        let idx: usize = indices[i] as usize;
        if idx < n {
            let old_count = freq[idx];
            freq.set(idx, old_count + 1);
        }
        i = i + 1;
    }
    freq
}

/// Position `i` is the last place in `order` that holds its entry.
pub open spec fn last_holder(order: Seq<usize>, i: int) -> bool {
    forall|j: int| i < j < order.len() ==> #[trigger] order[j] != order[i]
}

/// The ranks of a luminance order: entry `order[i]` gets rank `i` (the last
/// such `i` where an entry repeats); entries the order never names get rank 0.
pub fn rank_of_order(order: &[usize]) -> (r: Vec<usize>)
    requires
        forall|i: int| 0 <= i < order@.len() ==> #[trigger] order@[i] < order@.len(),
    ensures
        r@.len() == order@.len(),
        forall|i: int|
            0 <= i < order@.len() && last_holder(order@, i) ==> #[trigger] r@[order@[i] as int] == i,
        forall|k: int|
            0 <= k < order@.len() && (forall|i: int| 0 <= i < order@.len() ==> #[trigger] order@[i] != k)
                ==> r@[k] == 0,
{
    let n: usize = order.len();
    let mut ranks: Vec<usize> = Vec::with_capacity(n);
    let mut k: usize = 0;
    while k < n
        invariant
            k <= n,
            ranks@.len() == k,
            forall|u: int| 0 <= u < k ==> #[trigger] ranks@[u] == 0,
        decreases n - k,
    {
        ranks.push(0);
        k = k + 1;
    }
    let mut t: usize = 0;
    while t < n
        invariant
            t <= n,
            n == order@.len(),
            ranks@.len() == n,
            forall|i: int| 0 <= i < n ==> #[trigger] order@[i] < n,
            forall|i: int|
                0 <= i < t && (forall|j: int| i < j < t ==> #[trigger] order@[j] != order@[i])
                    ==> #[trigger] ranks@[order@[i] as int] == i,
            forall|q: int|
                0 <= q < n && (forall|i: int| 0 <= i < t ==> #[trigger] order@[i] != q) ==> ranks@[q] == 0,
        decreases n - t,
    {
        let orig = order[t];
        ranks.set(orig, t);
        t = t + 1;
    }
    proof {
        assert forall|i: int| 0 <= i < n && last_holder(order@, i) implies #[trigger] ranks@[order@[i] as int]
            == i by {
            assert forall|j: int| i < j < n implies #[trigger] order@[j] != order@[i] by {
                assert(order@[j] != order@[i]);
            }
        }
    }
    ranks
}

/// The luminance rank of palette entry `idx`, or 0 for an index past the table.
pub open spec fn rank_of(ranks: Seq<usize>, idx: u8) -> usize {
    if (idx as int) < ranks.len() {
        ranks[idx as int]
    } else {
        0
    }
}

/// Number of consecutive pairs in `m` indices.
pub open spec fn window_pairs(m: int) -> int {
    if m == 0 { 0 } else { m - 1 }
}

/// How many of the first `k` consecutive index pairs have luminance ranks
/// that differ in the lowest bit only.
pub open spec fn rank_flip_count(ranks: Seq<usize>, indices: Seq<u8>, k: nat) -> nat
    decreases k,
{
    if k == 0 {
        0
    } else {
        rank_flip_count(ranks, indices, (k - 1) as nat) + if rank_of(ranks, indices[k - 1]) ^ rank_of(
            ranks,
            indices[k as int],
        ) == 1 {
            1nat
        } else {
            0nat
        }
    }
}

proof fn lemma_rank_flip_bounded(ranks: Seq<usize>, indices: Seq<u8>, k: nat)
    ensures
        rank_flip_count(ranks, indices, k) <= k,
    decreases k,
{
    if k > 0 {
        lemma_rank_flip_bounded(ranks, indices, (k - 1) as nat);
    }
}

/// A palette index within the rank table has the rank the table gives it; an
/// index past the table ranks as 0.
pub proof fn lemma_rank_of_table(ranks: Seq<usize>, idx: u8)
    ensures
        (idx as int) < ranks.len() ==> rank_of(ranks, idx) == ranks[idx as int],
        (idx as int) >= ranks.len() ==> rank_of(ranks, idx) == 0,
{
}

/// A consecutive index pair counts as a flip exactly when the two luminance
/// ranks are distinct members of one pair {2j, 2j+1}: they differ only in the
/// lowest bit. In particular two equal indices never count.
pub proof fn lemma_rank_flips_are_sibling_ranks(ranks: Seq<usize>, indices: Seq<u8>, k: nat)
    requires
        k < indices.len(),
    ensures
        rank_flip_count(ranks, indices, k) == Seq::new(k, |i: int| i).filter(
            |i: int|
                rank_of(ranks, indices[i]) != rank_of(ranks, indices[i + 1]) && rank_of(ranks, indices[i]) / 2
                    == rank_of(ranks, indices[i + 1]) / 2,
        ).len(),
    decreases k,
{
    let f = |i: int|
        rank_of(ranks, indices[i]) != rank_of(ranks, indices[i + 1]) && rank_of(ranks, indices[i]) / 2
            == rank_of(ranks, indices[i + 1]) / 2;
    if k == 0 {
        assert(Seq::new(0, |i: int| i) =~= Seq::<int>::empty());
        reveal(Seq::filter);
    } else {
        let m = (k - 1) as nat;
        lemma_rank_flips_are_sibling_ranks(ranks, indices, m);
        assert(Seq::new(k, |i: int| i) =~= Seq::new(m, |i: int| i).push(m as int));
        Seq::new(m, |i: int| i).lemma_filter_len_push(f, m as int);
        let r0 = rank_of(ranks, indices[m as int]);
        let r1 = rank_of(ranks, indices[k as int]);
        assert((r0 ^ r1 == 1) == (r0 != r1 && r0 / 2 == r1 / 2)) by (bit_vector);
    }
}

/// A run of one palette index has no flips: where every consecutive pair of
/// indices is equal, the flip count is zero.
pub proof fn lemma_flat_run_has_no_flips(ranks: Seq<usize>, indices: Seq<u8>, k: nat)
    requires
        k < indices.len(),
        forall|i: int| 0 <= i < k ==> #[trigger] indices[i] == indices[i + 1],
    ensures
        rank_flip_count(ranks, indices, k) == 0,
    decreases k,
{
    if k > 0 {
        lemma_flat_run_has_no_flips(ranks, indices, (k - 1) as nat);
        let r = rank_of(ranks, indices[k - 1]);
        assert(indices[k - 1] == indices[k as int]);
        assert(r ^ r == 0) by (bit_vector);
    }
}

/// EzStego tallies: of the consecutive index pairs, how many have luminance
/// ranks that differ only in the lowest bit, and how many pairs there are.
pub fn count_rank_lsb_flips(lum_rank: &[usize], indices: &[u8]) -> (r: (u64, u64))
    ensures
        r.1 == window_pairs(indices@.len() as int),
        r.0 == rank_flip_count(lum_rank@, indices@, r.1 as nat),
{
    let m: usize = indices.len();
    let pairs: usize = if m == 0 {
        0
    } else {
        m - 1
    };
    let mut lsb_flips: u64 = 0;
    let mut total_pairs: u64 = 0;
    let mut k: usize = 0;
    while k < pairs
        invariant
            k <= pairs,
            pairs == window_pairs(m as int),
            m == indices@.len(),
            total_pairs == k,
            lsb_flips == rank_flip_count(lum_rank@, indices@, k as nat),
        decreases pairs - k,
    {
        proof {
            lemma_rank_flip_bounded(lum_rank@, indices@, k as nat);
        }
        let a = indices[k] as usize;
        let b = indices[k + 1] as usize;
        let r0: usize = if a < lum_rank.len() {
            lum_rank[a]
        } else {
            0
        };
        let r1: usize = if b < lum_rank.len() {
            lum_rank[b]
        } else {
            0
        };
        if r0 ^ r1 == 1 {
            lsb_flips = lsb_flips + 1;
        }
        total_pairs = total_pairs + 1;
        k = k + 1;
    }
    (lsb_flips, total_pairs)
}

/// The first position below `k` holding `x`, if any.
pub open spec fn first_position(order: Seq<usize>, x: int, k: nat) -> Option<nat>
    decreases k,
{
    if k == 0 {
        None
    } else {
        match first_position(order, x, (k - 1) as nat) {
            Some(p) => Some(p),
            None => if order[k - 1] == x {
                Some((k - 1) as nat)
            } else {
                None
            },
        }
    }
}

/// The position of `x` in the order, or 0 where it does not occur.
pub open spec fn position_or_zero(order: Seq<usize>, x: int) -> int {
    match first_position(order, x, order.len()) {
        Some(p) => p as int,
        None => 0,
    }
}

fn find_position(order: &[usize], x: usize) -> (r: usize)
    ensures
        r == position_or_zero(order@, x as int),
{
    let n: usize = order.len();
    let mut k: usize = 0;
    while k < n
        invariant
            k <= n,
            n == order@.len(),
            first_position(order@, x as int, k as nat) is None,
        decreases n - k,
    {
        if order[k] == x {
            proof {
                lemma_first_position_stays(order@, x as int, (k + 1) as nat, n as nat);
            }
            return k;
        }
        k = k + 1;
    }
    0
}

proof fn lemma_first_position_stays(order: Seq<usize>, x: int, k: nat, n: nat)
    requires
        k <= n,
        first_position(order, x, k) is Some,
    ensures
        first_position(order, x, n) == first_position(order, x, k),
    decreases n,
{
    if n > k {
        lemma_first_position_stays(order, x, k, (n - 1) as nat);
    }
}

/// For palette entry `i`: how many of the entries `i + 1 .. j` come before it
/// in the order.
pub open spec fn row_discordant(order: Seq<usize>, i: int, j: nat) -> nat
    decreases j,
{
    if j == 0 || j <= i + 1 {
        0
    } else {
        row_discordant(order, i, (j - 1) as nat) + if position_or_zero(order, i) > position_or_zero(
            order,
            j - 1,
        ) {
            1nat
        } else {
            0nat
        }
    }
}

/// Discordant pairs among the first `i` rows.
pub open spec fn discordant_before(order: Seq<usize>, i: nat) -> nat
    decreases i,
{
    if i == 0 {
        0
    } else {
        discordant_before(order, (i - 1) as nat) + row_discordant(order, i - 1, order.len())
    }
}

/// Pairs `(i', j)` with `i' < i` and `i' < j < n`.
pub open spec fn pairs_before(n: int, i: nat) -> int
    decreases i,
{
    if i == 0 {
        0
    } else {
        pairs_before(n, (i - 1) as nat) + (n - i)
    }
}

proof fn lemma_pairs_before(n: int, i: nat)
    requires
        i <= n,
    ensures
        2 * pairs_before(n, i) == i * (2 * n - 1 - i),
    decreases i,
{
    if i > 0 {
        lemma_pairs_before(n, (i - 1) as nat);
        let prev = pairs_before(n, (i - 1) as nat);
        assert(pairs_before(n, i) == prev + (n - i));
        let ii: int = i as int;
        assert(2 * (prev + (n - ii)) == ii * (2 * n - 1 - ii)) by (nonlinear_arith)
            requires
                2 * prev == (ii - 1) * (2 * n - 1 - (ii - 1)),
        ;
    } else {
        assert(i * (2 * n - 1 - i) == 0) by (nonlinear_arith)
            requires
                i == 0,
        ;
    }
}

proof fn lemma_row_bounded(order: Seq<usize>, i: int, j: nat)
    requires
        i >= 0,
    ensures
        row_discordant(order, i, j) <= if j > i + 1 { j - i - 1 } else { 0 },
    decreases j,
{
    if j > i + 1 {
        lemma_row_bounded(order, i, (j - 1) as nat);
    }
}

proof fn lemma_discordant_bounded(order: Seq<usize>, i: nat)
    requires
        i <= order.len(),
    ensures
        discordant_before(order, i) <= pairs_before(order.len() as int, i),
    decreases i,
{
    if i > 0 {
        lemma_discordant_bounded(order, (i - 1) as nat);
        lemma_row_bounded(order, i - 1, order.len());
    }
}

/// Gifshuffle tallies for a luminance order of the palette: how many pairs of
/// entries `i < j` the order puts the other way round, and how many pairs there are.
pub fn count_discordant(lum_order: &[usize]) -> (r: (u64, u64))
    requires
        lum_order@.len() <= u32::MAX,
    ensures
        r.0 == discordant_before(lum_order@, lum_order@.len()),
        2 * r.1 == lum_order@.len() * (lum_order@.len() - 1),
{
    let n: usize = lum_order.len();
    let mut discordant: u64 = 0;
    let mut total_pairs: u64 = 0;
    let mut i: usize = 0;
    proof {
        lemma_pairs_before(n as int, n as nat);
        assert(n * (2 * n - 1 - n) <= 0x1_0000_0000 * 0x1_0000_0000) by (nonlinear_arith)
            requires
                n <= 0xFFFF_FFFF,
        ;
    }
    while i < n
        invariant
            i <= n,
            n == lum_order@.len(),
            n <= u32::MAX,
            2 * pairs_before(n as int, n as nat) == n * (2 * n - 1 - n),
            2 * pairs_before(n as int, n as nat) <= 0x1_0000_0000 * 0x1_0000_0000,
            total_pairs == pairs_before(n as int, i as nat),
            discordant == discordant_before(lum_order@, i as nat),
        decreases n - i,
    {
        let pos_i = find_position(lum_order, i);
        let mut j: usize = i + 1;
        proof {
            lemma_pairs_before_mono(n as int, (i + 1) as nat, n as nat);
            lemma_discordant_bounded(lum_order@, (i + 1) as nat);
        }
        while j < n
            invariant
                i < j <= n,
                n == lum_order@.len(),
                pos_i == position_or_zero(lum_order@, i as int),
                pairs_before(n as int, (i + 1) as nat) <= pairs_before(n as int, n as nat),
                2 * pairs_before(n as int, n as nat) <= 0x1_0000_0000 * 0x1_0000_0000,
                total_pairs == pairs_before(n as int, i as nat) + (j - i - 1),
                discordant == discordant_before(lum_order@, i as nat) + row_discordant(lum_order@, i as int, j as nat),
                discordant_before(lum_order@, (i + 1) as nat) <= pairs_before(n as int, (i + 1) as nat),
            decreases n - j,
        {
            proof {
                lemma_row_bounded(lum_order@, i as int, (j + 1) as nat);
                lemma_row_bounded(lum_order@, i as int, n as nat);
                lemma_row_mono(lum_order@, i as int, (j + 1) as nat, n as nat);
            }
            let pos_j = find_position(lum_order, j);
            if pos_i > pos_j {
                discordant = discordant + 1;
            }
            total_pairs = total_pairs + 1;
            j = j + 1;
        }
        i = i + 1;
    }
    (discordant, total_pairs)
}

proof fn lemma_pairs_before_mono(n: int, i: nat, k: nat)
    requires
        i <= k <= n,
    ensures
        pairs_before(n, i) <= pairs_before(n, k),
    decreases k,
{
    if k > i {
        lemma_pairs_before_mono(n, i, (k - 1) as nat);
    }
}

proof fn lemma_row_mono(order: Seq<usize>, i: int, j: nat, k: nat)
    requires
        j <= k,
    ensures
        row_discordant(order, i, j) <= row_discordant(order, i, k),
    decreases k,
{
    if k > j {
        lemma_row_mono(order, i, j, (k - 1) as nat);
    }
}

} // verus!
