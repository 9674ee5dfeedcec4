//! Image formats: detection, output mapping, and the unified LSB codec.

pub mod bmp;
pub mod jpeg;
pub mod lsb;
pub mod lsb_model;
pub mod webp;

use vstd::prelude::*;

use crate::error::CloakError;
use crate::raster::{
    decode_pixel_limit, decode_rgba, decoded_rgba, encode_rgba, encoded_image, reads_back, Raster,
};
use crate::traits::{Capacity, Decoder, Encoder};

use self::lsb::{
    embed_lsb, embed_ready, extract_lsb, max_payload_bytes, order_covers_image, spec_max_payload,
    spec_pixel_bits, LsbParams,
};
use self::lsb_model::{
    carrier_bits, eff_depth, extract_reads_ok, lemma_covering_order, lemma_covering_order_extract,
    lsb_embed, lsb_extract, order_covers, padded_len, LsbSettings,
};

verus! {

/// Supported image formats for steganography.
#[derive(Debug, Clone, Copy, PartialEq, Eq, Structural)]
pub enum ImageFormat {
    Png,
    Bmp,
    Jpeg,
    WebP,
    Gif,
    Tiff,
}

/// The format announced by the leading magic bytes, if any.
pub open spec fn magic_format(d: Seq<u8>) -> Option<ImageFormat> {
    if d.len() >= 8 && d[0] == 0x89 && d[1] == 0x50 && d[2] == 0x4E && d[3] == 0x47 && d[4] == 0x0D
        && d[5] == 0x0A && d[6] == 0x1A && d[7] == 0x0A {
        Some(ImageFormat::Png)
    } else if d.len() >= 2 && d[0] == 0x42 && d[1] == 0x4D {
        Some(ImageFormat::Bmp)
    } else if d.len() >= 3 && d[0] == 0xFF && d[1] == 0xD8 && d[2] == 0xFF {
        Some(ImageFormat::Jpeg)
    } else if d.len() >= 12 && d[0] == 0x52 && d[1] == 0x49 && d[2] == 0x46 && d[3] == 0x46 && d[8]
        == 0x57 && d[9] == 0x45 && d[10] == 0x42 && d[11] == 0x50 {
        Some(ImageFormat::WebP)
    } else if d.len() >= 6 && d[0] == 0x47 && d[1] == 0x49 && d[2] == 0x46 && d[3] == 0x38 && (d[4]
        == 0x37 || d[4] == 0x39) && d[5] == 0x61 {
        Some(ImageFormat::Gif)
    } else if d.len() >= 4 && ((d[0] == 0x49 && d[1] == 0x49 && d[2] == 0x2A && d[3] == 0x00) || (d[0]
        == 0x4D && d[1] == 0x4D && d[2] == 0x00 && d[3] == 0x2A)) {
        Some(ImageFormat::Tiff)
    } else {
        None
    }
}

/// `s` ends with `suffix`.
pub open spec fn has_suffix(s: Seq<char>, suffix: Seq<char>) -> bool {
    suffix.len() <= s.len() && s.subrange(s.len() - suffix.len(), s.len() as int) == suffix
}

/// The format named by the extension of a lowercased path, if any.
pub open spec fn extension_format(lower: Seq<char>) -> Option<ImageFormat> {
    if has_suffix(lower, seq!['.', 'p', 'n', 'g']) {
        Some(ImageFormat::Png)
    } else if has_suffix(lower, seq!['.', 'b', 'm', 'p']) {
        Some(ImageFormat::Bmp)
    } else if has_suffix(lower, seq!['.', 'j', 'p', 'g']) || has_suffix(
        lower,
        seq!['.', 'j', 'p', 'e', 'g'],
    ) {
        Some(ImageFormat::Jpeg)
    } else if has_suffix(lower, seq!['.', 'w', 'e', 'b', 'p']) {
        Some(ImageFormat::WebP)
    } else if has_suffix(lower, seq!['.', 'g', 'i', 'f']) {
        Some(ImageFormat::Gif)
    } else if has_suffix(lower, seq!['.', 't', 'i', 'f']) || has_suffix(
        lower,
        seq!['.', 't', 'i', 'f', 'f'],
    ) {
        Some(ImageFormat::Tiff)
    } else {
        None
    }
}

/// What `str::to_lowercase` makes of a string.
pub uninterp spec fn lowercase(s: Seq<char>) -> Seq<char>;

/// ASCII letters mapped to lowercase, every other character kept.
pub open spec fn ascii_lowercase(s: Seq<char>) -> Seq<char> {
    s.map_values(|c: char| if 'A' <= c <= 'Z' { ((c as u32) + 32) as char } else { c })
}

/// All characters are ASCII.
pub open spec fn all_ascii(s: Seq<char>) -> bool {
    forall|i: int| 0 <= i < s.len() ==> (s[i] as u32) < 128
}

/// Calls `str::to_lowercase`. Claims: the result is a function of the string,
/// and on an ASCII string it lowercases exactly the letters `A`..`Z` (the
/// documented behavior: lowercase is the Unicode `Lowercase` mapping, which
/// on ASCII is `to_ascii_lowercase`).
#[verifier::external_body]
fn to_lowercase(s: &str) -> (r: String)
    ensures
        r@ == lowercase(s@),
        all_ascii(s@) ==> r@ == ascii_lowercase(s@),
{
    s.to_lowercase()
}

/// The view of an optional path.
pub open spec fn path_view(path: Option<&str>) -> Option<Seq<char>> {
    match path {
        Some(p) => Some(p@),
        None => None,
    }
}

/// Format detection: magic bytes first, then the path's extension; the error
/// carries the path, or `unknown` without one.
pub open spec fn spec_detect(data: Seq<u8>, path: Option<Seq<char>>) -> Result<ImageFormat, Seq<char>> {
    match magic_format(data) {
        Some(f) => Ok(f),
        None => match path {
            Some(p) => match extension_format(lowercase(p)) {
                Some(f) => Ok(f),
                None => Err(p),
            },
            None => Err(seq!['u', 'n', 'k', 'n', 'o', 'w', 'n']),
        },
    }
}

/// Whether `s` ends with the characters of `suffix`.
fn ends_with(s: &str, suffix: &[char]) -> (r: bool)
    ensures
        r == has_suffix(s@, suffix@),
{
    let n = s.unicode_len();
    let m = suffix.len();
    if m > n {
        return false;
    }
    let mut i: usize = 0;
    while i < m
        invariant
            m <= n,
            n == s@.len(),
            m == suffix@.len(),
            i <= m,
            forall|t: int| 0 <= t < i ==> s@[n - m + t] == suffix@[t],
        decreases m - i,
    {
        if s.get_char(n - m + i) != suffix[i] {
            assert(s@.subrange(n - m, n as int)[i as int] != suffix@[i as int]);
            return false;
        }
        i = i + 1;
    }
    assert(s@.subrange(n - m, n as int) =~= suffix@);
    true
}

/// The format named by the extension of an already lowercased path.
fn extension_of(lower: &str) -> (r: Option<ImageFormat>)
    ensures
        r == extension_format(lower@),
{
    if ends_with(lower, &['.', 'p', 'n', 'g']) {
        return Some(ImageFormat::Png);
    }
    if ends_with(lower, &['.', 'b', 'm', 'p']) {
        return Some(ImageFormat::Bmp);
    }
    if ends_with(lower, &['.', 'j', 'p', 'g']) || ends_with(lower, &['.', 'j', 'p', 'e', 'g']) {
        return Some(ImageFormat::Jpeg);
    }
    if ends_with(lower, &['.', 'w', 'e', 'b', 'p']) {
        return Some(ImageFormat::WebP);
    }
    if ends_with(lower, &['.', 'g', 'i', 'f']) {
        return Some(ImageFormat::Gif);
    }
    if ends_with(lower, &['.', 't', 'i', 'f']) || ends_with(lower, &['.', 't', 'i', 'f', 'f']) {
        return Some(ImageFormat::Tiff);
    }
    None
}

/// The output name asks for a lossy format by its extension: `.jpg`, `.jpeg`,
/// `.webp` or `.gif` (of an already lowercased name).
pub open spec fn lossy_extension(lower: Seq<char>) -> bool {
    has_suffix(lower, seq!['.', 'j', 'p', 'g']) || has_suffix(lower, seq!['.', 'j', 'p', 'e', 'g'])
        || has_suffix(lower, seq!['.', 'w', 'e', 'b', 'p']) || has_suffix(lower, seq!['.', 'g', 'i', 'f'])
}

/// Whether a stego output path must be renamed: it is not standard output
/// (`-`), the cover's format is lossy (its stego is written as PNG), and the
/// path's extension asks for a lossy format (`.jpg`, `.jpeg`, `.webp`, `.gif`,
/// in any case).
pub fn lossy_output_needs_rename(input_format: ImageFormat, output: &str) -> (r: bool)
    ensures
        r == (output@ != seq!['-'] && spec_is_lossy(input_format) && lossy_extension(lowercase(output@))),
        all_ascii(output@) ==> r == (output@ != seq!['-'] && spec_is_lossy(input_format) && lossy_extension(
            ascii_lowercase(output@),
        )),
{
    if output.unicode_len() == 1 && output.get_char(0) == '-' {
        assert(output@ =~= seq!['-']);
        return false;
    }
    if !input_format.is_lossy() {
        return false;
    }
    let out_lower = to_lowercase(output);
    let lower = out_lower.as_str();
    ends_with(lower, &['.', 'j', 'p', 'g']) || ends_with(lower, &['.', 'j', 'p', 'e', 'g'])
        || ends_with(lower, &['.', 'w', 'e', 'b', 'p']) || ends_with(lower, &['.', 'g', 'i', 'f'])
}

impl ImageFormat {
    /// Detect format from magic bytes, falling back to file extension.
    pub fn detect(data: &[u8], path: Option<&str>) -> (r: Result<Self, crate::CloakError>)
        ensures
            spec_detect(data@, path_view(path)) matches Ok(f) ==> r == Ok::<Self, crate::CloakError>(f),
            spec_detect(data@, path_view(path)) matches Err(msg) ==> (r matches Err(
                crate::CloakError::UnsupportedFormat(s),
            ) && s@ == msg),
            path matches Some(p) ==> (magic_format(data@) is None && all_ascii(p@) ==> match extension_format(
                ascii_lowercase(p@),
            ) {
                Some(f) => r == Ok::<Self, crate::CloakError>(f),
                None => r matches Err(crate::CloakError::UnsupportedFormat(s)) && s@ == p@,
            }),
    {
        let n = data.len();
        if n >= 8 && data[0] == 0x89 && data[1] == 0x50 && data[2] == 0x4E && data[3] == 0x47 && data[4]
            == 0x0D && data[5] == 0x0A && data[6] == 0x1A && data[7] == 0x0A {
            return Ok(ImageFormat::Png);
        }
        if n >= 2 && data[0] == 0x42 && data[1] == 0x4D {
            return Ok(ImageFormat::Bmp);
        }
        if n >= 3 && data[0] == 0xFF && data[1] == 0xD8 && data[2] == 0xFF {
            return Ok(ImageFormat::Jpeg);
        }
        if n >= 12 && data[0] == 0x52 && data[1] == 0x49 && data[2] == 0x46 && data[3] == 0x46 && data[8]
            == 0x57 && data[9] == 0x45 && data[10] == 0x42 && data[11] == 0x50 {
            return Ok(ImageFormat::WebP);
        }
        if n >= 6 && data[0] == 0x47 && data[1] == 0x49 && data[2] == 0x46 && data[3] == 0x38 && (data[4]
            == 0x37 || data[4] == 0x39) && data[5] == 0x61 {
            return Ok(ImageFormat::Gif);
        }
        if n >= 4 && ((data[0] == 0x49 && data[1] == 0x49 && data[2] == 0x2A && data[3] == 0x00) || (
        data[0] == 0x4D && data[1] == 0x4D && data[2] == 0x00 && data[3] == 0x2A)) {
            return Ok(ImageFormat::Tiff);
        }
        // Fall back to extension

        match path {
            Some(p) => {
                let lower = to_lowercase(p);
                match extension_of(lower.as_str()) {
                    Some(f) => Ok(f),
                    None => Err(crate::CloakError::UnsupportedFormat(String::from_str(p))),
                }
            },
            None => {
                let unknown = "unknown";
                proof {
                    reveal_strlit("unknown");
                }
                Err(crate::CloakError::UnsupportedFormat(String::from_str(unknown)))
            },
        }
    }

    /// The output format after embedding (lossy inputs produce PNG output).
    pub fn output_format(&self) -> (r: Self)
        ensures
            r == spec_output_format(*self),
    {
        match self {
            ImageFormat::Png => ImageFormat::Png,
            ImageFormat::Bmp => ImageFormat::Bmp,
            ImageFormat::Tiff => ImageFormat::Tiff,
            ImageFormat::Jpeg | ImageFormat::WebP | ImageFormat::Gif => ImageFormat::Png,
        }
    }

    /// File extension for this format.
    pub fn extension(&self) -> (r: &'static str)
        ensures
            r@ == spec_extension(*self),
    {
        proof {
            reveal_strlit(".png");
            reveal_strlit(".bmp");
            reveal_strlit(".jpg");
            reveal_strlit(".webp");
            reveal_strlit(".gif");
            reveal_strlit(".tiff");
        }
        match self {
            ImageFormat::Png => ".png",
            ImageFormat::Bmp => ".bmp",
            ImageFormat::Jpeg => ".jpg",
            ImageFormat::WebP => ".webp",
            ImageFormat::Gif => ".gif",
            ImageFormat::Tiff => ".tiff",
        }
    }

    /// Whether this format is lossy (stego output will differ from input format).
    pub fn is_lossy(&self) -> (r: bool)
        ensures
            r == spec_is_lossy(*self),
    {
        match self {
            ImageFormat::Jpeg | ImageFormat::WebP | ImageFormat::Gif => true,
            _ => false,
        }
    }
}

/// Lossy and palette-based inputs are written out as PNG; the others keep their format.
pub open spec fn spec_output_format(f: ImageFormat) -> ImageFormat {
    match f {
        ImageFormat::Jpeg | ImageFormat::WebP | ImageFormat::Gif => ImageFormat::Png,
        _ => f,
    }
}

/// The file extension of a format.
pub open spec fn spec_extension(f: ImageFormat) -> Seq<char> {
    match f {
        ImageFormat::Png => seq!['.', 'p', 'n', 'g'],
        ImageFormat::Bmp => seq!['.', 'b', 'm', 'p'],
        ImageFormat::Jpeg => seq!['.', 'j', 'p', 'g'],
        ImageFormat::WebP => seq!['.', 'w', 'e', 'b', 'p'],
        ImageFormat::Gif => seq!['.', 'g', 'i', 'f'],
        ImageFormat::Tiff => seq!['.', 't', 'i', 'f', 'f'],
    }
}

/// JPEG, WebP and GIF lose the low bits of a stego image; the others keep them.
pub open spec fn spec_is_lossy(f: ImageFormat) -> bool {
    f is Jpeg || f is WebP || f is Gif
}

/// A suffix no longer than `b` is a suffix of `a + b` exactly when it is one of `b`.
proof fn lemma_suffix_of_concat(a: Seq<char>, b: Seq<char>, suf: Seq<char>)
    requires
        suf.len() <= b.len(),
    ensures
        has_suffix(a + b, suf) == has_suffix(b, suf),
{
    let ab = a + b;
    let n = ab.len();
    assert forall|i: int| 0 <= i < suf.len() implies #[trigger] ab.subrange(n - suf.len(), n as int)[i]
        == b.subrange(b.len() - suf.len(), b.len() as int)[i] by {
        assert(ab[n - suf.len() + i] == b[b.len() - suf.len() + i]);
    }
    if has_suffix(ab, suf) {
        assert(b.subrange(b.len() - suf.len(), b.len() as int) =~= suf);
    }
    if has_suffix(b, suf) {
        assert(ab.subrange(n - suf.len(), n as int) =~= suf);
    }
}

/// A suffix one longer than `b` whose second character differs from `b`'s
/// first is not a suffix of `a + b`.
proof fn lemma_longer_suffix_of_concat(a: Seq<char>, b: Seq<char>, suf: Seq<char>)
    requires
        suf.len() == b.len() + 1,
        b.len() >= 1,
        b[0] != suf[1],
    ensures
        !has_suffix(a + b, suf),
{
    let ab = a + b;
    let n = ab.len();
    if has_suffix(ab, suf) {
        assert(ab.subrange(n - suf.len(), n as int)[1] == suf[1]);
        assert(ab[n - b.len()] == b[0]);
    }
}

/// A path made of an ASCII stem and a format's extension is detected, by its
/// extension, as that format.
pub proof fn lemma_extension_detected(stem: Seq<char>, f: ImageFormat)
    requires
        all_ascii(stem),
    ensures
        all_ascii(stem + spec_extension(f)),
        extension_format(ascii_lowercase(stem + spec_extension(f))) == Some(f),
{
    let e = spec_extension(f);
    let p = stem + e;
    assert forall|i: int| 0 <= i < p.len() implies (p[i] as u32) < 128 by {
        if i >= stem.len() {
            assert(p[i] == e[i - stem.len()]);
        }
    }
    let l = ascii_lowercase(stem);
    assert(ascii_lowercase(p) =~= l + e) by {
        assert forall|i: int| 0 <= i < p.len() implies #[trigger] ascii_lowercase(p)[i] == (l + e)[i] by {
            if i >= stem.len() {
                assert(p[i] == e[i - stem.len()]);
            }
        }
    }
    let png = seq!['.', 'p', 'n', 'g'];
    let bmp = seq!['.', 'b', 'm', 'p'];
    let jpg = seq!['.', 'j', 'p', 'g'];
    let jpeg = seq!['.', 'j', 'p', 'e', 'g'];
    let webp = seq!['.', 'w', 'e', 'b', 'p'];
    let gif = seq!['.', 'g', 'i', 'f'];
    let tif = seq!['.', 't', 'i', 'f'];
    let tiff = seq!['.', 't', 'i', 'f', 'f'];
    lemma_output_format_laws(f);
    if e.len() == 4 {
        lemma_suffix_of_concat(l, e, png);
        lemma_suffix_of_concat(l, e, bmp);
        lemma_suffix_of_concat(l, e, jpg);
        lemma_suffix_of_concat(l, e, gif);
        lemma_suffix_of_concat(l, e, tif);
        lemma_longer_suffix_of_concat(l, e, jpeg);
        lemma_longer_suffix_of_concat(l, e, webp);
        lemma_longer_suffix_of_concat(l, e, tiff);
    } else {
        lemma_suffix_of_concat(l, e, png);
        lemma_suffix_of_concat(l, e, bmp);
        lemma_suffix_of_concat(l, e, jpg);
        lemma_suffix_of_concat(l, e, gif);
        lemma_suffix_of_concat(l, e, tif);
        lemma_suffix_of_concat(l, e, jpeg);
        lemma_suffix_of_concat(l, e, webp);
        lemma_suffix_of_concat(l, e, tiff);
    }
}

/// A format is lossy exactly when embedding changes it, and the output format
/// is never lossy and is its own output format.
pub proof fn lemma_output_format_laws(f: ImageFormat)
    ensures
        spec_is_lossy(f) <==> spec_output_format(f) != f,
        !spec_is_lossy(spec_output_format(f)),
        spec_output_format(spec_output_format(f)) == spec_output_format(f),
        extension_format(spec_extension(f)) == Some(f),
{
    let e = spec_extension(f);
    assert(has_suffix(e, e)) by {
        assert(e.subrange(0, e.len() as int) =~= e);
    }
    match f {
        ImageFormat::Png => {},
        ImageFormat::Bmp => {
            assert(!has_suffix(e, seq!['.', 'p', 'n', 'g'])) by {
                assert(e.subrange(0, 4)[3] != seq!['.', 'p', 'n', 'g'][3]);
            }
        },
        ImageFormat::Jpeg => {
            assert(!has_suffix(e, seq!['.', 'p', 'n', 'g'])) by {
                assert(e.subrange(0, 4)[1] != seq!['.', 'p', 'n', 'g'][1]);
            }
            assert(!has_suffix(e, seq!['.', 'b', 'm', 'p'])) by {
                assert(e.subrange(0, 4)[1] != seq!['.', 'b', 'm', 'p'][1]);
            }
        },
        ImageFormat::WebP => {
            assert(!has_suffix(e, seq!['.', 'p', 'n', 'g'])) by {
                assert(e.subrange(1, 5)[1] != seq!['.', 'p', 'n', 'g'][1]);
            }
            assert(!has_suffix(e, seq!['.', 'b', 'm', 'p'])) by {
                assert(e.subrange(1, 5)[1] != seq!['.', 'b', 'm', 'p'][1]);
            }
            assert(!has_suffix(e, seq!['.', 'j', 'p', 'g'])) by {
                assert(e.subrange(1, 5)[3] != seq!['.', 'j', 'p', 'g'][3]);
            }
            assert(!has_suffix(e, seq!['.', 'j', 'p', 'e', 'g'])) by {
                assert(e.subrange(0, 5)[1] != seq!['.', 'j', 'p', 'e', 'g'][1]);
            }
        },
        ImageFormat::Gif => {
            assert(!has_suffix(e, seq!['.', 'p', 'n', 'g'])) by {
                assert(e.subrange(0, 4)[1] != seq!['.', 'p', 'n', 'g'][1]);
            }
            assert(!has_suffix(e, seq!['.', 'b', 'm', 'p'])) by {
                assert(e.subrange(0, 4)[1] != seq!['.', 'b', 'm', 'p'][1]);
            }
            assert(!has_suffix(e, seq!['.', 'j', 'p', 'g'])) by {
                assert(e.subrange(0, 4)[1] != seq!['.', 'j', 'p', 'g'][1]);
            }
            assert(!has_suffix(e, seq!['.', 'j', 'p', 'e', 'g']));
            assert(!has_suffix(e, seq!['.', 'w', 'e', 'b', 'p']));
        },
        ImageFormat::Tiff => {
            assert(!has_suffix(e, seq!['.', 'p', 'n', 'g'])) by {
                assert(e.subrange(1, 5)[1] != seq!['.', 'p', 'n', 'g'][1]);
            }
            assert(!has_suffix(e, seq!['.', 'b', 'm', 'p'])) by {
                assert(e.subrange(1, 5)[1] != seq!['.', 'b', 'm', 'p'][1]);
            }
            assert(!has_suffix(e, seq!['.', 'j', 'p', 'g'])) by {
                assert(e.subrange(1, 5)[1] != seq!['.', 'j', 'p', 'g'][1]);
            }
            assert(!has_suffix(e, seq!['.', 'j', 'p', 'e', 'g'])) by {
                assert(e.subrange(0, 5)[1] != seq!['.', 'j', 'p', 'e', 'g'][1]);
            }
            assert(!has_suffix(e, seq!['.', 'w', 'e', 'b', 'p'])) by {
                assert(e.subrange(0, 5)[1] != seq!['.', 'w', 'e', 'b', 'p'][1]);
            }
            assert(!has_suffix(e, seq!['.', 'g', 'i', 'f'])) by {
                assert(e.subrange(1, 5)[1] != seq!['.', 'g', 'i', 'f'][1]);
            }
            assert(!has_suffix(e, seq!['.', 't', 'i', 'f']));
        },
    }
}

// ---------------------------------------------------------------------------
// The unified LSB codec
// ---------------------------------------------------------------------------

/// The carrier arithmetic of a `width` x `height` image at depth `bd` fits the
/// platform's `usize`, with room for the stream header and padding.
pub open spec fn dims_fit(width: u32, height: u32, bd: u8) -> bool {
    &&& width * height * 3 <= usize::MAX
    &&& spec_pixel_bits(width, height, bd) + 1024 <= usize::MAX
}

/// Whether the carrier arithmetic of the image fits the platform's `usize`.
pub fn fits_platform(width: u32, height: u32, bd: u8) -> (r: bool)
    ensures
        r == dims_fit(width, height, bd),
{
    assert(width * height <= 0xFFFF_FFFE_0000_0001) by (nonlinear_arith)
        requires
            width <= 0xFFFF_FFFF,
            height <= 0xFFFF_FFFF,
    ;
    let pixels: u64 = width as u64 * height as u64;
    let limit: u64 = usize::MAX as u64;
    assert(spec_pixel_bits(width, height, bd) == pixels * 3 * bd);
    match pixels.checked_mul(3) {
        None => {
            assert(pixels * 3 > usize::MAX);
            false
        },
        Some(p3) => {
            if p3 > limit {
                return false;
            }
            match p3.checked_mul(bd as u64) {
                None => false,
                Some(bits) => bits <= limit - 1024,
            }
        },
    }
}

/// Unified LSB steganography codec for all image formats.
pub struct LsbCodec {
    pub params: LsbParams,
    /// The image format to use for encoding the output.
    pub output_format: ImageFormat,
}

/// Whether a decoded cover is one the codec can embed into: its arithmetic
/// fits the platform and the traversal covers its pixels.
pub open spec fn codec_fits(codec: LsbCodec, width: u32, height: u32) -> bool {
    params_fit(codec.params, width, height)
}

/// Whether a decoded cover is one these parameters can embed into: its
/// arithmetic fits the platform and the traversal covers its pixels.
pub open spec fn params_fit(params: LsbParams, width: u32, height: u32) -> bool {
    &&& dims_fit(width, height, eff_depth(params.bit_depth))
    &&& order_covers(params.pixel_order@, width * height)
}

/// What embedding `payload` into `img` with `params` and encoding it in
/// `output_format` may give: a payload too large is refused; one that fits is
/// embedded, padded, and encoded, unless the image codec fails.
pub open spec fn embeds_into(
    params: LsbParams,
    output_format: ImageFormat,
    img: Raster,
    payload: Seq<u8>,
    r: Result<Vec<u8>, CloakError>,
) -> bool {
    let max = spec_max_payload(img.width, img.height, eff_depth(params.bit_depth));
    &&& payload.len() > max ==> r == Err::<Vec<u8>, CloakError>(
        CloakError::PayloadTooLarge { needed: payload.len() as usize, capacity: max as usize },
    )
    &&& (r matches Ok(out) ==> exists|pad: Seq<u8>|
        pad.len() == padded_len(payload.len() as int) - payload.len() && written_as(img.width, img.height, #[trigger] lsb_embed(img.pixels@, (img.width * img.height) as nat, payload, pad, params@), output_format, out@))
    &&& (r matches Err(e) ==> e is PayloadTooLarge || e is Image)
    &&& payload.len() <= max ==> (r is Ok || (r matches Err(e) && e is Image))
    &&& (r matches Err(e) && e is Image) ==> encoder_refuses(
        params@,
        output_format,
        img.width,
        img.height,
        img.pixels@,
        payload,
    )
}

/// `out` is what the image codec writes for these pixels in `output_format`;
/// a PNG, BMP or TIFF file starts with its format's signature, and within the
/// bounds of `reads_back` it decodes back to the same pixels.
pub open spec fn written_as(width: u32, height: u32, px: Seq<u8>, output_format: ImageFormat, out: Seq<u8>) -> bool {
    &&& encoded_image(width, height, px, output_format) == Some(out)
    &&& output_format is Png || output_format is Bmp || output_format is Tiff ==> magic_format(out) == Some(
        output_format,
    )
    &&& reads_back(width, height, output_format) ==> decoded_rgba(out) == Some((width, height, px))
}

/// The image codec refuses to encode, in `output_format`, the pixels that
/// embedding `payload` with `settings` writes into `px`, for some padding of the
/// padded length.
pub open spec fn encoder_refuses(
    settings: LsbSettings,
    output_format: ImageFormat,
    width: u32,
    height: u32,
    px: Seq<u8>,
    payload: Seq<u8>,
) -> bool {
    exists|pad: Seq<u8>|
        pad.len() == padded_len(payload.len() as int) - payload.len() && encoded_image(
            width,
            height,
            #[trigger] lsb_embed(px, (width * height) as nat, payload, pad, settings),
            output_format,
        ) is None
}

/// Embed a payload into a decoded image with these parameters and encode it in a format.
pub(crate) fn embed_into(
    params: &LsbParams,
    output_format: ImageFormat,
    img: &Raster,
    payload: &[u8],
) -> (r: Result<Vec<u8>, CloakError>)
    requires
        img.wf(),
        dims_fit(img.width, img.height, eff_depth(params.bit_depth)),
        payload@.len() > spec_max_payload(img.width, img.height, eff_depth(params.bit_depth))
            || embed_ready(*img, payload@.len() as int, params@),
    ensures
        embeds_into(*params, output_format, *img, payload@, r),
{
    let mut rgba = Raster { width: img.width, height: img.height, pixels: img.pixels.clone() };
    assert(rgba.pixels@ =~= img.pixels@);
    embed_lsb(&mut rgba, payload, params)?;
    let ghost pad = choose|pad: Seq<u8>|
        pad.len() == padded_len(payload@.len() as int) - payload@.len() && rgba.pixels@
            == #[trigger] lsb_embed(
            img.pixels@,
            (img.width * img.height) as nat,
            payload@,
            pad,
            params@,
        );
    match encode_rgba(&rgba, output_format) {
        Ok(out) => Ok(out),
        Err(msg) => {
            assert(encoded_image(
                img.width,
                img.height,
                lsb_embed(img.pixels@, (img.width * img.height) as nat, payload@, pad, params@),
                output_format,
            ) is None);
            Err(CloakError::Image(msg))
        },
    }
}

/// The usable payload bytes of a cover at these parameters' bit depth (taken as given).
pub(crate) fn cover_capacity(params: &LsbParams, cover: &[u8]) -> (r: Result<usize, CloakError>)
    ensures
        decoded_rgba(cover@) is None ==> (r matches Err(e) && e is Image),
        decoded_rgba(cover@) matches Some((w, h, _px)) ==> (if w * h * 3 <= usize::MAX
            && spec_pixel_bits(w, h, params.bit_depth) <= usize::MAX {
            r == Ok::<usize, CloakError>(spec_max_payload(w, h, params.bit_depth) as usize)
        } else {
            (r matches Err(e) && e is Image)
        }),
{
    let img = match decode_rgba(cover) {
        Ok(img) => img,
        Err(msg) => return Err(CloakError::Image(msg)),
    };
    let pixels: u64 = img.width as u64 * img.height as u64;
    assert(pixels * 3 * params.bit_depth <= 0x1_0000_0000_0000) by (nonlinear_arith)
        requires
            pixels <= decode_pixel_limit(),
            params.bit_depth <= 255,
    ;
    let bits: u64 = pixels * 3 * params.bit_depth as u64;
    if pixels * 3 > usize::MAX as u64 || bits > usize::MAX as u64 {
        return Err(CloakError::Image(String::from_str("image too large for this platform")));
    }
    Ok(max_payload_bytes(img.width, img.height, params.bit_depth))
}

/// Decode a cover, embed a payload with these parameters, and encode the result in a format.
pub(crate) fn encode_cover(
    params: &LsbParams,
    output_format: ImageFormat,
    cover: &[u8],
    payload: &[u8],
) -> (r: Result<Vec<u8>, CloakError>)
    requires
        eff_depth(params.bit_depth) <= 7,
    ensures
        decoded_rgba(cover@) is None ==> (r matches Err(e) && e is Image),
        decoded_rgba(cover@) matches Some((w, h, px)) ==> {
            &&& !dims_fit(w, h, eff_depth(params.bit_depth)) ==> (r matches Err(e) && e is Image)
            &&& dims_fit(w, h, eff_depth(params.bit_depth)) && !order_covers(params.pixel_order@, w * h)
                ==> (r matches Err(e) && e is CorruptedData)
            &&& params_fit(*params, w, h) && payload@.len() > spec_max_payload(
                w,
                h,
                eff_depth(params.bit_depth),
            ) ==> (r matches Err(e) && e is PayloadTooLarge)
            &&& params_fit(*params, w, h) && payload@.len() <= spec_max_payload(
                w,
                h,
                eff_depth(params.bit_depth),
            ) ==> (r is Ok || (r matches Err(e) && e is Image))
            &&& params_fit(*params, w, h) ==> (r matches Ok(out) ==> exists|pad: Seq<u8>|
                pad.len() == padded_len(payload@.len() as int) - payload@.len() && written_as(w, h, #[trigger] lsb_embed(px, (w * h) as nat, payload@, pad, params@), output_format, out@))
            &&& params_fit(*params, w, h) && (r matches Err(e) && e is Image) ==> encoder_refuses(
                params@,
                output_format,
                w,
                h,
                px,
                payload@,
            )
        },
{
    let img = match decode_rgba(cover) {
        Ok(img) => img,
        Err(msg) => return Err(CloakError::Image(msg)),
    };
    let bd: u8 = if params.bit_depth == 0 {
        1
    } else {
        params.bit_depth
    };
    if !fits_platform(img.width, img.height, bd) {
        return Err(CloakError::Image(String::from_str("image too large for this platform")));
    }
    let npix: usize = img.width as usize * img.height as usize;
    if !order_covers_image(&params.pixel_order, npix) {
        return Err(
            CloakError::CorruptedData(String::from_str("pixel order does not cover the image")),
        );
    }
    proof {
        assert(npix <= decode_pixel_limit());
        lemma_covering_order(
            params.pixel_order@,
            bd,
            8 * (4 + padded_len(payload@.len() as int)),
            npix as int,
            0,
        );
    }
    let r = embed_into(params, output_format, &img, payload);
    proof {
        let d = decoded_rgba(cover@)->Some_0;
        assert(d.0 == img.width && d.1 == img.height && d.2 == img.pixels@);
        if r is Ok {
            let out = r->Ok_0;
            let pad = choose|pad: Seq<u8>|
                pad.len() == padded_len(payload@.len() as int) - payload@.len() && written_as(
                    img.width,
                    img.height,
                    #[trigger] lsb_embed(
                        img.pixels@,
                        (img.width * img.height) as nat,
                        payload@,
                        pad,
                        params@,
                    ),
                    output_format,
                    out@,
                );
            assert(written_as(
                img.width,
                img.height,
                lsb_embed(img.pixels@, (img.width * img.height) as nat, payload@, pad, params@),
                output_format,
                out@,
            ));
        }
    }
    r
}

impl LsbCodec {
    pub fn new(params: LsbParams, output_format: ImageFormat) -> (r: Self)
        ensures
            r.params == params,
            r.output_format == output_format,
    {
        LsbCodec { params, output_format }
    }

    /// Embed payload into a pre-decoded image (avoids double decoding).
    pub fn encode_image(&self, img: &Raster, payload: &[u8]) -> (r: Result<Vec<u8>, CloakError>)
        requires
            img.wf(),
            dims_fit(img.width, img.height, eff_depth(self.params.bit_depth)),
            payload@.len() > spec_max_payload(img.width, img.height, eff_depth(self.params.bit_depth))
                || embed_ready(*img, payload@.len() as int, self.params@),
        ensures
            embeds_into(self.params, self.output_format, *img, payload@, r),
    {
        embed_into(&self.params, self.output_format, img, payload)
    }

    /// Extract payload from a pre-decoded image (avoids double decoding).
    pub fn decode_image(&self, img: &Raster) -> (r: Result<Vec<u8>, CloakError>)
        requires
            img.wf(),
            dims_fit(img.width, img.height, eff_depth(self.params.bit_depth)),
            eff_depth(self.params.bit_depth) <= 7 || carrier_bits(img.width, img.height, self.params@)
                < 32,
            extract_reads_ok(img.pixels@, img.width, img.height, self.params@),
        ensures
            r is Ok <==> lsb_extract(img.pixels@, img.width, img.height, self.params@) is Some,
            r matches Ok(v) ==> lsb_extract(img.pixels@, img.width, img.height, self.params@) == Some(
                v@,
            ),
            r matches Err(e) ==> e is CorruptedData,
    {
        extract_lsb(img, &self.params)
    }
}

impl Capacity for LsbCodec {
    fn capacity(&self, cover: &[u8]) -> (r: Result<usize, CloakError>)
        ensures
            decoded_rgba(cover@) is None ==> (r matches Err(e) && e is Image),
            decoded_rgba(cover@) matches Some((w, h, _px)) ==> (if w * h * 3 <= usize::MAX
                && spec_pixel_bits(w, h, self.params.bit_depth) <= usize::MAX {
                r == Ok::<usize, CloakError>(spec_max_payload(w, h, self.params.bit_depth) as usize)
            } else {
                (r matches Err(e) && e is Image)
            }),
    {
        cover_capacity(&self.params, cover)
    }
}

impl Encoder for LsbCodec {
    open spec fn encode_accepts(&self) -> bool {
        eff_depth(self.params.bit_depth) <= 7
    }

    fn encode(&self, cover: &[u8], payload: &[u8]) -> (r: Result<Vec<u8>, CloakError>)
        ensures
            decoded_rgba(cover@) is None ==> (r matches Err(e) && e is Image),
            decoded_rgba(cover@) matches Some((w, h, px)) ==> {
                &&& !dims_fit(w, h, eff_depth(self.params.bit_depth)) ==> (r matches Err(e) && e is Image)
                &&& dims_fit(w, h, eff_depth(self.params.bit_depth)) && !order_covers(
                    self.params.pixel_order@,
                    w * h,
                ) ==> (r matches Err(e) && e is CorruptedData)
                &&& codec_fits(*self, w, h) && payload@.len() > spec_max_payload(
                    w,
                    h,
                    eff_depth(self.params.bit_depth),
                ) ==> (r matches Err(e) && e is PayloadTooLarge)
                &&& codec_fits(*self, w, h) && payload@.len() <= spec_max_payload(
                    w,
                    h,
                    eff_depth(self.params.bit_depth),
                ) ==> (r is Ok || (r matches Err(e) && e is Image))
                &&& codec_fits(*self, w, h) ==> (r matches Ok(out) ==> exists|pad: Seq<u8>|
                    pad.len() == padded_len(payload@.len() as int) - payload@.len() && written_as(w, h, #[trigger] lsb_embed(px, (w * h) as nat, payload@, pad, self.params@), self.output_format, out@))
                &&& codec_fits(*self, w, h) && (r matches Err(e) && e is Image) ==> encoder_refuses(
                    self.params@,
                    self.output_format,
                    w,
                    h,
                    px,
                    payload@,
                )
            },
    {
        encode_cover(&self.params, self.output_format, cover, payload)
    }
}

impl Decoder for LsbCodec {
    open spec fn decode_accepts(&self) -> bool {
        eff_depth(self.params.bit_depth) <= 7
    }

    fn decode(&self, stego: &[u8]) -> (r: Result<Vec<u8>, CloakError>)
        ensures
            decoded_rgba(stego@) is None ==> (r matches Err(e) && e is Image),
            decoded_rgba(stego@) matches Some((w, h, px)) ==> {
                &&& !dims_fit(w, h, eff_depth(self.params.bit_depth)) ==> (r matches Err(e) && e is Image)
                &&& dims_fit(w, h, eff_depth(self.params.bit_depth)) && !order_covers(
                    self.params.pixel_order@,
                    w * h,
                ) ==> (r matches Err(e) && e is CorruptedData)
                &&& codec_fits(*self, w, h) ==> (r is Ok <==> lsb_extract(px, w, h, self.params@) is Some)
                &&& codec_fits(*self, w, h) ==> (r matches Ok(v) ==> lsb_extract(px, w, h, self.params@)
                    == Some(v@))
                &&& codec_fits(*self, w, h) ==> (r matches Err(e) ==> e is CorruptedData)
            },
    {
        let img = match decode_rgba(stego) {
            Ok(img) => img,
            Err(msg) => return Err(CloakError::Image(msg)),
        };
        let bd: u8 = if self.params.bit_depth == 0 {
            1
        } else {
            self.params.bit_depth
        };
        if !fits_platform(img.width, img.height, bd) {
            return Err(CloakError::Image(String::from_str("image too large for this platform")));
        }
        let npix: usize = img.width as usize * img.height as usize;
        if !order_covers_image(&self.params.pixel_order, npix) {
            return Err(
                CloakError::CorruptedData(String::from_str("pixel order does not cover the image")),
            );
        }
        proof {
            lemma_covering_order_extract(img.pixels@, img.width, img.height, self.params@);
        }
        self.decode_image(&img)
    }
}

} // verus!
