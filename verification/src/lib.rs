//! Steganography toolkit: passphrase-encrypted payloads hidden in the low
//! bits of image pixels, with format detection and capacity reporting.

pub mod analysis;
pub mod crypto;
pub mod error;
pub mod formats;
mod random;
pub mod raster;
pub mod traits;
pub mod viewer;

pub use error::CloakError;
pub use formats::lsb::LsbParams;
pub use formats::ImageFormat;
pub use formats::LsbCodec;
pub use traits::{Capacity, Decoder, Encoder};

use vstd::prelude::*;
use vstd::string::StringSliceAdditionalSpecFns;

use crate::crypto::{
    decrypt, encrypt, magic, overhead, overhead_len, spec_decrypt, spec_encrypt,
    wire_format, DecryptFailure,
};
use crate::error::{result_view, ErrorKind};
use crate::formats::lsb::{
    capacity_breakdown, derive_length_mask, generate_permutation, is_permutation, spec_length_mask,
    spec_max_payload, spec_permutation, spec_pixel_bits, spec_raw_capacity, CapacityBreakdown,
    PixelOrder,
};
use crate::formats::lsb_model::{
    carrier_bits, eff_depth, lemma_covering_order_extract, lemma_fitting_order, lemma_fitting_order_covers,
    order_fits,
    clear_mask, lemma_embed_keeps_high_bits, lemma_lsb_roundtrip, lsb_embed, lsb_extract, lsb_stream,
    padded_len, stream_bits, LsbSettings,
};
use crate::formats::{
    dims_fit, fits_platform, path_view, spec_detect, spec_is_lossy, spec_output_format, written_as,
};
use crate::raster::{decode_pixel_limit, decode_rgba, decoded_rgba, encoded_image, reads_back};

verus! {

/// Options controlling embedding behavior.
#[derive(Debug, Clone, Copy)]
pub struct EmbedOptions {
    /// Number of bits per channel (1-4). Default: 1.
    pub bit_depth: u8,
    /// Use randomized pixel traversal order. Default: false.
    pub randomized: bool,
}

impl Default for EmbedOptions {
    fn default() -> (r: Self)
        ensures
            r.bit_depth == 0,
            !r.randomized,
    {
        EmbedOptions { bit_depth: 0, randomized: false }
    }
}

/// The embedding settings the options give for a passphrase and a pixel count.
pub open spec fn spec_settings(opts: EmbedOptions, password: Seq<u8>, npix: nat) -> LsbSettings {
    LsbSettings {
        bit_depth: eff_depth(opts.bit_depth),
        order: if opts.randomized {
            Some(spec_permutation(password, npix))
        } else {
            None
        },
        mask: spec_length_mask(password),
    }
}

impl EmbedOptions {
    fn lsb_params(&self, passphrase: Option<&str>, pixel_count: usize) -> (r: Result<
        LsbParams,
        CloakError,
    >)
        ensures
            r matches Ok(p) ==> p.bit_depth == eff_depth(self.bit_depth) && p.length_mask@ == seq![
                0u8,
                0u8,
                0u8,
                0u8,
            ],
            r matches Ok(p) ==> (if self.randomized {
                passphrase matches Some(pw) && p.pixel_order@ == Some(
                    spec_permutation(pw.spec_bytes(), pixel_count as nat),
                ) && is_permutation(spec_permutation(pw.spec_bytes(), pixel_count as nat), pixel_count as nat)
            } else {
                p.pixel_order@ == None::<Seq<usize>>
            }),
            self.randomized && passphrase is None ==> (r matches Err(e) && e is MissingPassphrase),
            self.randomized ==> (passphrase matches Some(pw) ==> (r is Ok <==> pw.spec_bytes().len()
                <= 0xFFFF_FFFF)),
            !self.randomized ==> r is Ok,
            r matches Err(e) ==> e is MissingPassphrase || e is CorruptedData,
            passphrase is Some ==> (r matches Err(e) ==> e is CorruptedData),
    {
        let pixel_order = if self.randomized {
            let passphrase = match passphrase {
                Some(p) => p,
                None => return Err(CloakError::MissingPassphrase),
            };
            PixelOrder::Randomized(generate_permutation(passphrase, pixel_count)?)
        } else {
            PixelOrder::Sequential
        };
        let bit_depth: u8 = if self.bit_depth == 0 {
            1
        } else {
            self.bit_depth
        };
        Ok(LsbParams { bit_depth, pixel_order, length_mask: [0u8; 4] })
    }

    fn lsb_params_no_rand(&self) -> (r: LsbParams)
        ensures
            r.bit_depth == eff_depth(self.bit_depth),
            r.pixel_order@ == None::<Seq<usize>>,
            r.length_mask@ == seq![0u8, 0u8, 0u8, 0u8],
    {
        let bit_depth: u8 = if self.bit_depth == 0 {
            1
        } else {
            self.bit_depth
        };
        LsbParams { bit_depth, pixel_order: PixelOrder::Sequential, length_mask: [0u8; 4] }
    }
}

/// The kind of error a decryption failure is reported as.
pub open spec fn failure_kind(f: DecryptFailure) -> ErrorKind {
    match f {
        DecryptFailure::Corrupted => ErrorKind::CorruptedData,
        DecryptFailure::Version(v) => ErrorKind::UnsupportedVersion(v),
        DecryptFailure::Passphrase => ErrorKind::InvalidPassphrase,
    }
}

/// What extraction gives back for a stego file, a passphrase, a path hint and options.
pub open spec fn spec_extract(
    stego: Seq<u8>,
    password: Seq<u8>,
    path: Option<Seq<char>>,
    opts: EmbedOptions,
) -> Result<Seq<u8>, ErrorKind> {
    match spec_detect(stego, path) {
        Err(_) => Err(ErrorKind::UnsupportedFormat),
        Ok(f) => if spec_is_lossy(f) {
            Err(ErrorKind::UnsupportedFormat)
        } else {
            match decoded_rgba(stego) {
                None => Err(ErrorKind::Image),
                Some((w, h, px)) => if !dims_fit(w, h, eff_depth(opts.bit_depth)) {
                    Err(ErrorKind::Image)
                } else if opts.randomized && password.len() > 0xFFFF_FFFF {
                    Err(ErrorKind::CorruptedData)
                } else {
                    match lsb_extract(px, w, h, spec_settings(opts, password, (w * h) as nat)) {
                        None => Err(ErrorKind::CorruptedData),
                        Some(enc) => match spec_decrypt(enc, password) {
                            Ok(p) => Ok(p),
                            Err(f) => Err(failure_kind(f)),
                        },
                    }
                },
            }
        },
    }
}

/// The failures of embedding that do not depend on randomness, in the order
/// they are checked; `None` where all checks pass.
pub open spec fn spec_embed_precheck(
    cover: Seq<u8>,
    data_len: int,
    password: Seq<u8>,
    path: Option<Seq<char>>,
    opts: EmbedOptions,
) -> Option<ErrorKind> {
    if password.len() > 0xFFFF_FFFF || data_len / 64 >= u32::MAX {
        Some(ErrorKind::CorruptedData)
    } else {
        match spec_detect(cover, path) {
            Err(_) => Some(ErrorKind::UnsupportedFormat),
            Ok(_) => match decoded_rgba(cover) {
                None => Some(ErrorKind::Image),
                Some((w, h, _px)) => if !dims_fit(w, h, eff_depth(opts.bit_depth)) {
                    Some(ErrorKind::Image)
                } else if data_len + overhead_len() > spec_max_payload(w, h, eff_depth(opts.bit_depth)) {
                    Some(
                        ErrorKind::PayloadTooLarge {
                            needed: (data_len + overhead_len()) as usize,
                            capacity: spec_max_payload(w, h, eff_depth(opts.bit_depth)) as usize,
                        },
                    )
                } else {
                    None
                },
            },
        }
    }
}

/// The stego file written for an encrypted payload `enc` padded with `pad`.
pub open spec fn spec_embed_image(
    cover: Seq<u8>,
    enc: Seq<u8>,
    pad: Seq<u8>,
    password: Seq<u8>,
    path: Option<Seq<char>>,
    opts: EmbedOptions,
) -> Option<Seq<u8>> {
    let f = spec_detect(cover, path)->Ok_0;
    let img = decoded_rgba(cover)->Some_0;
    let npix = (img.0 * img.1) as nat;
    encoded_image(
        img.0,
        img.1,
        lsb_embed(img.2, npix, enc, pad, spec_settings(opts, password, npix)),
        spec_output_format(f),
    )
}

/// The image codec gives back, for this file, the pixels it was written from.
pub open spec fn decodes_as_written(file: Seq<u8>) -> bool {
    forall|w: u32, h: u32, px: Seq<u8>, f: ImageFormat|
        #[trigger] encoded_image(w, h, px, f) == Some(file) ==> decoded_rgba(file) == Some((w, h, px))
}

/// The stego image of this cover is written in a format, at a size, that the
/// image codec reads back unchanged (see `reads_back`).
pub open spec fn stego_format_reads_back(cover: Seq<u8>, path: Option<Seq<char>>) -> bool {
    spec_detect(cover, path) matches Ok(f) && decoded_rgba(cover) matches Some((w, h, _px)) && reads_back(
        w,
        h,
        spec_output_format(f),
    )
}

/// The stego file of this cover decodes to the pixels it was written from:
/// known within the bounds of `reads_back`, assumed beyond them.
pub open spec fn stego_reads_back(cover: Seq<u8>, stego: Seq<u8>, path: Option<Seq<char>>) -> bool {
    decodes_as_written(stego) || stego_format_reads_back(cover, path)
}

/// The image codec refuses the stego image that embedding `data` would write:
/// for some salt and nonce of encryption and some padding of the padded length,
/// encoding the embedded pixels fails.
pub open spec fn encoder_refused(
    cover: Seq<u8>,
    data: Seq<u8>,
    password: Seq<u8>,
    path: Option<Seq<char>>,
    opts: EmbedOptions,
) -> bool {
    exists|salt: Seq<u8>, nonce: Seq<u8>, pad: Seq<u8>|
        #![trigger spec_encrypt(data, password, salt, nonce), spec_embed_image(cover, spec_encrypt(data, password, salt, nonce)->Some_0, pad, password, path, opts)]
        salt.len() == 16 && nonce.len() == 12 && spec_encrypt(data, password, salt, nonce) is Some
            && pad.len() == padded_len(data.len() + overhead_len()) - (data.len() + overhead_len())
            && spec_embed_image(
            cover,
            spec_encrypt(data, password, salt, nonce)->Some_0,
            pad,
            password,
            path,
            opts,
        ) is None
}

/// What a stego file holds once decoded: the cover's dimensions; pixels that
/// differ from the cover's only in the low bits of R, G and B (alpha and all
/// higher bits kept); and, carried in those bits, the encryption of the data:
/// magic first, the overhead longer than the data, decrypting back to it.
pub open spec fn stego_holds(
    cover: Seq<u8>,
    stego: Seq<u8>,
    data: Seq<u8>,
    password: Seq<u8>,
    opts: EmbedOptions,
) -> bool {
    match (decoded_rgba(cover), decoded_rgba(stego)) {
        (Some((w, h, cpx)), Some((w2, h2, px))) => {
            let bd = eff_depth(opts.bit_depth);
            &&& w2 == w && h2 == h && px.len() == cpx.len()
            &&& forall|idx: int|
                0 <= idx < px.len() ==> (#[trigger] px[idx] & clear_mask(bd)) == cpx[idx] & clear_mask(bd)
                    && (idx % 4 == 3 ==> px[idx] == cpx[idx])
            &&& lsb_extract(px, w, h, spec_settings(opts, password, (w * h) as nat)) matches Some(enc)
                && enc.len() == data.len() + overhead_len() && enc.subrange(0, 4) == magic()
                && spec_decrypt(enc, password) == Ok::<Seq<u8>, DecryptFailure>(data)
        },
        _ => false,
    }
}

/// What the LSB codec encodes, it decodes: a payload within capacity, embedded
/// along a traversal that visits each pixel once into an image with room for
/// the length header, is extracted back from the written file when its format
/// and size are within the bounds of `reads_back` (PNG, BMP, TIFF), or
/// otherwise whenever the image codec decodes the file to the pixels it wrote.
pub proof fn lemma_codec_roundtrip(
    px: Seq<u8>,
    w: u32,
    h: u32,
    payload: Seq<u8>,
    pad: Seq<u8>,
    s: LsbSettings,
    fmt: ImageFormat,
    file: Seq<u8>,
)
    requires
        px.len() == 4 * (w * h),
        1 <= eff_depth(s.bit_depth) <= 7,
        order_fits(s.order, (w * h) as nat),
        carrier_bits(w, h, s) >= 32,
        payload.len() <= spec_max_payload(w, h, eff_depth(s.bit_depth)),
        payload.len() <= u32::MAX,
        written_as(w, h, lsb_embed(px, (w * h) as nat, payload, pad, s), fmt, file),
        decodes_as_written(file) || reads_back(w, h, fmt),
    ensures
        decoded_rgba(file) matches Some((w2, h2, px2)) && w2 == w && h2 == h && lsb_extract(px2, w2, h2, s)
            == Some(payload),
{
    let bd = eff_depth(s.bit_depth);
    let written = lsb_embed(px, (w * h) as nat, payload, pad, s);
    assert(decoded_rgba(file) == Some((w, h, written)));
    lemma_fitting_order(s.order, bd, stream_bits(lsb_stream(payload, s.mask, pad)), (w * h) as nat, 0);
    assert(spec_pixel_bits(w, h, bd) == w * h * (3 * bd)) by (nonlinear_arith);
    assert(spec_max_payload(w, h, bd) <= spec_raw_capacity(w, h, bd));
    assert(32 + 8 * payload.len() <= carrier_bits(w, h, s));
    lemma_lsb_roundtrip(px, w, h, payload, pad, s);
}

/// Embed encrypted payload into a cover image.
pub fn embed(
    cover: &[u8],
    data: &[u8],
    passphrase: &str,
    path: Option<&str>,
    options: &EmbedOptions,
) -> (r: Result<Vec<u8>, CloakError>)
    requires
        options.bit_depth <= 7,
    ensures
        spec_embed_precheck(cover@, data@.len() as int, passphrase.spec_bytes(), path_view(path), *options)
            matches Some(k) ==> (r matches Err(e) && e.kind() == k),
        spec_embed_precheck(cover@, data@.len() as int, passphrase.spec_bytes(), path_view(path), *options)
            is None ==> (r is Ok || (r matches Err(e) && e is Image && encoder_refused(
            cover@,
            data@,
            passphrase.spec_bytes(),
            path_view(path),
            *options,
        ))),
        r matches Ok(stego) ==> exists|salt: Seq<u8>, nonce: Seq<u8>, pad: Seq<u8>|
            #![trigger spec_encrypt(data@, passphrase.spec_bytes(), salt, nonce), spec_embed_image(cover@, spec_encrypt(data@, passphrase.spec_bytes(), salt, nonce)->Some_0, pad, passphrase.spec_bytes(), path_view(path), *options)]
            salt.len() == 16 && nonce.len() == 12 && spec_encrypt(
                data@,
                passphrase.spec_bytes(),
                salt,
                nonce,
            ) is Some && spec_embed_image(
                cover@,
                spec_encrypt(data@, passphrase.spec_bytes(), salt, nonce)->Some_0,
                pad,
                passphrase.spec_bytes(),
                path_view(path),
                *options,
            ) == Some(stego@),
        r matches Ok(stego) ==> spec_detect(stego@, None) == Ok::<ImageFormat, Seq<char>>(
            spec_output_format(spec_detect(cover@, path_view(path))->Ok_0),
        ),
        r matches Ok(stego) ==> (stego_reads_back(cover@, stego@, path_view(path)) ==> spec_extract(
            stego@,
            passphrase.spec_bytes(),
            None,
            *options,
        ) == Ok::<Seq<u8>, ErrorKind>(data@)),
        r matches Ok(stego) ==> (stego_reads_back(cover@, stego@, path_view(path)) ==> stego_holds(
            cover@,
            stego@,
            data@,
            passphrase.spec_bytes(),
            *options,
        )),
        r matches Ok(stego) ==> forall|path2: Option<Seq<char>>|
            stego_reads_back(cover@, stego@, path_view(path)) && (#[trigger] spec_detect(stego@, path2) matches Ok(
                f,
            ) && !spec_is_lossy(f)) ==> spec_extract(stego@, passphrase.spec_bytes(), path2, *options)
                == Ok::<Seq<u8>, ErrorKind>(data@),
{
    let encrypted = encrypt(data, passphrase)?;
    let format = ImageFormat::detect(cover, path)?;

    // Decode once; the codec reuses the decoded image directly.
    let img = match decode_rgba(cover) {
        Ok(img) => img,
        Err(msg) => return Err(CloakError::Image(msg)),
    };
    let bd: u8 = if options.bit_depth == 0 {
        1
    } else {
        options.bit_depth
    };
    if !fits_platform(img.width, img.height, bd) {
        return Err(CloakError::Image(String::from_str("image too large for this platform")));
    }
    let pixel_count: usize = img.width as usize * img.height as usize;
    let mut params = options.lsb_params(Some(passphrase), pixel_count)?;
    params.length_mask = derive_length_mask(passphrase);

    let ghost pw = passphrase.spec_bytes();
    let ghost npix: nat = pixel_count as nat;
    assert(params@ == spec_settings(*options, pw, npix));
    proof {
        lemma_fitting_order(params@.order, bd, 8 * (4 + padded_len(encrypted@.len() as int)), npix, 0);
    }
    let output_format = format.output_format();
    let codec = LsbCodec::new(params, output_format);
    let r = codec.encode_image(&img, &encrypted);
    proof {
        let d = decoded_rgba(cover@)->Some_0;
        assert(d.0 == img.width && d.1 == img.height && d.2 == img.pixels@);
        assert(encrypted@.len() == data@.len() + overhead_len());
        if spec_embed_precheck(cover@, data@.len() as int, pw, path_view(path), *options) is None {
            assert(encrypted@.len() <= spec_max_payload(img.width, img.height, bd));
            assert(r is Ok || (r matches Err(e) && e is Image));
            if r is Err && r->Err_0 is Image {
                let (salt, nonce) = choose|salt: Seq<u8>, nonce: Seq<u8>|
                    #![trigger wire_format(salt, nonce, encrypted@.subrange(33, encrypted@.len() as int))]
                    salt.len() == 16 && nonce.len() == 12 && spec_encrypt(data@, pw, salt, nonce) == Some(
                        encrypted@,
                    ) && wire_format(salt, nonce, encrypted@.subrange(33, encrypted@.len() as int))
                        == encrypted@;
                let pad = choose|pad: Seq<u8>|
                    pad.len() == padded_len(encrypted@.len() as int) - encrypted@.len() && encoded_image(
                        img.width,
                        img.height,
                        #[trigger] lsb_embed(img.pixels@, npix, encrypted@, pad, params@),
                        output_format,
                    ) is None;
                assert(spec_embed_image(cover@, encrypted@, pad, pw, path_view(path), *options) is None);
                assert(spec_encrypt(data@, pw, salt, nonce)->Some_0 == encrypted@);
                assert(spec_embed_image(
                    cover@,
                    spec_encrypt(data@, pw, salt, nonce)->Some_0,
                    pad,
                    pw,
                    path_view(path),
                    *options,
                ) is None);
            }
        }
        if r is Ok {
            let stego = r->Ok_0;
            let (salt, nonce) = choose|salt: Seq<u8>, nonce: Seq<u8>|
                #![trigger wire_format(salt, nonce, encrypted@.subrange(33, encrypted@.len() as int))]
                salt.len() == 16 && nonce.len() == 12 && spec_encrypt(data@, pw, salt, nonce) == Some(
                    encrypted@,
                ) && wire_format(salt, nonce, encrypted@.subrange(33, encrypted@.len() as int))
                    == encrypted@;
            let pad = choose|pad: Seq<u8>|
                pad.len() == padded_len(encrypted@.len() as int) - encrypted@.len() && written_as(
                    img.width,
                    img.height,
                    #[trigger] lsb_embed(img.pixels@, npix, encrypted@, pad, params@),
                    output_format,
                    stego@,
                );
            assert(spec_embed_image(cover@, encrypted@, pad, pw, path_view(path), *options) == Some(
                stego@,
            ));
            assert(spec_encrypt(data@, pw, salt, nonce)->Some_0 == encrypted@);
            assert(spec_embed_image(
                cover@,
                spec_encrypt(data@, pw, salt, nonce)->Some_0,
                pad,
                pw,
                path_view(path),
                *options,
            ) == Some(stego@));
            let written = lsb_embed(img.pixels@, npix, encrypted@, pad, params@);
            if stego_reads_back(cover@, stego@, path_view(path)) {
                assert(encoded_image(img.width, img.height, written, output_format) == Some(stego@));
                assert(decoded_rgba(stego@) == Some((img.width, img.height, written)));
                assert(encrypted@.len() <= u32::MAX) by {
                    assert(spec_max_payload(img.width, img.height, bd) <= spec_raw_capacity(
                        img.width,
                        img.height,
                        bd,
                    ));
                    assert(spec_pixel_bits(img.width, img.height, bd) <= decode_pixel_limit() * 21)
                        by (nonlinear_arith)
                        requires
                            img.width * img.height <= decode_pixel_limit(),
                            bd <= 7,
                    ;
                }
                let bytes = lsb_stream(encrypted@, params@.mask, pad);
                lemma_fitting_order(params@.order, bd, stream_bits(bytes), npix, 0);
                assert(encrypted@.len() <= spec_max_payload(img.width, img.height, bd));
                assert(spec_pixel_bits(img.width, img.height, bd) == img.width * img.height * (3 * bd))
                    by (nonlinear_arith);
                assert(spec_max_payload(img.width, img.height, bd) <= spec_raw_capacity(
                    img.width,
                    img.height,
                    bd,
                ));
                assert(32 + 8 * encrypted@.len() <= carrier_bits(img.width, img.height, params@));
                lemma_lsb_roundtrip(img.pixels@, img.width, img.height, encrypted@, pad, params@);
                lemma_embed_keeps_high_bits(img.pixels@, bytes, bd, params@.order, npix, npix as int);
                assert(encrypted@.subrange(0, 4) =~= magic()) by {
                    assert(wire_format(salt, nonce, encrypted@.subrange(33, encrypted@.len() as int))
                        == encrypted@);
                }
                assert(stego_holds(cover@, stego@, data@, pw, *options));
                assert forall|path2: Option<Seq<char>>|
                    stego_reads_back(cover@, stego@, path_view(path)) && (#[trigger] spec_detect(
                        stego@,
                        path2,
                    ) matches Ok(f) && !spec_is_lossy(f)) implies spec_extract(stego@, pw, path2, *options) == Ok::<
                    Seq<u8>,
                    ErrorKind,
                >(data@) by {}
            }
        }
    }
    r
}

/// Extract and decrypt payload from a stego image.
pub fn extract(stego: &[u8], passphrase: &str, path: Option<&str>, options: &EmbedOptions) -> (r:
    Result<Vec<u8>, CloakError>)
    requires
        options.bit_depth <= 7,
    ensures
        result_view(r) == spec_extract(stego@, passphrase.spec_bytes(), path_view(path), *options),
{
    let format = ImageFormat::detect(stego, path)?;

    match format {
        ImageFormat::Jpeg | ImageFormat::WebP | ImageFormat::Gif => {
            return Err(
                CloakError::UnsupportedFormat(
                    String::from_str(
                        "stego images from lossy covers are PNG \u{2014} extract from the PNG output",
                    ),
                ),
            );
        },
        _ => {},
    }

    // Decode once; the codec reuses the decoded image directly.
    let img = match decode_rgba(stego) {
        Ok(img) => img,
        Err(msg) => return Err(CloakError::Image(msg)),
    };
    let bd: u8 = if options.bit_depth == 0 {
        1
    } else {
        options.bit_depth
    };
    if !fits_platform(img.width, img.height, bd) {
        return Err(CloakError::Image(String::from_str("image too large for this platform")));
    }
    let pixel_count: usize = img.width as usize * img.height as usize;
    let mut params = options.lsb_params(Some(passphrase), pixel_count)?;
    params.length_mask = derive_length_mask(passphrase);

    let ghost pw = passphrase.spec_bytes();
    assert(params@ == spec_settings(*options, pw, pixel_count as nat));
    proof {
        let d = decoded_rgba(stego@)->Some_0;
        assert(d.0 == img.width && d.1 == img.height && d.2 == img.pixels@);
        lemma_fitting_order(params@.order, bd, 0, pixel_count as nat, 0);
        lemma_fitting_order_covers(params@.order, pixel_count as nat);
        lemma_covering_order_extract(img.pixels@, img.width, img.height, params@);
    }
    let encrypted = LsbCodec::new(params, format).decode_image(&img)?;
    decrypt(&encrypted, passphrase)
}

/// What capacity measurement gives for a cover, a path hint and options: the
/// payload bytes the cover takes after encryption overhead, or the kind of error.
pub open spec fn spec_capacity_of(cover: Seq<u8>, path: Option<Seq<char>>, opts: EmbedOptions) -> Result<
    int,
    ErrorKind,
> {
    match spec_detect(cover, path) {
        Err(_) => Err(ErrorKind::UnsupportedFormat),
        Ok(_) => match decoded_rgba(cover) {
            None => Err(ErrorKind::Image),
            Some((w, h, _px)) => if capacity_fits(w, h, eff_depth(opts.bit_depth)) {
                Ok(spec_capacity(w, h, opts))
            } else {
                Err(ErrorKind::Image)
            },
        },
    }
}

/// Get the maximum payload capacity in bytes (after encryption overhead).
pub fn capacity(cover: &[u8], path: Option<&str>, options: &EmbedOptions) -> (r: Result<
    usize,
    CloakError,
>)
    ensures
        match r {
            Ok(c) => spec_capacity_of(cover@, path_view(path), *options) == Ok::<int, ErrorKind>(c as int),
            Err(e) => spec_capacity_of(cover@, path_view(path), *options) == Err::<int, ErrorKind>(e.kind()),
        },
{
    let format = ImageFormat::detect(cover, path)?;
    // Capacity doesn't need randomization
    let params = options.lsb_params_no_rand();
    let codec = LsbCodec::new(params, format);
    let raw_capacity = codec.capacity(cover)?;
    Ok(raw_capacity.saturating_sub(overhead()))
}

/// The capacity arithmetic of a `w` x `h` image at depth `bd` fits the platform's `usize`.
pub open spec fn capacity_fits(w: u32, h: u32, bd: u8) -> bool {
    w * h * 3 <= usize::MAX && spec_pixel_bits(w, h, bd) <= usize::MAX
}

/// Payload bytes a cover takes at the options' bit depth, after encryption overhead.
pub open spec fn spec_capacity(w: u32, h: u32, opts: EmbedOptions) -> int {
    let raw = spec_max_payload(w, h, eff_depth(opts.bit_depth));
    if raw < overhead_len() {
        0
    } else {
        raw - overhead_len()
    }
}

/// The capacity of a cover in detail: its dimensions, the bit depth used, the
/// breakdown of its carrier bits, and the payload bytes left after encryption overhead.
#[derive(Debug, Clone)]
pub struct CapacityReport {
    pub width: u32,
    pub height: u32,
    pub bit_depth: u8,
    pub breakdown: CapacityBreakdown,
    /// Payload bytes usable after encryption overhead.
    pub usable_bytes: usize,
}

/// What a capacity report says of a cover, as plain values: width, height,
/// bit depth and usable bytes, or the kind of error.
pub open spec fn spec_report_of(cover: Seq<u8>, path: Option<Seq<char>>, opts: EmbedOptions) -> Result<
    (u32, u32, u8, int),
    ErrorKind,
> {
    match spec_detect(cover, path) {
        Err(_) => Err(ErrorKind::UnsupportedFormat),
        Ok(_) => match decoded_rgba(cover) {
            None => Err(ErrorKind::Image),
            Some((w, h, _px)) => if capacity_fits(w, h, eff_depth(opts.bit_depth)) {
                Ok((w, h, eff_depth(opts.bit_depth), spec_capacity(w, h, opts)))
            } else {
                Err(ErrorKind::Image)
            },
        },
    }
}

/// Detailed capacity of a cover: the breakdown at the options' bit depth and
/// the payload bytes left after encryption overhead.
pub fn capacity_report(cover: &[u8], path: Option<&str>, options: &EmbedOptions) -> (r: Result<
    CapacityReport,
    CloakError,
>)
    ensures
        match r {
            Ok(rep) => {
                &&& spec_report_of(cover@, path_view(path), *options) == Ok::<(u32, u32, u8, int), ErrorKind>(
                    (rep.width, rep.height, rep.bit_depth, rep.usable_bytes as int),
                )
                &&& rep.breakdown.total_pixel_bits == spec_pixel_bits(rep.width, rep.height, rep.bit_depth)
                &&& rep.breakdown.length_header_bits == 32
                &&& rep.breakdown.raw_capacity_bytes == spec_raw_capacity(rep.width, rep.height, rep.bit_depth)
                &&& rep.breakdown.full_pad_blocks == spec_raw_capacity(rep.width, rep.height, rep.bit_depth) / 64
                &&& rep.breakdown.usable_bytes == spec_max_payload(rep.width, rep.height, rep.bit_depth)
            },
            Err(e) => spec_report_of(cover@, path_view(path), *options) == Err::<(u32, u32, u8, int), ErrorKind>(
                e.kind(),
            ),
        },
{
    let _format = ImageFormat::detect(cover, path)?;
    let img = match decode_rgba(cover) {
        Ok(img) => img,
        Err(msg) => return Err(CloakError::Image(msg)),
    };
    let bit_depth: u8 = if options.bit_depth == 0 {
        1
    } else {
        options.bit_depth
    };
    let pixels: u64 = img.width as u64 * img.height as u64;
    assert(pixels * 3 * bit_depth <= 0x1_0000_0000_0000) by (nonlinear_arith)
        requires
            pixels <= decode_pixel_limit(),
            bit_depth <= 255,
    ;
    let bits: u64 = pixels * 3 * bit_depth as u64;
    if pixels * 3 > usize::MAX as u64 || bits > usize::MAX as u64 {
        return Err(CloakError::Image(String::from_str("image too large for this platform")));
    }
    let breakdown = capacity_breakdown(img.width, img.height, bit_depth);
    let usable_bytes = breakdown.usable_bytes.saturating_sub(overhead());
    Ok(CapacityReport { width: img.width, height: img.height, bit_depth, breakdown, usable_bytes })
}

// ---------------------------------------------------------------------------
// Laws of capacity
// ---------------------------------------------------------------------------

/// The capacity of a cover is the usable bytes of its capacity report.
pub proof fn lemma_report_agrees_with_capacity(cover: Seq<u8>, path: Option<Seq<char>>, opts: EmbedOptions)
    ensures
        match spec_capacity_of(cover, path, opts) {
            Ok(c) => spec_report_of(cover, path, opts) matches Ok(rep) && rep.3 == c,
            Err(k) => spec_report_of(cover, path, opts) == Err::<(u32, u32, u8, int), ErrorKind>(k),
        },
{
}

/// Capacity does not depend on whether the traversal is randomized.
pub proof fn lemma_capacity_ignores_randomization(
    cover: Seq<u8>,
    path: Option<Seq<char>>,
    a: EmbedOptions,
    b: EmbedOptions,
)
    requires
        a.bit_depth == b.bit_depth,
    ensures
        spec_capacity_of(cover, path, a) == spec_capacity_of(cover, path, b),
{
}

/// Usable payload never decreases as the bit depth grows.
pub proof fn lemma_max_payload_monotone(w: u32, h: u32, bd1: u8, bd2: u8)
    requires
        bd1 <= bd2,
    ensures
        spec_max_payload(w, h, bd1) <= spec_max_payload(w, h, bd2),
{
    lemma_max_payload_monotone_dims(w, h, bd1, w, h, bd2);
}

/// Usable payload never decreases as the width, the height or the bit depth grows.
pub proof fn lemma_max_payload_monotone_dims(w1: u32, h1: u32, bd1: u8, w2: u32, h2: u32, bd2: u8)
    requires
        w1 <= w2,
        h1 <= h2,
        bd1 <= bd2,
    ensures
        spec_max_payload(w1, h1, bd1) <= spec_max_payload(w2, h2, bd2),
{
    assert(spec_pixel_bits(w1, h1, bd1) <= spec_pixel_bits(w2, h2, bd2)) by (nonlinear_arith)
        requires
            w1 <= w2,
            h1 <= h2,
            bd1 <= bd2,
    ;
    let r1 = spec_raw_capacity(w1, h1, bd1);
    let r2 = spec_raw_capacity(w2, h2, bd2);
    assert(r1 <= r2);
    assert((r1 / 64) * 64 <= (r2 / 64) * 64) by (nonlinear_arith)
        requires
            0 <= r1 <= r2,
    ;
    assert((r2 / 64) * 64 <= r2) by (nonlinear_arith)
        requires
            r2 >= 0,
    ;
    assert(r2 / 64 != 0 ==> (r2 / 64) * 64 >= 64) by (nonlinear_arith)
        requires
            r2 >= 0,
    ;
}

/// Usable payload is at most the raw capacity, and it is either below one
/// padding block or a whole number of blocks.
pub proof fn lemma_max_payload_shape(w: u32, h: u32, bd: u8)
    ensures
        spec_max_payload(w, h, bd) <= spec_raw_capacity(w, h, bd),
        spec_max_payload(w, h, bd) < 64 || spec_max_payload(w, h, bd) % 64 == 0,
{
    let raw = spec_raw_capacity(w, h, bd);
    assert(w * h * 3 * bd >= 0) by (nonlinear_arith);
    assert(raw >= 0);
    assert((raw / 64) * 64 <= raw) by (nonlinear_arith)
        requires
            raw >= 0,
    ;
    assert(((raw / 64) * 64) % 64 == 0) by (nonlinear_arith);
}

/// The capacity of a cover never decreases as the bit depth grows.
pub proof fn lemma_capacity_monotone(w: u32, h: u32, a: EmbedOptions, b: EmbedOptions)
    requires
        eff_depth(a.bit_depth) <= eff_depth(b.bit_depth),
    ensures
        spec_capacity(w, h, a) <= spec_capacity(w, h, b),
{
    lemma_max_payload_monotone(w, h, eff_depth(a.bit_depth), eff_depth(b.bit_depth));
}

/// Usable payload never exceeds the bytes that the carrier bits could hold.
pub proof fn lemma_max_payload_within_carrier(w: u32, h: u32, bd: u8)
    ensures
        spec_max_payload(w, h, bd) <= spec_pixel_bits(w, h, bd) / 8,
{
    let bits = spec_pixel_bits(w, h, bd);
    assert(w * h * 3 * bd >= 0) by (nonlinear_arith);
    let raw = spec_raw_capacity(w, h, bd);
    assert(raw <= bits / 8);
    assert((raw / 64) * 64 <= raw) by (nonlinear_arith)
        requires
            raw >= 0,
    ;
}

/// A payload that fits the reported capacity passes the size check of
/// embedding; one larger than it does not. (A cover whose usable bytes are
/// fewer than the encryption overhead reports zero and takes no payload at all.)
pub proof fn lemma_capacity_bounds_embedding(
    cover: Seq<u8>,
    path: Option<Seq<char>>,
    password: Seq<u8>,
    opts: EmbedOptions,
    n: int,
)
    requires
        0 <= n,
        password.len() <= 0xFFFF_FFFF,
        n / 64 < u32::MAX,
        spec_capacity_of(cover, path, opts) is Ok,
        decoded_rgba(cover) matches Some((w, h, _px)) && dims_fit(w, h, eff_depth(opts.bit_depth)),
    ensures
        ({
            let c = spec_capacity_of(cover, path, opts)->Ok_0;
            let (w, h, _px) = decoded_rgba(cover)->Some_0;
            &&& n <= c && spec_max_payload(w, h, eff_depth(opts.bit_depth)) >= overhead_len()
                ==> spec_embed_precheck(cover, n, password, path, opts) is None
            &&& n > c ==> (spec_embed_precheck(cover, n, password, path, opts) matches Some(k)
                && k is PayloadTooLarge)
        }),
{
}

} // verus!
