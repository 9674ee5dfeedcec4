//! Passphrase encryption: Argon2id key derivation and ChaCha20-Poly1305,
//! in the wire format `[CLOK][version:1][salt:16][nonce:12][ciphertext+tag]`.

use vstd::prelude::*;
use vstd::string::StringSliceAdditionalSpecFns;

use argon2::Argon2;
use chacha20poly1305::aead::{Aead, OsRng};
use chacha20poly1305::{AeadCore, ChaCha20Poly1305, KeyInit};
use rand::RngCore;

use crate::error::CloakError;

verus! {

/// Length of the random salt.
pub const SALT_LEN: usize = 16;

/// Length of the ChaCha20-Poly1305 nonce.
pub const NONCE_LEN: usize = 12;

/// Length of the derived key.
pub const KEY_LEN: usize = 32;

/// Header size: magic(4) + version(1) + salt(16) + nonce(12) = 33
pub const HEADER_LEN: usize = 33;

/// Length of the Poly1305 authentication tag.
pub const TAG_LEN: usize = 16;

/// The version byte this library writes.
pub const VERSION: u8 = 1;

/// The magic bytes `CLOK`.
pub open spec fn magic() -> Seq<u8> {
    seq![0x43u8, 0x4Cu8, 0x4Fu8, 0x4Bu8]
}

// ---------------------------------------------------------------------------
// Outside primitives
// ---------------------------------------------------------------------------

/// The 32-byte Argon2id hash (default parameters) of a password with a salt.
pub uninterp spec fn argon2id_key(password: Seq<u8>, salt: Seq<u8>) -> Seq<u8>;

/// The ChaCha20-Poly1305 ciphertext with appended tag, no associated data.
pub uninterp spec fn chacha_seal(key: Seq<u8>, nonce: Seq<u8>, plaintext: Seq<u8>) -> Seq<u8>;

/// ChaCha20-Poly1305 decryption: the plaintext, or `None` where the tag does not verify.
pub uninterp spec fn chacha_open(key: Seq<u8>, nonce: Seq<u8>, ciphertext: Seq<u8>) -> Option<Seq<u8>>;

/// Calls `Argon2::default().hash_password_into` with a 32-byte output.
/// Claims: with a salt of 8 to 2^32-1 bytes and a 32-byte output the only
/// error left is a password longer than 2^32-1 bytes; otherwise the output is
/// the hash, a function of password and salt. The error text is the crate's.
#[verifier::external_body]
pub(crate) fn argon2_hash(password: &[u8], salt: &[u8]) -> (r: Result<[u8; 32], String>)
    requires
        8 <= salt@.len() <= 0xFFFF_FFFF,
    ensures
        r is Ok <==> password@.len() <= 0xFFFF_FFFF,
        r matches Ok(k) ==> k@ == argon2id_key(password@, salt@),
{
    let mut out = [0u8; 32];
    match Argon2::default().hash_password_into(password, salt, &mut out) {
        Ok(()) => Ok(out),
        Err(e) => Err(e.to_string()),
    }
}

/// 16 bytes from the operating system's generator (`OsRng.fill_bytes`).
/// Nothing is claimed of their value.
#[verifier::external_body]
fn random_salt() -> (r: [u8; 16]) {
    let mut salt = [0u8; 16];
    OsRng.fill_bytes(&mut salt);
    salt
}

/// A nonce from `ChaCha20Poly1305::generate_nonce(&mut OsRng)`.
/// Nothing is claimed of its value.
#[verifier::external_body]
fn random_nonce() -> (r: [u8; 12]) {
    ChaCha20Poly1305::generate_nonce(&mut OsRng).into()
}

/// Calls `ChaCha20Poly1305::new(key).encrypt(nonce, plaintext)`.
/// Claims: it fails exactly when the plaintext has `u32::MAX` or more 64-byte
/// blocks; the ciphertext is the plaintext's length plus the 16-byte tag, is a
/// function of key, nonce and plaintext, and decrypts back to the plaintext.
#[verifier::external_body]
fn aead_seal(key: &[u8; 32], nonce: &[u8; 12], plaintext: &[u8]) -> (r: Result<Vec<u8>, String>)
    ensures
        r is Ok <==> plaintext@.len() / 64 < u32::MAX,
        r matches Ok(ct) ==> ct@ == chacha_seal(key@, nonce@, plaintext@),
        r matches Ok(ct) ==> ct@.len() == plaintext@.len() + 16,
        r matches Ok(ct) ==> chacha_open(key@, nonce@, ct@) == Some(plaintext@),
{
    let cipher = ChaCha20Poly1305::new(key.into());
    cipher.encrypt(nonce.into(), plaintext).map_err(|e| e.to_string())
}

/// Calls `ChaCha20Poly1305::new(key).decrypt(nonce, ciphertext)`.
/// Claims: the result is the decryption, a function of key, nonce and
/// ciphertext; a ciphertext shorter than the tag never decrypts.
#[verifier::external_body]
fn aead_open(key: &[u8; 32], nonce: &[u8; 12], ciphertext: &[u8]) -> (r: Option<Vec<u8>>)
    ensures
        r matches Some(p) ==> chacha_open(key@, nonce@, ciphertext@) == Some(p@),
        r is None ==> chacha_open(key@, nonce@, ciphertext@) is None,
        ciphertext@.len() < 16 ==> r is None,
{
    let cipher = ChaCha20Poly1305::new(key.into());
    cipher.decrypt(nonce.into(), ciphertext).ok()
}

// ---------------------------------------------------------------------------
// The wire format
// ---------------------------------------------------------------------------

/// The encrypted message as written: magic, version, salt, nonce, ciphertext.
pub open spec fn wire_format(salt: Seq<u8>, nonce: Seq<u8>, ct: Seq<u8>) -> Seq<u8> {
    magic() + seq![1u8] + salt + nonce + ct
}

/// What encryption writes for a given salt and nonce; `None` where key
/// derivation or the cipher refuses.
pub open spec fn spec_encrypt(plain: Seq<u8>, password: Seq<u8>, salt: Seq<u8>, nonce: Seq<u8>) -> Option<
    Seq<u8>,
> {
    if password.len() <= 0xFFFF_FFFF && plain.len() / 64 < u32::MAX {
        Some(wire_format(salt, nonce, chacha_seal(argon2id_key(password, salt), nonce, plain)))
    } else {
        None
    }
}

/// Versions of the wire format.
#[derive(Debug, Clone, Copy, PartialEq, Eq, Structural)]
pub enum WireVersion {
    /// `[CLOK][1][salt:16][nonce:12][ciphertext+tag]`
    V1,
}

/// How decryption fails.
#[derive(Debug, Clone, Copy, PartialEq, Eq, Structural)]
pub enum DecryptFailure {
    /// Too short, wrong magic, or key derivation refused.
    Corrupted,
    /// A version byte this library does not know.
    Version(u8),
    /// The authentication tag does not verify.
    Passphrase,
}

/// Version detection: the magic must be there and the version byte known.
pub open spec fn spec_detect_version(data: Seq<u8>) -> Result<WireVersion, DecryptFailure> {
    if data.len() < 5 || data.subrange(0, 4) != magic() {
        Err(DecryptFailure::Corrupted)
    } else if data[4] != 1 {
        Err(DecryptFailure::Version(data[4]))
    } else {
        Ok(WireVersion::V1)
    }
}

/// What decryption gives back.
pub open spec fn spec_decrypt(data: Seq<u8>, password: Seq<u8>) -> Result<Seq<u8>, DecryptFailure> {
    if data.len() < 33 {
        Err(DecryptFailure::Corrupted)
    } else {
        match spec_detect_version(data) {
            Err(f) => Err(f),
            Ok(_) => if password.len() > 0xFFFF_FFFF {
                Err(DecryptFailure::Corrupted)
            } else {
                match chacha_open(
                    argon2id_key(password, data.subrange(5, 21)),
                    data.subrange(21, 33),
                    data.subrange(33, data.len() as int),
                ) {
                    Some(p) => Ok(p),
                    None => Err(DecryptFailure::Passphrase),
                }
            },
        }
    }
}

/// The error that a decryption failure is reported as.
pub open spec fn decrypt_error_matches(e: CloakError, f: DecryptFailure) -> bool {
    match f {
        DecryptFailure::Corrupted => e is CorruptedData,
        DecryptFailure::Version(v) => e == CloakError::UnsupportedVersion(v),
        DecryptFailure::Passphrase => e is InvalidPassphrase,
    }
}

/// Derive a 256-bit key from a passphrase using Argon2id.
fn derive_key(passphrase: &[u8], salt: &[u8]) -> (r: Result<[u8; 32], CloakError>)
    requires
        8 <= salt@.len() <= 0xFFFF_FFFF,
    ensures
        r is Ok <==> passphrase@.len() <= 0xFFFF_FFFF,
        r matches Ok(k) ==> k@ == argon2id_key(passphrase@, salt@),
        r matches Err(e) ==> e is CorruptedData,
{
    match argon2_hash(passphrase, salt) {
        Ok(key) => Ok(key),
        Err(msg) => Err(
            CloakError::CorruptedData(String::from_str("key derivation failed: ").concat(msg.as_str())),
        ),
    }
}

/// Encrypt plaintext with a passphrase.
///
/// Wire format: `[CLOK][version:1][salt:16][nonce:12][ciphertext+tag]`
pub fn encrypt(plaintext: &[u8], passphrase: &str) -> (r: Result<Vec<u8>, CloakError>)
    ensures
        r is Ok <==> passphrase.spec_bytes().len() <= 0xFFFF_FFFF && plaintext@.len() / 64 < u32::MAX,
        r matches Ok(out) ==> exists|salt: Seq<u8>, nonce: Seq<u8>|
            #![trigger wire_format(salt, nonce, out@.subrange(33, out@.len() as int))]
            salt.len() == 16 && nonce.len() == 12 && spec_encrypt(
                plaintext@,
                passphrase.spec_bytes(),
                salt,
                nonce,
            ) == Some(out@) && wire_format(salt, nonce, out@.subrange(33, out@.len() as int)) == out@,
        r matches Ok(out) ==> out@.len() == plaintext@.len() + overhead_len(),
        r matches Ok(out) ==> spec_decrypt(out@, passphrase.spec_bytes()) == Ok::<Seq<u8>, DecryptFailure>(
            plaintext@,
        ),
        r matches Err(e) ==> e is CorruptedData,
{
    let salt = random_salt();
    let password = passphrase.as_bytes();
    let key = derive_key(password, &salt)?;
    let nonce = random_nonce();
    let ciphertext = match aead_seal(&key, &nonce, plaintext) {
        Ok(ct) => ct,
        Err(msg) => {
            return Err(
                CloakError::CorruptedData(String::from_str("encryption failed: ").concat(msg.as_str())),
            );
        },
    };
    let mut output: Vec<u8> = Vec::new();
    output.push(0x43u8);
    output.push(0x4Cu8);
    output.push(0x4Fu8);
    output.push(0x4Bu8);
    output.push(VERSION);
    output.extend_from_slice(&salt);
    output.extend_from_slice(&nonce);
    output.extend_from_slice(&ciphertext);
    proof {
        let out = output@;
        let w = wire_format(salt@, nonce@, ciphertext@);
        assert(out =~= w);
        assert(out.subrange(33, out.len() as int) =~= ciphertext@);
        assert(out.subrange(0, 4) =~= magic());
        assert(out.subrange(5, 21) =~= salt@);
        assert(out.subrange(21, 33) =~= nonce@);
        assert(spec_detect_version(out) == Ok::<WireVersion, DecryptFailure>(WireVersion::V1));
    }
    Ok(output)
}

/// The bytes encryption adds: the 33-byte header and the 16-byte tag.
pub open spec fn overhead_len() -> int {
    49
}

/// Detect the wire format version of encrypted data.
pub fn detect_version(data: &[u8]) -> (r: Result<WireVersion, CloakError>)
    ensures
        spec_detect_version(data@) matches Ok(v) ==> r == Ok::<WireVersion, CloakError>(v),
        spec_detect_version(data@) matches Err(f) ==> (r matches Err(e) && decrypt_error_matches(e, f)),
{
    if data.len() < 5 {
        return Err(CloakError::CorruptedData(String::from_str("data too short for header")));
    }
    if !(data[0] == 0x43 && data[1] == 0x4C && data[2] == 0x4F && data[3] == 0x4B) {
        proof {
            if data@.subrange(0, 4) == magic() {
                assert(data@.subrange(0, 4)[0] == magic()[0]);
                assert(data@.subrange(0, 4)[1] == magic()[1]);
                assert(data@.subrange(0, 4)[2] == magic()[2]);
                assert(data@.subrange(0, 4)[3] == magic()[3]);
            }
        }
        return Err(CloakError::CorruptedData(String::from_str("invalid magic bytes")));
    }
    assert(data@.subrange(0, 4) =~= magic());
    let version = data[4];
    if version != VERSION {
        return Err(CloakError::UnsupportedVersion(version));
    }
    Ok(WireVersion::V1)
}

/// Decrypt ciphertext that was encrypted with [`encrypt`].
pub fn decrypt(data: &[u8], passphrase: &str) -> (r: Result<Vec<u8>, CloakError>)
    ensures
        spec_decrypt(data@, passphrase.spec_bytes()) matches Ok(p) ==> (r matches Ok(v) && v@ == p),
        spec_decrypt(data@, passphrase.spec_bytes()) matches Err(f) ==> (r matches Err(e)
            && decrypt_error_matches(e, f)),
        data@.len() < overhead_len() ==> r is Err,
{
    if data.len() < HEADER_LEN {
        return Err(CloakError::CorruptedData(String::from_str("data too short for header")));
    }
    match detect_version(data)? {
        WireVersion::V1 => decrypt_v1(data, passphrase),
    }
}

/// Decrypt version-1 data whose header has been checked.
fn decrypt_v1(data: &[u8], passphrase: &str) -> (r: Result<Vec<u8>, CloakError>)
    requires
        data@.len() >= 33,
        spec_detect_version(data@) == Ok::<WireVersion, DecryptFailure>(WireVersion::V1),
    ensures
        spec_decrypt(data@, passphrase.spec_bytes()) matches Ok(p) ==> (r matches Ok(v) && v@ == p),
        spec_decrypt(data@, passphrase.spec_bytes()) matches Err(f) ==> (r matches Err(e)
            && decrypt_error_matches(e, f)),
        data@.len() < overhead_len() ==> r is Err,
{
    let salt = slice_range(data, 5, 5 + SALT_LEN);
    let nonce_bytes = slice_range(data, 5 + SALT_LEN, HEADER_LEN);
    let ciphertext = slice_range(data, HEADER_LEN, data.len());
    let key = derive_key(passphrase.as_bytes(), salt.as_slice())?;
    let nonce: [u8; 12] = [
        nonce_bytes[0],
        nonce_bytes[1],
        nonce_bytes[2],
        nonce_bytes[3],
        nonce_bytes[4],
        nonce_bytes[5],
        nonce_bytes[6],
        nonce_bytes[7],
        nonce_bytes[8],
        nonce_bytes[9],
        nonce_bytes[10],
        nonce_bytes[11],
    ];
    assert(nonce@ =~= data@.subrange(21, 33));
    match aead_open(&key, &nonce, ciphertext.as_slice()) {
        Some(p) => Ok(p),
        None => Err(CloakError::InvalidPassphrase),
    }
}

/// Copy of `data[from..to]`.
fn slice_range(data: &[u8], from: usize, to: usize) -> (r: Vec<u8>)
    requires
        from <= to <= data@.len(),
    ensures
        r@ == data@.subrange(from as int, to as int),
{
    let mut out: Vec<u8> = Vec::with_capacity(to - from);
    let mut i = from;
    while i < to
        invariant
            from <= i <= to,
            to <= data@.len(),
            out@ == data@.subrange(from as int, i as int),
        decreases to - i,
    {
        out.push(data[i]);
        i = i + 1;
        assert(out@ =~= data@.subrange(from as int, i as int));
    }
    out
}

/// Minimum passphrase length, in characters, below which a passphrase is
/// reported as short.
pub const SHORT_PASSPHRASE_CHARS: usize = 8;

/// Whether a non-empty passphrase has fewer than 8 characters: one that is
/// trivially brute-forced despite Argon2id, and worth a warning.
pub fn passphrase_is_short(passphrase: &str) -> (r: bool)
    ensures
        r == (0 < passphrase@.len() < 8),
{
    let n = passphrase.unicode_len();
    n > 0 && n < SHORT_PASSPHRASE_CHARS
}

/// Returns the overhead bytes added by encryption (header + AEAD tag).
pub fn overhead() -> (r: usize)
    ensures
        r == overhead_len(),
{
    HEADER_LEN + TAG_LEN
}

} // verus!
