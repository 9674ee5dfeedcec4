use cloak_core::crypto::{decrypt, detect_version, encrypt, overhead, passphrase_is_short, WireVersion};
use cloak_core::CloakError;

#[test]
fn crypto_roundtrip() {
    let plaintext = b"steganography is cool";
    let passphrase = "hunter2";

    let encrypted = encrypt(plaintext, passphrase).unwrap();
    let decrypted = decrypt(&encrypted, passphrase).unwrap();

    assert_eq!(decrypted, plaintext);
}

#[test]
fn roundtrip_empty() {
    let encrypted = encrypt(b"", "pass").unwrap();
    let decrypted = decrypt(&encrypted, "pass").unwrap();
    assert!(decrypted.is_empty());
}

#[test]
fn crypto_wrong_passphrase() {
    let encrypted = encrypt(b"secret", "correct").unwrap();
    let result = decrypt(&encrypted, "wrong");
    assert!(matches!(result, Err(CloakError::InvalidPassphrase)));
}

#[test]
fn corrupted_magic() {
    let mut encrypted = encrypt(b"data", "pass").unwrap();
    encrypted[0] = b'X';
    let result = decrypt(&encrypted, "pass");
    assert!(matches!(result, Err(CloakError::CorruptedData(_))));
}

#[test]
fn truncated_data() {
    let result = decrypt(&[0u8; 10], "pass");
    assert!(matches!(result, Err(CloakError::CorruptedData(_))));
}

#[test]
fn corrupted_ciphertext() {
    let mut encrypted = encrypt(b"data", "pass").unwrap();
    let last = encrypted.len() - 1;
    encrypted[last] ^= 0xFF;
    let result = decrypt(&encrypted, "pass");
    assert!(matches!(result, Err(CloakError::InvalidPassphrase)));
}

#[test]
fn different_encryptions_differ() {
    let a = encrypt(b"same", "pass").unwrap();
    let b = encrypt(b"same", "pass").unwrap();
    assert_ne!(a, b); // different salt + nonce
}

#[test]
fn overhead_is_correct() {
    let plaintext = b"test";
    let encrypted = encrypt(plaintext, "pass").unwrap();
    assert_eq!(encrypted.len(), plaintext.len() + overhead());
}

#[test]
fn overhead_value() {
    // 4 magic + 1 version + 16 salt + 12 nonce + 16 tag
    assert_eq!(overhead(), 49);
}

#[test]
fn wire_format_header() {
    let encrypted = encrypt(b"abc", "pass").unwrap();
    assert_eq!(&encrypted[..4], b"CLOK");
    assert_eq!(encrypted[4], 1);
    assert_eq!(detect_version(&encrypted).unwrap(), WireVersion::V1);
}

#[test]
fn unknown_version_rejected() {
    let mut encrypted = encrypt(b"abc", "pass").unwrap();
    encrypted[4] = 7;
    assert!(matches!(detect_version(&encrypted), Err(CloakError::UnsupportedVersion(7))));
    assert!(matches!(decrypt(&encrypted, "pass"), Err(CloakError::UnsupportedVersion(7))));
}

#[test]
fn detect_version_short_or_bad_magic() {
    assert!(matches!(detect_version(b"CLO"), Err(CloakError::CorruptedData(_))));
    assert!(matches!(detect_version(b"ABCD\x01"), Err(CloakError::CorruptedData(_))));
    assert_eq!(detect_version(b"CLOK\x01").unwrap(), WireVersion::V1);
}

#[test]
fn truncated_ciphertext_errors() {
    let encrypted = encrypt(b"some payload bytes", "pass").unwrap();
    for cut in [0usize, 5, 32, 33, 40, 48, encrypted.len() - 1] {
        let result = decrypt(&encrypted[..cut], "pass");
        assert!(result.is_err(), "cut at {cut}");
    }
}

#[test]
fn every_flipped_byte_is_detected() {
    let encrypted = encrypt(b"authenticated", "pass").unwrap();
    for idx in [0usize, 4, 5, 20, 21, 32, 33, encrypted.len() - 1] {
        let mut corrupted = encrypted.clone();
        corrupted[idx] ^= 0xFF;
        assert!(decrypt(&corrupted, "pass").is_err(), "byte {idx}");
    }
}

#[test]
fn short_passphrase_detection() {
    assert!(passphrase_is_short("abc"));
    assert!(passphrase_is_short("seven77"));
    assert!(!passphrase_is_short("eight888"));
    assert!(!passphrase_is_short(""));
    // counted in characters, not bytes
    assert!(passphrase_is_short("\u{e9}\u{e9}\u{e9}\u{e9}"));
}
