//! Errors of the library.

use vstd::prelude::*;

verus! {

/// Everything that can go wrong while embedding, extracting or measuring.
#[derive(Debug)]
pub enum CloakError {
    /// An input or output failure, with its message.
    Io(String),
    /// The image format is not one of the supported ones.
    UnsupportedFormat(String),
    /// The payload does not fit the cover image.
    PayloadTooLarge { needed: usize, capacity: usize },
    /// Authentication of the ciphertext failed.
    InvalidPassphrase,
    /// Randomized mode was asked for without a passphrase.
    MissingPassphrase,
    /// The data is not what this library writes.
    CorruptedData(String),
    /// The wire format carries a version this library does not know.
    UnsupportedVersion(u8),
    /// The image codec failed, with its message.
    Image(String),
}

/// The kind of an error, without its message.
#[derive(Debug, Clone, Copy, PartialEq, Eq, Structural)]
pub enum ErrorKind {
    Io,
    UnsupportedFormat,
    PayloadTooLarge { needed: usize, capacity: usize },
    InvalidPassphrase,
    MissingPassphrase,
    CorruptedData,
    UnsupportedVersion(u8),
    Image,
}

impl CloakError {
    /// The kind of this error.
    pub open spec fn kind(&self) -> ErrorKind {
        match self {
            CloakError::Io(_) => ErrorKind::Io,
            CloakError::UnsupportedFormat(_) => ErrorKind::UnsupportedFormat,
            CloakError::PayloadTooLarge { needed, capacity } => ErrorKind::PayloadTooLarge {
                needed: *needed,
                capacity: *capacity,
            },
            CloakError::InvalidPassphrase => ErrorKind::InvalidPassphrase,
            CloakError::MissingPassphrase => ErrorKind::MissingPassphrase,
            CloakError::CorruptedData(_) => ErrorKind::CorruptedData,
            CloakError::UnsupportedVersion(v) => ErrorKind::UnsupportedVersion(*v),
            CloakError::Image(_) => ErrorKind::Image,
        }
    }
}

/// A result as plain values: the bytes, or the kind of the error.
pub open spec fn result_view(r: Result<Vec<u8>, CloakError>) -> Result<Seq<u8>, ErrorKind> {
    match r {
        Ok(v) => Ok(v@),
        Err(e) => Err(e.kind()),
    }
}

} // verus!
