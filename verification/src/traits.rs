//! The interfaces of a steganographic codec.

use vstd::prelude::*;

use crate::error::CloakError;

verus! {

/// Embeds a payload into cover image data, returning the stego image bytes.
pub trait Encoder {
    /// The encoder's settings under which `encode` is defined.
    spec fn encode_accepts(&self) -> bool;

    fn encode(&self, cover: &[u8], payload: &[u8]) -> (r: Result<Vec<u8>, CloakError>)
        requires
            self.encode_accepts(),
    ;
}

/// Extracts a hidden payload from stego image data.
pub trait Decoder {
    /// The decoder's settings under which `decode` is defined.
    spec fn decode_accepts(&self) -> bool;

    fn decode(&self, stego: &[u8]) -> (r: Result<Vec<u8>, CloakError>)
        requires
            self.decode_accepts(),
    ;
}

/// Reports the maximum payload capacity of an image in bytes.
pub trait Capacity {
    fn capacity(&self, cover: &[u8]) -> (r: Result<usize, CloakError>);
}

} // verus!
