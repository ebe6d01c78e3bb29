//! What can go wrong while reading or rewriting a JPEG file.

use vstd::prelude::*;

verus! {

/// Why an operation on a JPEG file failed.
#[derive(Debug, Clone, Copy, PartialEq, Eq, Structural)]
pub enum JpegError {
    /// A segment is malformed: a length that does not match, a truncated
    /// payload, a bad scan header.
    ParseError,
    /// The scan is not a baseline scan over all 64 coefficients.
    UnsupportedScan,
    /// The secret, with its header, does not fit the image's tables.
    SecretTooLarge,
    /// The entropy-coded data ran out, or held a symbol it may not hold.
    BitstreamError,
}

impl JpegError {
    /// A short description of the error.
    pub fn message(&self) -> (r: String) {
        match self {
            JpegError::ParseError => String::from_str("malformed segment"),
            JpegError::UnsupportedScan => String::from_str("progressive JPEG files are not supported"),
            JpegError::SecretTooLarge => String::from_str("the secret does not fit into the image"),
            JpegError::BitstreamError => String::from_str("malformed entropy-coded data"),
        }
    }
}

} // verus!
