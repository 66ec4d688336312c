//! The errors that the secret-sharing operations return.

use crate::outside::error_text;
use crate::text::{append_decimal, decimal};
use vstd::prelude::*;
use vstd::string::StringExecFns;

verus! {

/// An error of the operating system's I/O layer, carried through unread.
#[verifier::external_type_specification]
#[verifier::external_body]
pub struct ExIoError(std::io::Error);

/// Everything that can go wrong while splitting, reconstructing, refreshing or
/// storing shares. Every malformed input maps to one of these.
#[derive(Debug)]
pub enum ShamirError {
    /// The threshold is not in `1..=total_shares`.
    InvalidThreshold(u8),
    /// The number of shares is not at least one.
    InvalidShareCount(u8),
    /// The threshold exceeds the number of shares.
    ThresholdTooLarge { threshold: u8, total_shares: u8 },
    /// Fewer shares were given than the reconstruction needs.
    InsufficientShares { needed: u8, got: u8 },
    /// No share with this index is available.
    InvalidShareIndex(u8),
    /// An I/O failure underneath.
    IoError(std::io::Error),
    /// The recovered data does not match its hash.
    IntegrityCheckFailed,
    /// Duplicate or zero share indices, or malformed share bytes.
    InvalidShareFormat,
    /// The shares disagree in length or in their flags.
    InconsistentShareLength,
    /// Compression failed.
    CompressionError(String),
    /// Decompression failed.
    DecompressionError(String),
    /// The configuration or the arguments do not fit together.
    InvalidConfig(String),
    /// The share store failed.
    StorageError(String),
}

impl From<std::io::Error> for ShamirError {
    /// An I/O error as an error of this library.
    fn from(error: std::io::Error) -> (r: Self) {
        ShamirError::IoError(error)
    }
}

impl vstd::std_specs::convert::FromSpecImpl<std::io::Error> for ShamirError {
    open spec fn obeys_from_spec() -> bool {
        true
    }

    open spec fn from_spec(error: std::io::Error) -> Self {
        ShamirError::IoError(error)
    }
}

/// The text of an error, but for an I/O error, whose text is `I/O error: `
/// followed by what the I/O layer says.
pub open spec fn message_of(error: ShamirError) -> Seq<char> {
    match error {
        ShamirError::InvalidThreshold(t) => "Invalid threshold value "@ + decimal(t as nat),
        ShamirError::InvalidShareCount(n) => "Invalid share count "@ + decimal(n as nat),
        ShamirError::ThresholdTooLarge { threshold, total_shares } => "Threshold "@ + decimal(
            threshold as nat,
        ) + " exceeds total shares "@ + decimal(total_shares as nat),
        ShamirError::InsufficientShares { needed, got } => "Need at least "@ + decimal(
            needed as nat,
        ) + " shares, got "@ + decimal(got as nat),
        ShamirError::InvalidShareIndex(i) => "Invalid share index "@ + decimal(i as nat),
        ShamirError::IoError(_) => "I/O error: "@,
        ShamirError::IntegrityCheckFailed => "Data integrity check failed"@,
        ShamirError::InvalidShareFormat => "Invalid share format"@,
        ShamirError::InconsistentShareLength => "Inconsistent share lengths"@,
        ShamirError::CompressionError(text) => "Compression error: "@ + text@,
        ShamirError::DecompressionError(text) => "Decompression error: "@ + text@,
        ShamirError::InvalidConfig(text) => "Invalid configuration: "@ + text@,
        ShamirError::StorageError(text) => "Storage error: "@ + text@,
    }
}

impl ShamirError {
    /// The error in words.
    pub fn message(&self) -> (text: String)
        ensures
            !(self is IoError) ==> text@ == message_of(*self),
            self is IoError ==> text@.len() >= message_of(*self).len() && text@.subrange(
                0,
                message_of(*self).len() as int,
            ) == message_of(*self),
    {
        match self {
            ShamirError::InvalidThreshold(t) => {
                let mut text = String::from_str("Invalid threshold value ");
                append_decimal(&mut text, *t as u128);
                text
            },
            ShamirError::InvalidShareCount(n) => {
                let mut text = String::from_str("Invalid share count ");
                append_decimal(&mut text, *n as u128);
                text
            },
            ShamirError::ThresholdTooLarge { threshold, total_shares } => {
                let mut text = String::from_str("Threshold ");
                append_decimal(&mut text, *threshold as u128);
                text.append(" exceeds total shares ");
                append_decimal(&mut text, *total_shares as u128);
                text
            },
            ShamirError::InsufficientShares { needed, got } => {
                let mut text = String::from_str("Need at least ");
                append_decimal(&mut text, *needed as u128);
                text.append(" shares, got ");
                append_decimal(&mut text, *got as u128);
                text
            },
            ShamirError::InvalidShareIndex(i) => {
                let mut text = String::from_str("Invalid share index ");
                append_decimal(&mut text, *i as u128);
                text
            },
            ShamirError::IoError(e) => {
                let mut text = String::from_str("I/O error: ");
                let said = error_text(e);
                text.append(said.as_str());
                assert(text@.subrange(0, "I/O error: "@.len() as int) =~= "I/O error: "@);
                text
            },
            ShamirError::IntegrityCheckFailed => String::from_str("Data integrity check failed"),
            ShamirError::InvalidShareFormat => String::from_str("Invalid share format"),
            ShamirError::InconsistentShareLength => String::from_str("Inconsistent share lengths"),
            ShamirError::CompressionError(said) => {
                let mut text = String::from_str("Compression error: ");
                text.append(said.as_str());
                text
            },
            ShamirError::DecompressionError(said) => {
                let mut text = String::from_str("Decompression error: ");
                text.append(said.as_str());
                text
            },
            ShamirError::InvalidConfig(said) => {
                let mut text = String::from_str("Invalid configuration: ");
                text.append(said.as_str());
                text
            },
            ShamirError::StorageError(said) => {
                let mut text = String::from_str("Storage error: ");
                text.append(said.as_str());
                text
            },
        }
    }
}

} // verus!
