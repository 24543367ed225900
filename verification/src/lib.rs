//! Decoding of PEM text into the DER bytes that it carries.
//!
//! A PEM text holds binary data as Base64 between a `-----BEGIN ...-----`
//! line and an `-----END ...-----` line. [`pem_to_der`] finds that envelope,
//! drops its two marker lines and every line feed, and decodes what is left.

use crate::base64::base64_decode;
use crate::base64::decode_base64;
use crate::base64::is_base64;
use crate::payload::extract_payload;
use crate::payload::payload;
use vstd::prelude::*;
use vstd::string::StringSliceAdditionalSpecFns;

pub mod armor;
pub mod base64;
pub mod envelope;
pub mod grammar;
pub mod payload;

verus! {

/// Why a text could not be decoded.
#[derive(Clone, Copy, Debug, PartialEq, Eq, Structural)]
pub enum PemError {
    /// The rule that recognises an envelope could not be set up. The rule is
    /// part of the program text, so no function of this crate reports it.
    PatternCompile,
    /// What is left of the text once the envelope's marker lines and all line
    /// feeds are gone is not padded Base64 in the standard alphabet.
    MalformedBase64,
}

/// What decoding `text` gives: the bytes that its payload stands for, or
/// `MalformedBase64` where the payload is not padded Base64 in the standard
/// alphabet.
pub open spec fn der_of(text: Seq<u8>) -> Result<Seq<u8>, PemError> {
    if is_base64(payload(text)) {
        Ok(base64_decode(payload(text)))
    } else {
        Err(PemError::MalformedBase64)
    }
}

/// Decodes a PEM text that is given as bytes: see [`pem_to_der`]. The bytes
/// need not be UTF-8.
pub fn pem_bytes_to_der(text: &[u8]) -> (result: Result<Vec<u8>, PemError>)
    ensures
        match result {
            Ok(der) => der_of(text@) == Ok::<Seq<u8>, PemError>(der@),
            Err(e) => der_of(text@) == Err::<Seq<u8>, PemError>(e) && e == PemError::MalformedBase64,
        },
{
    let body = extract_payload(text);
    decode_base64(body.as_slice())
}

/// Decodes a PEM text: finds its first envelope, drops the header and the
/// footer and every line feed of the text, and decodes the rest as padded
/// Base64 in the standard alphabet.
///
/// Only the first envelope is looked for, the one that starts leftmost in
/// the text. Text outside of it is not skipped: it is decoded with the body,
/// so a second envelope, or any note before or behind the first, makes the
/// text malformed. A text without an envelope is decoded as it is.
///
/// The contract speaks of the text as bytes, in UTF-8. The one failure is
/// `MalformedBase64`.
pub fn pem_to_der(pem_file_contents: &str) -> (result: Result<Vec<u8>, PemError>)
    ensures
        match result {
            Ok(der) => der_of(pem_file_contents.spec_bytes()) == Ok::<Seq<u8>, PemError>(der@),
            Err(e) => der_of(pem_file_contents.spec_bytes()) == Err::<Seq<u8>, PemError>(e) && e
                == PemError::MalformedBase64,
        },
{
    pem_bytes_to_der(pem_file_contents.as_bytes())
}

} // verus!
