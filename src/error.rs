//! Errors of the codec, and the conversion of recovered bytes into text.

use std::string::FromUtf8Error;
use vstd::prelude::*;
use vstd::utf8::{decode_utf8, valid_utf8};

verus! {

/// `std::string::FromUtf8Error`, the error of `String::from_utf8`, carried
/// through unchanged; nothing of its contents is relied on.
#[verifier::external_type_specification]
#[verifier::external_body]
pub struct ExFromUtf8Error(FromUtf8Error);

/// Errors that can occur while encoding or decoding a carrier.
#[derive(Debug)]
pub enum SteganographyError {
    /// Carrier capacity is less than necessary.
    SmallCarrier,
    /// Carrier has a malformed payload or no payload at all.
    MalformedPayload,
    /// The bytes between the delimiters are not valid UTF-8.
    Utf8Error(FromUtf8Error),
}

/// Relies on `String::from_utf8`: it succeeds exactly when the bytes are valid
/// UTF-8, and the string then holds the characters that they encode.
#[verifier::external_body]
pub(crate) fn string_from_utf8(bytes: Vec<u8>) -> (r: Result<String, FromUtf8Error>)
    ensures
        r is Ok <==> valid_utf8(bytes@),
        r is Ok ==> r->Ok_0@ == decode_utf8(bytes@),
{
    String::from_utf8(bytes)
}

} // verus!
