//! Conversion of received bytes to text.
use vstd::prelude::*;
use vstd::utf8::{valid_utf8, decode_utf8, encode_utf8};
use crate::errors::ProtoHackersError;

verus! {

/// Calls `String::from_utf8`, which, as its documentation says, gives back
/// the bytes as a `String` when they are valid UTF-8 and an error
/// otherwise. The decoded characters are those of `vstd`'s UTF-8 decoding.
#[verifier::external_body]
pub(crate) fn string_from_utf8(bytes: Vec<u8>) -> (res: Result<String, std::string::FromUtf8Error>)
    ensures
        match res {
            Ok(s) => valid_utf8(bytes@) && s@ == decode_utf8(bytes@),
            Err(_) => !valid_utf8(bytes@),
        },
{
    String::from_utf8(bytes)
}

/// Decodes `buf` as UTF-8 text; fails exactly when `buf` is not valid
/// UTF-8, with the UTF-8 variant of the error.
pub fn convert_to_utf8(buf: Vec<u8>) -> (res: Result<String, ProtoHackersError>)
    ensures
        match res {
            Ok(s) => valid_utf8(buf@) && s@ == decode_utf8(buf@),
            Err(e) => !valid_utf8(buf@) && e is UTF8Error,
        },
{
    match string_from_utf8(buf) {
        Ok(s) => Ok(s),
        Err(e) => Err(ProtoHackersError::from(e)),
    }
}

/// Converting the UTF-8 bytes of any text gives that text back.
pub proof fn law_utf8_roundtrip(text: Seq<char>)
    ensures
        valid_utf8(encode_utf8(text)),
        decode_utf8(encode_utf8(text)) == text,
{
    vstd::utf8::encode_utf8_valid_utf8(text);
    vstd::utf8::encode_utf8_decode_utf8(text);
}

} // verus!
