//! The SDP codec of the signaling handshake.
//!
//! The local SDP text is Brotli-compressed (buffer 4096, quality 11, window
//! 24) and then base64url-encoded without padding; the remote SDP is decoded
//! by the inverse steps. The codec must be byte-stable so that peers
//! interoperate, so both outside calls are pinned to fixed parameters.

use std::io::{Read, Write};
use vstd::prelude::*;

verus! {

/// What the Brotli compressor (quality 11, window 24) makes of the UTF-8
/// bytes of an SDP text. Compression with fixed parameters is a pure
/// function of its input.
pub uninterp spec fn sdp_deflated(s: Seq<char>) -> Seq<u8>;

/// What the base64url encoder without padding makes of a byte string.
pub uninterp spec fn b64url_of(b: Seq<u8>) -> Seq<char>;

/// The characters base64url draws on; `=` is not among them.
pub open spec fn is_b64url_char(c: char) -> bool {
    (65 <= c as u32 && c as u32 <= 90)  // A-Z
     || (97 <= c as u32 && c as u32 <= 122)  // a-z
     || (48 <= c as u32 && c as u32 <= 57)  // 0-9
     || c as u32 == 45  // -
     || c as u32 == 95  // _

}

/// Errors of the SDP codec: session-fatal when they strike a remote SDP.
#[derive(Debug)]
pub enum SdpError {
    /// The remote text is not base64url.
    InvalidBase64,
    /// The decoded bytes are not a Brotli stream of UTF-8 text.
    InvalidPayload,
}

/// Relies on brotli::CompressorWriter with buffer 4096, quality 11 and
/// window 24, finished by into_inner: the compressed stream is a function of
/// the input bytes and these parameters alone. Writing into a Vec cannot
/// fail.
#[verifier::external_body]
fn brotli_compress(s: &str) -> (r: Vec<u8>)
    ensures
        r@ == sdp_deflated(s@),
{
    let mut compressor = brotli::CompressorWriter::new(Vec::new(), 4096, 11, 24);
    compressor.write_all(s.as_bytes()).expect("writing into a Vec cannot fail");
    compressor.into_inner()
}

/// Relies on brotli::Decompressor inverting CompressorWriter's output, and
/// on String::from_utf8 recovering the text whose bytes were compressed.
#[verifier::external_body]
fn brotli_decompress(data: &Vec<u8>) -> (r: Option<String>)
    ensures
        match r {
            Some(t) => forall|orig: Seq<char>| data@ == sdp_deflated(orig) ==> t@ == orig,
            None => forall|orig: Seq<char>| data@ != sdp_deflated(orig),
        },
{
    let mut decompressor = brotli::Decompressor::new(&data[..], 4096);
    let mut out = Vec::new();
    match decompressor.read_to_end(&mut out) {
        Ok(_) => String::from_utf8(out).ok(),
        Err(_) => None,
    }
}

/// Relies on base64's URL_SAFE_NO_PAD engine: encoding is a function of the
/// input bytes; the output draws on the URL-safe alphabet and carries no
/// padding.
#[verifier::external_body]
fn b64url_encode(b: &Vec<u8>) -> (r: String)
    ensures
        r@ == b64url_of(b@),
        forall|i: int| 0 <= i < r@.len() ==> is_b64url_char(#[trigger] r@[i]),
{
    base64::Engine::encode(&base64::engine::general_purpose::URL_SAFE_NO_PAD, b)
}

/// Relies on base64's URL_SAFE_NO_PAD engine: decode inverts encode (base64
/// encoding is injective, so the preimage is unique).
#[verifier::external_body]
fn b64url_decode(s: &str) -> (r: Option<Vec<u8>>)
    ensures
        match r {
            Some(d) => forall|b: Seq<u8>| s@ == b64url_of(b) ==> d@ == b,
            None => forall|b: Seq<u8>| s@ != b64url_of(b),
        },
{
    base64::Engine::decode(&base64::engine::general_purpose::URL_SAFE_NO_PAD, s).ok()
}

/// Compress and encode an SDP text for the signaling channel. The result is
/// pure base64url: no `=` padding, nothing outside the URL-safe alphabet.
pub fn encode_sdp(s: &str) -> (r: String)
    ensures
        r@ == b64url_of(sdp_deflated(s@)),
        forall|i: int| 0 <= i < r@.len() ==> is_b64url_char(#[trigger] r@[i]),
{
    let compressed = brotli_compress(s);
    b64url_encode(&compressed)
}

/// Decode and decompress a remote SDP text: the inverse of `encode_sdp`, so
/// for every SDP text `orig`, decoding `encode_sdp(orig)` gives back exactly
/// `orig`. Anything else may fail, and a failure is session-fatal.
pub fn decode_sdp(s: &str) -> (r: Result<String, SdpError>)
    ensures
        forall|orig: Seq<char>|
            s@ == b64url_of(sdp_deflated(orig)) ==> (r matches Ok(o) && o@ == orig),
{
    match b64url_decode(s) {
        None => Err(SdpError::InvalidBase64),
        Some(bytes) => match brotli_decompress(&bytes) {
            None => Err(SdpError::InvalidPayload),
            Some(out) => Ok(out),
        },
    }
}

} // verus!
