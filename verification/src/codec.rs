//! Trusted bindings to the body codecs: gzip, deflate and brotli compression,
//! base64, and WHATWG charset conversion. Each binding's contract states what
//! the outside crate documents; the logic around them is verified elsewhere.

use base64::Engine;
use encoding_rs::{Encoding, UTF_8};
use flate2::read::{DeflateDecoder, GzDecoder};
use flate2::write::{DeflateEncoder, GzEncoder};
use flate2::Compression;
use std::io::{Read, Write};
use vstd::prelude::*;
use vstd::string::StringSliceAdditionalSpecFns;
use vstd::utf8::{encode_utf8, valid_utf8};

verus! {

/// What gzip decompression yields for the given bytes, or nothing when they
/// are not a well-formed gzip stream.
pub uninterp spec fn gunzip_of(data: Seq<u8>) -> Option<Seq<u8>>;

/// What raw-deflate decompression yields for the given bytes, if anything.
pub uninterp spec fn inflate_of(data: Seq<u8>) -> Option<Seq<u8>>;

/// What brotli decompression yields for the given bytes, if anything.
pub uninterp spec fn unbr_of(data: Seq<u8>) -> Option<Seq<u8>>;

/// Relies on flate2's `GzEncoder` at the default level; decoding the result
/// with `GzDecoder` gives back the input.
#[verifier::external_body]
pub(crate) fn gzip_compress(data: &[u8]) -> (r: Vec<u8>)
    ensures
        gunzip_of(r@) == Some(data@),
{
    let mut enc = GzEncoder::new(Vec::new(), Compression::default());
    let _ = enc.write_all(data);
    enc.finish().unwrap_or_default()
}

/// Relies on flate2's `GzDecoder`: yields the decompressed stream, or fails
/// on input that is not well-formed gzip.
#[verifier::external_body]
pub(crate) fn gzip_decompress(data: &[u8]) -> (r: Option<Vec<u8>>)
    ensures
        match r {
            Some(v) => gunzip_of(data@) == Some(v@),
            None => gunzip_of(data@) is None,
        },
{
    let mut dec = GzDecoder::new(data);
    let mut out = Vec::new();
    match dec.read_to_end(&mut out) {
        Ok(_) => Some(out),
        Err(_) => None,
    }
}

/// Relies on flate2's `DeflateEncoder` at the default level; decoding the
/// result with `DeflateDecoder` gives back the input.
#[verifier::external_body]
pub(crate) fn deflate_compress(data: &[u8]) -> (r: Vec<u8>)
    ensures
        inflate_of(r@) == Some(data@),
{
    let mut enc = DeflateEncoder::new(Vec::new(), Compression::default());
    let _ = enc.write_all(data);
    enc.finish().unwrap_or_default()
}

/// Relies on flate2's `DeflateDecoder`: yields the decompressed stream, or
/// fails on input that is not a well-formed raw-deflate stream.
#[verifier::external_body]
pub(crate) fn deflate_decompress(data: &[u8]) -> (r: Option<Vec<u8>>)
    ensures
        match r {
            Some(v) => inflate_of(data@) == Some(v@),
            None => inflate_of(data@) is None,
        },
{
    let mut dec = DeflateDecoder::new(data);
    let mut out = Vec::new();
    match dec.read_to_end(&mut out) {
        Ok(_) => Some(out),
        Err(_) => None,
    }
}

/// Relies on `brotli::BrotliCompress` with default parameters; decompressing
/// the result gives back the input.
#[verifier::external_body]
pub(crate) fn brotli_compress(data: &[u8]) -> (r: Vec<u8>)
    ensures
        unbr_of(r@) == Some(data@),
{
    let mut out = Vec::new();
    match brotli::BrotliCompress(&mut std::io::Cursor::new(data), &mut out, &Default::default()) {
        Ok(_) => out,
        Err(_) => Vec::new(),
    }
}

/// Relies on `brotli::BrotliDecompress`: yields the decompressed stream, or
/// fails on input that is not a well-formed brotli stream.
#[verifier::external_body]
pub(crate) fn brotli_decompress(data: &[u8]) -> (r: Option<Vec<u8>>)
    ensures
        match r {
            Some(v) => unbr_of(data@) == Some(v@),
            None => unbr_of(data@) is None,
        },
{
    let mut out = Vec::new();
    match brotli::BrotliDecompress(&mut std::io::Cursor::new(data), &mut out) {
        Ok(_) => Some(out),
        Err(_) => None,
    }
}

/// The standard-alphabet, padded base64 text for the given bytes.
pub uninterp spec fn b64_of(data: Seq<u8>) -> Seq<u8>;

/// What standard base64 decoding yields for the given text, if anything.
pub uninterp spec fn b64_decode_of(text: Seq<u8>) -> Option<Seq<u8>>;

/// Relies on base64's standard engine: the padded standard-alphabet encoding,
/// which its decoder inverts.
#[verifier::external_body]
pub(crate) fn b64_encode(data: &[u8]) -> (r: String)
    ensures
        encode_utf8(r@) == b64_of(data@),
        b64_decode_of(encode_utf8(r@)) == Some(data@),
{
    base64::engine::general_purpose::STANDARD.encode(data)
}

/// Relies on base64's standard engine decode: succeeds exactly on well-formed
/// standard base64.
#[verifier::external_body]
pub(crate) fn b64_decode(text: &str) -> (r: Option<Vec<u8>>)
    ensures
        match r {
            Some(v) => b64_decode_of(text.spec_bytes()) == Some(v@),
            None => b64_decode_of(text.spec_bytes()) is None,
        },
{
    base64::engine::general_purpose::STANDARD.decode(text).ok()
}

/// The canonical encoding name that `encoding_rs` resolves a WHATWG label to,
/// or nothing for an unknown label.
pub uninterp spec fn encoding_name_of_label(label: Seq<u8>) -> Option<Seq<u8>>;

/// What decoding the given bytes under the encoding labeled `label` yields
/// (with UTF-8 as the fallback for unknown labels), and that encoding's
/// canonical name.
pub uninterp spec fn decoded_as(label: Seq<u8>, bytes: Seq<u8>) -> Seq<char>;

/// What encoding the given text under the encoding labeled `label` yields,
/// with UTF-8 as the fallback for unknown labels.
pub uninterp spec fn encoded_as(label: Seq<u8>, text: Seq<char>) -> Seq<u8>;

/// Relies on `encoding_rs::Encoding::for_label` and `name`: resolves a WHATWG
/// label to its canonical encoding name.
#[verifier::external_body]
pub(crate) fn encoding_name_for_label(label: &[u8]) -> (r: Option<String>)
    ensures
        match r {
            Some(n) => encoding_name_of_label(label@) == Some(encode_utf8(n@)),
            None => encoding_name_of_label(label@) is None,
        },
{
    Encoding::for_label(label).map(|e| e.name().to_string())
}

/// Relies on `encoding_rs::Encoding::decode` after `for_label`, with UTF-8
/// for unknown labels: decodes the bytes to text, replacing malformed input,
/// and reports the name of the encoding actually used.
#[verifier::external_body]
pub(crate) fn decode_with_label(label: &[u8], bytes: &[u8]) -> (r: (String, &'static str))
    ensures
        r.0@ == decoded_as(label@, bytes@),
{
    let enc = Encoding::for_label(label).unwrap_or(UTF_8);
    let (cow, used, _had_errors) = enc.decode(bytes);
    (cow.into_owned(), used.name())
}

/// Relies on `encoding_rs::Encoding::encode` after `for_label`, with UTF-8
/// for unknown labels: encodes the text into the target encoding, replacing
/// unmappable characters.
#[verifier::external_body]
pub(crate) fn encode_with_label(label: &[u8], text: &str) -> (r: Vec<u8>)
    ensures
        r@ == encoded_as(label@, text@),
{
    let enc = Encoding::for_label(label).unwrap_or(UTF_8);
    let (cow, _used, _had_errors) = enc.encode(text);
    cow.into_owned()
}

/// Relies on `core::str::from_utf8`: succeeds exactly on valid UTF-8 and
/// views the same bytes as text.
#[verifier::external_body]
pub(crate) fn str_from_utf8(v: &[u8]) -> (r: Option<&str>)
    ensures
        match r {
            Some(s) => valid_utf8(v@) && s.spec_bytes() == v@,
            None => !valid_utf8(v@),
        },
{
    core::str::from_utf8(v).ok()
}

} // verus!
