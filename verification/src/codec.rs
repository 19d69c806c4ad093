//! Byte-to-text and gzip conversions that the sync payloads go through.

use vstd::prelude::*;
use vstd::utf8::*;

use std::io::{Read, Write};

verus! {

/// Names what flate2's gzip encoder (best compression, over a `Vec`) makes of
/// `data`: the stream, or the text of an I/O error.
pub uninterp spec fn gzip_compress_best(data: Seq<u8>) -> Result<Seq<u8>, Seq<char>>;

/// Names what flate2's `GzDecoder::read_to_string` gives for `data`: the
/// decompressed text, or the text of its error (not gzip, or not UTF-8).
pub uninterp spec fn gunzip_text(data: Seq<u8>) -> Result<Seq<char>, Seq<char>>;

/// Names the text of the error that `String::from_utf8` reports for `bytes`.
pub uninterp spec fn utf8_error_text(bytes: Seq<u8>) -> Seq<char>;

/// flate2's `GzEncoder` at `Compression::best()` over a `Vec`, written then
/// finished. Claimed: the named result, and a stream that `GzDecoder` reads
/// back to the text `data` encodes when `data` is UTF-8. Writing to a `Vec`
/// does not fail, but that is not stated.
#[verifier::external_body]
pub(crate) fn gzip_best(data: &[u8]) -> (r: Result<Vec<u8>, String>)
    ensures
        match r {
            Ok(c) => gzip_compress_best(data@) == Ok::<Seq<u8>, Seq<char>>(c@),
            Err(e) => gzip_compress_best(data@) == Err::<Seq<u8>, Seq<char>>(e@),
        },
        r matches Ok(c) ==> (valid_utf8(data@) ==> gunzip_text(c@) == Ok::<Seq<char>, Seq<char>>(
            decode_utf8(data@),
        )),
{
    let mut encoder = flate2::write::GzEncoder::new(Vec::new(), flate2::Compression::best());
    encoder.write_all(data).map_err(|e| e.to_string())?;
    encoder.finish().map_err(|e| e.to_string())
}

/// flate2's `GzDecoder` over `data`, read to a `String`. Claimed: the named result.
#[verifier::external_body]
pub(crate) fn gunzip_to_string(data: &[u8]) -> (r: Result<String, String>)
    ensures
        match r {
            Ok(s) => gunzip_text(data@) == Ok::<Seq<char>, Seq<char>>(s@),
            Err(e) => gunzip_text(data@) == Err::<Seq<char>, Seq<char>>(e@),
        },
{
    let mut decoder = flate2::read::GzDecoder::new(data);
    let mut s = String::new();
    decoder.read_to_string(&mut s).map_err(|e| e.to_string())?;
    Ok(s)
}

/// std's `String::from_utf8`, its error turned into its text. Claimed, as the
/// documentation says: it succeeds exactly on valid UTF-8, with the text the
/// bytes encode; the error's text is named.
#[verifier::external_body]
pub(crate) fn string_from_utf8(bytes: Vec<u8>) -> (r: Result<String, String>)
    ensures
        (r is Ok) == valid_utf8(bytes@),
        r matches Ok(s) ==> s@ == decode_utf8(bytes@),
        r matches Err(e) ==> e@ == utf8_error_text(bytes@),
{
    String::from_utf8(bytes).map_err(|e| e.to_string())
}

/// Names whether serde_json reads `text` as one JSON value (with nothing but
/// white space after it).
pub uninterp spec fn is_json(text: Seq<char>) -> bool;

/// serde_json's `from_str::<serde_json::Value>`, asked only whether it
/// succeeds. Claimed: the named answer.
#[verifier::external_body]
pub(crate) fn json_is_valid(text: &str) -> (r: bool)
    ensures
        r == is_json(text@),
{
    serde_json::from_str::<serde_json::Value>(text).is_ok()
}

/// The UTF-8 bytes of a text.
pub fn text_bytes(s: &str) -> (r: Vec<u8>)
    ensures
        r@ == encode_utf8(s@),
{
    let b = s.as_bytes();
    let mut v: Vec<u8> = Vec::new();
    let mut i: usize = 0;
    while i < b.len()
        invariant
            i <= b@.len(),
            v@ == b@.take(i as int),
        decreases b@.len() - i,
    {
        v.push(b[i]);
        i += 1;
        assert(v@ =~= b@.take(i as int));
    }
    assert(b@.take(i as int) =~= b@);
    v
}

} // verus!
