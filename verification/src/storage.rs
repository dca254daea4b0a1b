//! The bytes of an `.askey` file: gzip-compressed JSON text, or the JSON text itself.

use vstd::prelude::*;
use vstd::utf8::{decode_utf8, valid_utf8};
use std::io::{Read, Write};
use flate2::Compression;
use flate2::read::GzDecoder;
use flate2::write::GzEncoder;

verus! {

/// Why the bytes of a file are not the text of a document.
#[derive(Debug, Clone, Copy, PartialEq, Eq, Structural)]
pub enum DecodeError {
    /// The bytes are neither gzip-compressed text nor UTF-8 text.
    NotText,
}

/// The text that `flate2`'s gzip decoder reads from `data`, when it reads one.
pub uninterp spec fn gunzip_text(data: Seq<u8>) -> Option<Seq<char>>;

/// The bytes that `flate2`'s gzip encoder writes for `text` at the best compression level.
pub uninterp spec fn gzip_best(text: Seq<char>) -> Seq<u8>;

/// Reads `data` as one gzip member holding UTF-8 text with `flate2::read::GzDecoder`
/// and `Read::read_to_string`.
///
/// Trusted: the result is named by `gunzip_text`, a function of the bytes alone. Bytes
/// shorter than the 10-byte gzip header, or not starting with the identification bytes
/// `1f 8b`, are refused when the header is read.
#[verifier::external_body]
fn gunzip_to_string(data: &[u8]) -> (r: Option<String>)
    ensures
        !gzip_magic(data@) ==> r is None,
        match r {
            Some(s) => gunzip_text(data@) == Some(s@),
            None => gunzip_text(data@) is None,
        },
{
    let mut decoder = GzDecoder::new(data);
    let mut s = String::new();
    match decoder.read_to_string(&mut s) {
        Ok(_) => Some(s),
        Err(_) => None,
    }
}

/// Compresses `text` as one gzip member with `flate2::write::GzEncoder` at `Compression::best()`.
///
/// Trusted: the bytes are named by `gzip_best`, and gzip being lossless, the decoder reads
/// the same text back from them. The encoder reports no error here: writing into a `Vec`
/// takes every byte and never fails, and the deflate backend reports errors only for bad
/// parameters or for use after the stream has ended, which this call does not make.
#[verifier::external_body]
fn gzip_to_bytes(text: &str) -> (r: Option<Vec<u8>>)
    ensures
        r is Some,
        r matches Some(b) ==> b@ == gzip_best(text@) && gunzip_text(b@) == Some(text@),
{
    let mut encoder = GzEncoder::new(Vec::new(), Compression::best());
    match encoder.write_all(text.as_bytes()) {
        Ok(()) => {},
        Err(_) => return None,
    }
    match encoder.finish() {
        Ok(b) => Some(b),
        Err(_) => None,
    }
}

/// Reads bytes as UTF-8 text with `std::str::from_utf8`.
///
/// Trusted: `from_utf8` succeeds exactly on valid UTF-8 and then holds the decoded characters.
#[verifier::external_body]
fn utf8_to_string(data: &[u8]) -> (r: Option<String>)
    ensures
        match r {
            Some(s) => valid_utf8(data@) && s@ == decode_utf8(data@),
            None => !valid_utf8(data@),
        },
{
    match std::str::from_utf8(data) {
        Ok(s) => Some(s.to_string()),
        Err(_) => None,
    }
}

/// Whether bytes begin like gzip data: a full 10-byte header starting with `1f 8b`.
pub open spec fn gzip_magic(data: Seq<u8>) -> bool {
    data.len() >= 10 && data[0] == 0x1f && data[1] == 0x8b
}

/// The text of a file: gzip-decoded when the bytes are gzip-compressed text,
/// else the bytes themselves read as UTF-8.
pub open spec fn file_text(raw: Seq<u8>) -> Result<Seq<char>, DecodeError> {
    match gunzip_text(raw) {
        Some(t) => Ok(t),
        None => if valid_utf8(raw) {
            Ok(decode_utf8(raw))
        } else {
            Err(DecodeError::NotText)
        },
    }
}

/// The JSON text held in the bytes of an `.askey` file, and whether it was gzip-compressed.
pub fn askey_text(raw: &[u8]) -> (r: Result<(String, bool), DecodeError>)
    ensures
        match r {
            Ok((s, gz)) => file_text(raw@) == Ok::<Seq<char>, DecodeError>(s@) && gz == gunzip_text(raw@).is_some(),
            Err(e) => file_text(raw@) == Err::<Seq<char>, DecodeError>(e),
        },
        !gzip_magic(raw@) ==> (r is Ok <==> valid_utf8(raw@)),
        !gzip_magic(raw@) ==> (r matches Ok((s, gz)) ==> s@ == decode_utf8(raw@) && !gz),
{
    match gunzip_to_string(raw) {
        Some(s) => Ok((s, true)),
        None => match utf8_to_string(raw) {
            Some(s) => Ok((s, false)),
            None => Err(DecodeError::NotText),
        },
    }
}

/// The bytes of an `.askey` file holding `text`: gzip-compressed at the best level.
/// It always succeeds, and what it returns reads back as the same text.
pub fn compress_askey_text(text: &str) -> (r: Option<Vec<u8>>)
    ensures
        r is Some,
        r matches Some(b) ==> b@ == gzip_best(text@) && file_text(b@) == Ok::<Seq<char>, DecodeError>(text@),
{
    gzip_to_bytes(text)
}

} // verus!
