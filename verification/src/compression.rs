//! Zstd compression of raw file contents for storage, and its inverse.

use vstd::prelude::*;

use vstd::utf8::{decode_utf8, encode_utf8, valid_utf8};

verus! {

/// Compression level (3 = balanced speed/ratio).
pub const COMPRESSION_LEVEL: i32 = 3;

/// The zstd frame that `zstd::encode_all` produces for `content` at
/// `level`.
pub uninterp spec fn zstd_frame(content: Seq<u8>, level: i32) -> Seq<u8>;

/// `zstd::encode_all` over a byte slice.
///
/// Trusted: on success the bytes are the frame of `content` at `level`, a
/// function of the two alone. Reading from a slice and writing into a
/// `Vec` cannot fail, and the compression level 3 is valid, so at that
/// level the call succeeds (running out of memory aborts instead of
/// returning an error).
#[verifier::external_body]
fn zstd_encode(content: &[u8], level: i32) -> (r: Result<Vec<u8>, String>)
    ensures
        level == COMPRESSION_LEVEL ==> r is Ok,
        r matches Ok(v) ==> v@ == zstd_frame(content@, level),
{
    zstd::encode_all(content, level).map_err(|e| e.to_string())
}

/// `zstd::decode_all` over a byte slice.
///
/// Trusted: zstd is lossless, so the frame of some content decodes to that
/// content; of other input nothing is claimed.
#[verifier::external_body]
fn zstd_decode(compressed: &[u8]) -> (r: Result<Vec<u8>, String>)
    ensures
        r is Err ==> forall|content: Seq<u8>, level: i32| compressed@ != #[trigger] zstd_frame(content, level),
        r matches Ok(v) ==> forall|content: Seq<u8>, level: i32|
            compressed@ == #[trigger] zstd_frame(content, level) ==> v@ == content,
{
    zstd::decode_all(compressed).map_err(|e| e.to_string())
}

/// `String::from_utf8`.
///
/// Trusted: it succeeds exactly on valid UTF-8, and then holds the decoded
/// characters; otherwise it hands the bytes back.
#[verifier::external_body]
fn utf8_string(bytes: Vec<u8>) -> (r: Result<String, Vec<u8>>)
    ensures
        (r is Ok) == valid_utf8(bytes@),
        r matches Ok(s) ==> s@ == decode_utf8(bytes@),
{
    String::from_utf8(bytes).map_err(|e| e.into_bytes())
}

/// Why decompression failed.
#[derive(Debug, Clone, PartialEq, Eq)]
pub enum DecompressionError {
    /// The input is no zstd data (with the decoder's message).
    Io(String),
    /// The decompressed bytes are not UTF-8.
    InvalidUtf8(Vec<u8>),
}

/// Compresses the UTF-8 bytes of `content` at the compression level; this
/// always succeeds.
pub fn compress(content: &str) -> (r: Result<Vec<u8>, String>)
    ensures
        r is Ok,
        r matches Ok(v) ==> v@ == zstd_frame(encode_utf8(content@), COMPRESSION_LEVEL),
{
    zstd_encode(content.as_bytes(), COMPRESSION_LEVEL)
}

/// Decompresses zstd data into text: the frame of some text gives that
/// text back.
pub fn decompress(compressed: &[u8]) -> (r: Result<String, DecompressionError>)
    ensures
        forall|text: Seq<char>|
            compressed@ == #[trigger] zstd_frame(encode_utf8(text), COMPRESSION_LEVEL) ==> (r matches Ok(s) && s@ == text),
{
    match zstd_decode(compressed) {
        Ok(bytes) => {
            let ghost b = bytes@;
            match utf8_string(bytes) {
                Ok(s) => {
                    proof {
                        assert forall|text: Seq<char>|
                            compressed@ == #[trigger] zstd_frame(encode_utf8(text), COMPRESSION_LEVEL) implies s@ == text by {
                            vstd::utf8::encode_utf8_decode_utf8(text);
                        }
                    }
                    Ok(s)
                },
                Err(raw) => {
                    proof {
                        assert forall|text: Seq<char>|
                            !(compressed@ == #[trigger] zstd_frame(encode_utf8(text), COMPRESSION_LEVEL)) by {
                            if compressed@ == zstd_frame(encode_utf8(text), COMPRESSION_LEVEL) {
                                vstd::utf8::encode_utf8_valid_utf8(text);
                            }
                        }
                    }
                    Err(DecompressionError::InvalidUtf8(raw))
                },
            }
        },
        Err(message) => Err(DecompressionError::Io(message)),
    }
}

} // verus!
