//! Compression of whole byte strings: the footer and the store metadata.

use crate::bytes::le_bytes;
use crate::config::Codec;
use crate::error::{Error, Result};
use vstd::prelude::*;

verus! {

/// The I/O error of the standard library.
#[verifier::external_type_specification]
#[verifier::external_body]
pub struct ExIoError(std::io::Error);

/// The decompression error of the `lz4_flex` crate.
#[verifier::external_type_specification]
#[verifier::external_body]
pub struct ExLz4Error(lz4_flex::block::DecompressError);

/// What a zstd stream holds, where it is one.
pub uninterp spec fn zstd_contents(stream: Seq<u8>) -> Option<Seq<u8>>;

/// What a length-prefixed LZ4 block holds, where it is one.
pub uninterp spec fn lz4_contents(block: Seq<u8>) -> Option<Seq<u8>>;

/// `zstd::stream::encode_all` at level 0, the default level. Believed: it
/// succeeds, since a slice can be read and a vector written without an error,
/// and what comes out is a zstd stream of the bytes. Which of the streams that
/// hold them it is, is left open. A lack of memory is not considered.
#[verifier::external_body]
fn zstd_encode(bytes: &[u8]) -> (frame: std::result::Result<Vec<u8>, std::io::Error>)
    ensures
        frame is Ok,
        zstd_contents(frame->Ok_0@) == Some(bytes@),
{
    zstd::stream::encode_all(bytes, 0)
}

/// `zstd::stream::decode_all`. Believed: whether some bytes are a zstd stream,
/// and what it holds, is a function of the bytes alone, and bytes that are none
/// give an error. A lack of memory is not considered.
#[verifier::external_body]
fn zstd_decode(stream: &[u8]) -> (bytes: std::result::Result<Vec<u8>, std::io::Error>)
    ensures
        match bytes {
            Ok(b) => zstd_contents(stream@) == Some(b@),
            Err(_) => zstd_contents(stream@) is None,
        },
{
    zstd::stream::decode_all(stream)
}

/// `lz4_flex::compress_prepend_size`. Believed: the length of the bytes comes
/// first, cut to 32 bits, and where it fits them the block holds the bytes.
/// Which of the blocks that hold them it is, is left open: the search for
/// matches depends on the machine's word.
#[verifier::external_body]
fn lz4_encode(bytes: &[u8]) -> (block: Vec<u8>)
    ensures
        block@.len() >= 4,
        block@.take(4) == le_bytes(bytes@.len() % 0x1_0000_0000, 4),
        bytes@.len() <= u32::MAX ==> lz4_contents(block@) == Some(bytes@),
{
    lz4_flex::compress_prepend_size(bytes)
}

/// `lz4_flex::decompress_size_prepended`. Believed: whether some bytes are a
/// length-prefixed block, and what it holds, is a function of the bytes alone,
/// and bytes that are none give an error. A lack of memory is not considered.
#[verifier::external_body]
fn lz4_decode(block: &[u8]) -> (bytes: std::result::Result<
    Vec<u8>,
    lz4_flex::block::DecompressError,
>)
    ensures
        match bytes {
            Ok(b) => lz4_contents(block@) == Some(b@),
            Err(_) => lz4_contents(block@) is None,
        },
{
    lz4_flex::decompress_size_prepended(block)
}

/// Why bytes could not be decompressed.
#[derive(Debug)]
pub enum DecodeError {
    /// The bytes are no zstd stream.
    Zstd(std::io::Error),
    /// The bytes are no length-prefixed LZ4 block.
    Lz4(lz4_flex::block::DecompressError),
}

/// What compressed bytes hold, where they are of that codec.
pub open spec fn unpacked_by(codec: Codec, bytes: Seq<u8>) -> Option<Seq<u8>> {
    match codec {
        Codec::Uncompressed => Some(bytes),
        Codec::Zstd => zstd_contents(bytes),
        Codec::Lz4 => lz4_contents(bytes),
    }
}

/// Some bytes are a compressed form of others. An LZ4 block holds what went in
/// only up to 4 GiB, the length that its prefix can name.
pub open spec fn packs(codec: Codec, bytes: Seq<u8>, packed: Seq<u8>) -> bool {
    match codec {
        Codec::Uncompressed => packed == bytes,
        Codec::Zstd => zstd_contents(packed) == Some(bytes),
        Codec::Lz4 => {
            &&& packed.len() >= 4
            &&& packed.take(4) == le_bytes(bytes.len() % 0x1_0000_0000, 4)
            &&& bytes.len() <= u32::MAX ==> lz4_contents(packed) == Some(bytes)
        },
    }
}

/// What was compressed decompresses to what went in.
pub proof fn law_packed_bytes_unpack(codec: Codec, bytes: Seq<u8>, packed: Seq<u8>)
    requires
        packs(codec, bytes, packed),
        codec == Codec::Lz4 ==> bytes.len() <= u32::MAX,
    ensures
        unpacked_by(codec, packed) == Some(bytes),
{
}

impl Codec {
    /// Compresses bytes.
    pub fn compress(self, bytes: Vec<u8>) -> (out: std::result::Result<Vec<u8>, std::io::Error>)
        ensures
            out matches Ok(o) && packs(self, bytes@, o@),
    {
        match self {
            Codec::Uncompressed => Ok(bytes),
            Codec::Zstd => zstd_encode(bytes.as_slice()),
            Codec::Lz4 => Ok(lz4_encode(bytes.as_slice())),
        }
    }

    /// Decompresses bytes.
    pub fn decompress(self, bytes: &[u8]) -> (out: std::result::Result<Vec<u8>, DecodeError>)
        ensures
            match out {
                Ok(o) => unpacked_by(self, bytes@) == Some(o@),
                Err(_) => unpacked_by(self, bytes@) is None,
            },
    {
        match self {
            Codec::Uncompressed => Ok(vstd::slice::slice_to_vec(bytes)),
            Codec::Zstd => match zstd_decode(bytes) {
                Ok(o) => Ok(o),
                Err(e) => Err(DecodeError::Zstd(e)),
            },
            Codec::Lz4 => match lz4_decode(bytes) {
                Ok(o) => Ok(o),
                Err(e) => Err(DecodeError::Lz4(e)),
            },
        }
    }
}

/// A text that reports a footer that is no zstd stream: a fixed start, and what
/// the decoder says.
pub open spec fn no_zstd(text: Seq<char>) -> bool {
    exists|detail: Seq<char>| text == #[trigger] ("footer is not valid zstd: "@ + detail)
}

/// The bytes a container stores for an encoded footer: a zstd stream of it.
pub fn pack_footer(encoded: &[u8]) -> (bytes: std::result::Result<Vec<u8>, std::io::Error>)
    ensures
        bytes matches Ok(b) && zstd_contents(b@) == Some(encoded@),
{
    zstd_encode(encoded)
}

/// The encoded footer a container stores, or [`Error::CorruptCollection`] where
/// its bytes are no zstd stream.
pub fn unpack_footer(bytes: &[u8]) -> (encoded: Result<Vec<u8>>)
    ensures
        match encoded {
            Ok(e) => zstd_contents(bytes@) == Some(e@),
            Err(e) => zstd_contents(bytes@) is None && (e matches Error::CorruptCollection(text)
                && no_zstd(text@)),
        },
{
    match zstd_decode(bytes) {
        Ok(encoded) => Ok(encoded),
        Err(e) => {
            let detail: String = e.to_string();
            let mut text: String = "footer is not valid zstd: ".to_owned();
            text.append(detail.as_str());
            assert(text@ == "footer is not valid zstd: "@ + detail@);
            Err(Error::CorruptCollection(text))
        },
    }
}

} // verus!
