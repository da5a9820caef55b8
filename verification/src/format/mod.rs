//! On-disk framing for an atlas collection.
//!
//! A collection is a store prefix that holds two objects:
//!
//! ```text
//! my_collection/
//!   data.atlas      write-once container: segments + footer + trailer
//!   deleted.mask    optional: ordinals of deleted datasets
//! ```
//!
//! # Container layout
//!
//! ```text
//! offset 0    b"ATLS"                     4 B   leading magic
//! offset 4    format_version u32 LE = 1   4 B
//! offset 8    segments                          back to back, no padding
//!             footer_bytes                      zstd(msgpack(CollectionFooter))
//! end - 16    footer_size u64 LE          8 B   trailer
//! end - 8     format_version u32 LE = 1   4 B
//! end - 4     b"ATLS"                     4 B
//! ```

pub mod footer;
pub mod mask;
pub mod paths;
pub mod pool;
pub mod segment;

use crate::bytes::{
    law_le_roundtrip, le_bytes, le_value, lemma_le_ranges, lemma_le_value_bound, read_le,
};
use crate::error::{seen, Error, Result};
use crate::text::{decimal, decimal_text};
use vstd::prelude::*;

verus! {

/// Version of the container framing and of the footer schema. They move
/// together: a footer field change is a format change.
pub const FORMAT_VERSION: u32 = 1;

/// Bytes before the first segment: magic + version.
pub const HEADER_SIZE: u64 = 8;

/// Bytes after the footer: footer size + version + magic.
pub const TRAILER_SIZE: u64 = 16;

/// Footer version of the segments embedded in the container. Recorded in the
/// container footer so a reader can dispatch on it.
pub const SEGMENT_FORMAT: u32 = 5;

/// Container object name under the collection prefix.
pub const DATA_FILE: &'static str = "data.atlas";

/// Deletion-mask object name under the collection prefix.
pub const MASK_FILE: &'static str = "deleted.mask";

/// The variable whose segment holds every dataset's own attributes.
pub const DATASET_ATTRS_VARIABLE: &'static str = "_datasets";

/// How many trailing bytes to read speculatively when opening. Sized so the
/// footer of a small or medium collection arrives in the same request as the
/// trailer.
pub const TAIL_PROBE_SIZE: u64 = 65_536;

/// Magic at the first four bytes of the container, and at its last four.
pub open spec fn magic() -> Seq<u8> {
    seq![65u8, 84u8, 76u8, 83u8]
}

/// The container header.
pub open spec fn header_bytes() -> Seq<u8> {
    magic() + le_bytes(FORMAT_VERSION as nat, 4)
}

/// The container trailer for a footer of the given size.
pub open spec fn trailer_bytes(footer_size: nat) -> Seq<u8> {
    le_bytes(footer_size, 8) + le_bytes(FORMAT_VERSION as nat, 4) + magic()
}

/// What the last bytes of a container say of the footer's size.
pub open spec fn trailer_of(bytes: Seq<u8>) -> std::result::Result<u64, Error<Seq<char>>> {
    if bytes.len() < TRAILER_SIZE {
        Err(
            Error::NotAnAtlasCollection {
                hint: "file is "@ + decimal(bytes.len())
                    + " bytes, shorter than the 16-byte trailer"@,
            },
        )
    } else {
        let t = bytes.skip(bytes.len() - TRAILER_SIZE);
        let version = le_value(t.subrange(8, 12));
        if t.skip(12) != magic() {
            Err(
                Error::NotAnAtlasCollection { hint: "the file does not end with the ATLS magic"@ },
            )
        } else if version != FORMAT_VERSION {
            Err(Error::UnsupportedVersion { found: version as u32, expected: FORMAT_VERSION })
        } else {
            Ok(le_value(t.take(8)) as u64)
        }
    }
}

/// What the first bytes of a container say of it.
pub open spec fn header_of(bytes: Seq<u8>) -> std::result::Result<(), Error<Seq<char>>> {
    if bytes.len() < HEADER_SIZE || bytes.take(4) != magic() {
        Err(Error::NotAnAtlasCollection { hint: "the file does not start with the ATLS magic"@ })
    } else {
        let version = le_value(bytes.subrange(4, 8));
        if version != FORMAT_VERSION {
            Err(Error::UnsupportedVersion { found: version as u32, expected: FORMAT_VERSION })
        } else {
            Ok(())
        }
    }
}

fn is_magic(bytes: &[u8], at: usize) -> (same: bool)
    requires
        at + 4 <= bytes@.len(),
    ensures
        same == (bytes@.subrange(at as int, at + 4) == magic()),
{
    let same = bytes[at] == 65 && bytes[at + 1] == 84 && bytes[at + 2] == 76 && bytes[at + 3] == 83;
    proof {
        let part = bytes@.subrange(at as int, at + 4);
        assert(part[0] == bytes@[at as int]);
        assert(part[1] == bytes@[at + 1]);
        assert(part[2] == bytes@[at + 2]);
        assert(part[3] == bytes@[at + 3]);
        if same {
            assert(part =~= magic());
        }
    }
    same
}

/// Encodes the 8-byte container header.
pub fn encode_header() -> (header: [u8; 8])
    ensures
        header@ == header_bytes(),
{
    let header: [u8; 8] = [65, 84, 76, 83, 1, 0, 0, 0];
    proof {
        reveal_with_fuel(le_bytes, 5);
        assert(header@ =~= header_bytes());
    }
    header
}

/// Encodes the 16-byte container trailer for a footer of `footer_size` bytes.
pub fn encode_trailer(footer_size: u64) -> (trailer: [u8; 16])
    ensures
        trailer@ == trailer_bytes(footer_size as nat),
{
    let n: u64 = footer_size;
    let trailer: [u8; 16] = [
        (n % 256) as u8,
        (n / 256 % 256) as u8,
        (n / 256 / 256 % 256) as u8,
        (n / 256 / 256 / 256 % 256) as u8,
        (n / 256 / 256 / 256 / 256 % 256) as u8,
        (n / 256 / 256 / 256 / 256 / 256 % 256) as u8,
        (n / 256 / 256 / 256 / 256 / 256 / 256 % 256) as u8,
        (n / 256 / 256 / 256 / 256 / 256 / 256 / 256 % 256) as u8,
        1,
        0,
        0,
        0,
        65,
        84,
        76,
        83,
    ];
    proof {
        reveal_with_fuel(le_bytes, 9);
        assert(trailer@ =~= trailer_bytes(footer_size as nat));
    }
    trailer
}

/// Reads the trailer from the last [`TRAILER_SIZE`] bytes of a container.
///
/// Returns the footer size. Rejects a foreign file on the magic, and a
/// container written by another format version on the version.
pub fn decode_trailer(bytes: &[u8]) -> (size: Result<u64>)
    ensures
        seen(size) == trailer_of(bytes@),
{
    let len: usize = bytes.len();
    if len < 16 {
        let mut hint: String = "file is ".to_owned();
        hint.append(decimal_text(len as u64).as_str());
        hint.append(" bytes, shorter than the 16-byte trailer");
        return Err(Error::NotAnAtlasCollection { hint });
    }
    let start: usize = len - 16;
    let ghost t = bytes@.skip(start as int);
    proof {
        assert(t.skip(12) =~= bytes@.subrange(start + 12, start + 16));
        assert(t.subrange(8, 12) =~= bytes@.subrange(start + 8, start + 12));
        assert(t.take(8) =~= bytes@.subrange(start as int, start + 8));
        crate::bytes::lemma_le_value_bound(t.subrange(8, 12));
        crate::bytes::lemma_le_value_bound(t.take(8));
        lemma_le_ranges();
    }
    if !is_magic(bytes, start + 12) {
        return Err(
            Error::NotAnAtlasCollection {
                hint: "the file does not end with the ATLS magic".to_owned(),
            },
        );
    }
    let version: u64 = read_le(bytes, start + 8, 4);
    if version != FORMAT_VERSION as u64 {
        return Err(Error::UnsupportedVersion { found: version as u32, expected: FORMAT_VERSION });
    }
    Ok(read_le(bytes, start, 8))
}

/// Checks the 8-byte container header. Called once per open, on bytes the
/// reader already holds when the whole container fits in the tail probe.
pub fn check_header(bytes: &[u8]) -> (verdict: Result<()>)
    ensures
        seen(verdict) == header_of(bytes@),
{
    proof {
        if bytes@.len() >= 8 {
            assert(bytes@.take(4) =~= bytes@.subrange(0, 4));
            crate::bytes::lemma_le_value_bound(bytes@.subrange(4, 8));
            lemma_le_ranges();
        }
    }
    if bytes.len() < 8 || !is_magic(bytes, 0) {
        return Err(
            Error::NotAnAtlasCollection {
                hint: "the file does not start with the ATLS magic".to_owned(),
            },
        );
    }
    let version: u64 = read_le(bytes, 4, 4);
    if version != FORMAT_VERSION as u64 {
        return Err(Error::UnsupportedVersion { found: version as u32, expected: FORMAT_VERSION });
    }
    Ok(())
}

/// The trailer gives back the footer size it was made with, wherever it stands
/// behind other bytes of the file.
pub proof fn law_trailer_is_found_behind_any_bytes(before: Seq<u8>, footer_size: u64)
    ensures
        trailer_bytes(footer_size as nat).len() == TRAILER_SIZE,
        trailer_of(before + trailer_bytes(footer_size as nat)) == Ok::<u64, Error<Seq<char>>>(
            footer_size,
        ),
{
    let trailer = trailer_bytes(footer_size as nat);
    lemma_le_ranges();
    law_le_roundtrip(footer_size as nat, 8);
    law_le_roundtrip(FORMAT_VERSION as nat, 4);
    let bytes = before + trailer;
    let t = bytes.skip(bytes.len() - TRAILER_SIZE);
    assert(t =~= trailer);
    assert(t.skip(12) =~= magic());
    assert(t.subrange(8, 12) =~= le_bytes(FORMAT_VERSION as nat, 4));
    assert(t.take(8) =~= le_bytes(footer_size as nat, 8));
}

/// A file that starts with the container header passes the header check.
pub proof fn law_header_is_accepted(after: Seq<u8>)
    ensures
        header_bytes().len() == HEADER_SIZE,
        header_of(header_bytes() + after) == Ok::<(), Error<Seq<char>>>(()),
{
    lemma_le_ranges();
    law_le_roundtrip(FORMAT_VERSION as nat, 4);
    let bytes = header_bytes() + after;
    assert(bytes.take(4) =~= magic());
    assert(bytes.subrange(4, 8) =~= le_bytes(FORMAT_VERSION as nat, 4));
}

/// Only a container is read: its trailer is accepted exactly where the last four
/// bytes are the magic and the four before them are the version. The eight bytes
/// in front of those are the size of the footer.
pub proof fn law_only_containers_have_a_trailer(bytes: Seq<u8>)
    ensures
        bytes.len() < TRAILER_SIZE ==> trailer_of(bytes) is Err,
        bytes.len() >= TRAILER_SIZE ==> {
            let n = bytes.len() as int;
            &&& trailer_of(bytes) is Ok <==> {
                &&& bytes[n - 4] == 65 && bytes[n - 3] == 84 && bytes[n - 2] == 76 && bytes[n - 1]
                    == 83
                &&& le_value(bytes.subrange(n - 8, n - 4)) == FORMAT_VERSION
            }
            &&& trailer_of(bytes) matches Ok(size) ==> size == le_value(
                bytes.subrange(n - 16, n - 8),
            )
        },
{
    if bytes.len() >= TRAILER_SIZE {
        let n = bytes.len() as int;
        let t = bytes.skip(n - TRAILER_SIZE);
        let end = t.skip(12);
        assert(end[0] == bytes[n - 4] && end[1] == bytes[n - 3] && end[2] == bytes[n - 2] && end[3]
            == bytes[n - 1]);
        if end[0] == 65 && end[1] == 84 && end[2] == 76 && end[3] == 83 {
            assert(end =~= magic());
        }
        assert(t.subrange(8, 12) =~= bytes.subrange(n - 8, n - 4));
        assert(t.take(8) =~= bytes.subrange(n - 16, n - 8));
        lemma_le_value_bound(t.take(8));
        lemma_le_ranges();
    }
}

/// Only a container is read: its header is accepted exactly where the first four
/// bytes are the magic and the next four are the version.
pub proof fn law_only_containers_have_a_header(bytes: Seq<u8>)
    ensures
        header_of(bytes) is Ok <==> {
            &&& bytes.len() >= HEADER_SIZE
            &&& bytes[0] == 65 && bytes[1] == 84 && bytes[2] == 76 && bytes[3] == 83
            &&& le_value(bytes.subrange(4, 8)) == FORMAT_VERSION
        },
{
    if bytes.len() >= HEADER_SIZE {
        let start = bytes.take(4);
        assert(start[0] == bytes[0] && start[1] == bytes[1] && start[2] == bytes[2] && start[3]
            == bytes[3]);
        if start[0] == 65 && start[1] == 84 && start[2] == 76 && start[3] == 83 {
            assert(start =~= magic());
        }
    }
}

} // verus!
