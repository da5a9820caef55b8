//! What an open fetches.
//!
//! One request reads the tail of the container. Most footers fit in it; a
//! larger one takes a second request.

use crate::error::{seen, Error, Result};
use crate::format::{
    check_header, decode_trailer, header_of, trailer_of, HEADER_SIZE, TAIL_PROBE_SIZE,
    TRAILER_SIZE,
};
use crate::text::{decimal, decimal_text};
use vstd::prelude::*;

verus! {

/// How many trailing bytes an open reads first.
pub open spec fn probe_size(size: u64) -> u64 {
    if size < TAIL_PROBE_SIZE {
        size
    } else {
        TAIL_PROBE_SIZE
    }
}

/// Decides how many trailing bytes of the container an open reads first. `size`
/// is its length in bytes, where there is one. A file that cannot hold a header
/// and a trailer is no collection.
pub fn plan_open(size: Option<u64>) -> (probe: Result<u64>)
    ensures
        match probe {
            Ok(n) => size is Some && size->Some_0 >= HEADER_SIZE + TRAILER_SIZE && n == probe_size(
                size->Some_0,
            ),
            Err(e) => e@ == (Error::NotAnAtlasCollection {
                hint: match size {
                    None => "no 'data.atlas' under this prefix"@,
                    Some(n) => "file is "@ + decimal(n as nat)
                        + " bytes, too short to hold a header and a trailer"@,
                },
            }) && (size is Some ==> size->Some_0 < HEADER_SIZE + TRAILER_SIZE),
        },
{
    let size: u64 = match size {
        Some(size) => size,
        None => {
            return Err(
                Error::NotAnAtlasCollection {
                    hint: "no 'data.atlas' under this prefix".to_owned(),
                },
            );
        },
    };
    if size < HEADER_SIZE + TRAILER_SIZE {
        let mut hint: String = "file is ".to_owned();
        hint.append(decimal_text(size).as_str());
        hint.append(" bytes, too short to hold a header and a trailer");
        return Err(Error::NotAnAtlasCollection { hint });
    }
    if size < TAIL_PROBE_SIZE {
        Ok(size)
    } else {
        Ok(TAIL_PROBE_SIZE)
    }
}

/// Where the footer of a collection is.
#[derive(Debug, Clone, Copy, PartialEq, Eq)]
pub enum FooterPlace {
    /// Between these positions of the tail that was read.
    InTail {
        /// Its first byte.
        from: usize,
        /// The byte behind its last.
        to: usize,
    },
    /// Between these positions of the file.
    InFile {
        /// Its first byte.
        start: u64,
        /// The byte behind its last.
        end: u64,
    },
}

/// Where the footer of a file is, as its tail says.
pub open spec fn footer_place(size: u64, tail: Seq<u8>) -> std::result::Result<
    FooterPlace,
    Error<Seq<char>>,
> {
    let probe = probe_size(size);
    let end = size - TRAILER_SIZE;
    match trailer_of(tail) {
        Err(e) => Err(e),
        Ok(footer_size) => if size <= probe && header_of(tail) is Err {
            Err(header_of(tail)->Err_0)
        } else if footer_size > end {
            Err(
                Error::CorruptCollection(
                    "footer claims "@ + decimal(footer_size as nat)
                        + " bytes but the file holds only "@ + decimal(end as nat)
                        + " before the trailer"@,
                ),
            )
        } else if end - footer_size < HEADER_SIZE {
            Err(
                Error::CorruptCollection(
                    "footer of "@ + decimal(footer_size as nat)
                        + " bytes would start inside the container header"@,
                ),
            )
        } else if footer_size + TRAILER_SIZE <= probe {
            Ok(
                FooterPlace::InTail {
                    from: (probe - TRAILER_SIZE - footer_size) as usize,
                    to: (probe - TRAILER_SIZE) as usize,
                },
            )
        } else {
            Ok(FooterPlace::InFile { start: (end - footer_size) as u64, end: end as u64 })
        },
    }
}

/// Finds the footer of a file of `size` bytes from its tail. The trailer
/// settles whether the file is a collection; the header is checked only where
/// the tail already covers it.
pub fn locate_footer(size: u64, tail: &[u8]) -> (place: Result<FooterPlace>)
    requires
        size >= HEADER_SIZE + TRAILER_SIZE,
        tail@.len() == probe_size(size),
    ensures
        seen(place) == footer_place(size, tail@),
{
    let probe: u64 = tail.len() as u64;
    let footer_size: u64 = match decode_trailer(tail) {
        Ok(n) => n,
        Err(e) => {
            return Err(e);
        },
    };
    if size <= probe {
        match check_header(tail) {
            Ok(_) => {},
            Err(e) => {
                return Err(e);
            },
        }
    }
    let end: u64 = size - TRAILER_SIZE;
    if footer_size > end {
        let mut text: String = "footer claims ".to_owned();
        text.append(decimal_text(footer_size).as_str());
        text.append(" bytes but the file holds only ");
        text.append(decimal_text(end).as_str());
        text.append(" before the trailer");
        return Err(Error::CorruptCollection(text));
    }
    let start: u64 = end - footer_size;
    if start < HEADER_SIZE {
        let mut text: String = "footer of ".to_owned();
        text.append(decimal_text(footer_size).as_str());
        text.append(" bytes would start inside the container header");
        return Err(Error::CorruptCollection(text));
    }
    if footer_size + TRAILER_SIZE <= probe {
        let to: usize = tail.len() - 16;
        let from: usize = to - footer_size as usize;
        Ok(FooterPlace::InTail { from, to })
    } else {
        Ok(FooterPlace::InFile { start, end })
    }
}

/// A finished container gives back its footer: of a file made of a header,
/// segments, a footer and the trailer, the place found holds just the footer,
/// whether it is in the tail or has to be read.
pub proof fn law_footer_of_a_container_is_found(segments: Seq<u8>, footer: Seq<u8>)
    requires
        8 + segments.len() + footer.len() + 16 <= u64::MAX,
        8 + segments.len() + footer.len() + 16 <= usize::MAX,
    ensures
        ({
            let file = crate::format::header_bytes() + segments + footer
                + crate::format::trailer_bytes(footer.len());
            let size = file.len() as u64;
            let tail = file.skip(file.len() - probe_size(size));
            match footer_place(size, tail) {
                Ok(FooterPlace::InTail { from, to }) => from <= to <= tail.len() && tail.subrange(
                    from as int,
                    to as int,
                ) == footer,
                Ok(FooterPlace::InFile { start, end }) => start <= end <= file.len()
                    && file.subrange(start as int, end as int) == footer,
                Err(_) => false,
            }
        }),
{
    let header = crate::format::header_bytes();
    let trailer = crate::format::trailer_bytes(footer.len());
    let n = footer.len() as u64;
    crate::format::law_trailer_is_found_behind_any_bytes(Seq::empty(), n);
    crate::format::law_header_is_accepted(Seq::empty());
    let file = header + segments + footer + trailer;
    let size = file.len() as u64;
    let probe = probe_size(size);
    let tail = file.skip(file.len() - probe);
    let front = tail.take(tail.len() - 16);
    assert(tail =~= front + trailer);
    crate::format::law_trailer_is_found_behind_any_bytes(front, n);
    if size <= probe {
        assert(tail =~= header + (segments + footer + trailer));
        crate::format::law_header_is_accepted(segments + footer + trailer);
    }
    let end = size - 16;
    assert(file.subrange(end - n, end as int) =~= footer);
    if n + 16 <= probe {
        assert(tail.subrange(probe - 16 - n, probe - 16) =~= footer);
    }
}

/// An open reads no more than the file has: all of a small file, and of a large
/// one the fixed number of bytes at its end.
pub proof fn law_an_open_reads_the_end_of_the_file(size: u64)
    ensures
        probe_size(size) <= size,
        probe_size(size) <= TAIL_PROBE_SIZE,
        probe_size(size) == size || probe_size(size) == TAIL_PROBE_SIZE,
{
}

/// Where the footer of a file is found, it lies just before the trailer, is as
/// long as the trailer says, and does not reach into the header. In the tail it
/// stands where that part of the file was read to.
pub proof fn law_a_footer_lies_before_the_trailer(size: u64, tail: Seq<u8>)
    requires
        size >= HEADER_SIZE + TRAILER_SIZE,
        tail.len() == probe_size(size),
    ensures
        footer_place(size, tail) matches Ok(FooterPlace::InFile { start, end }) ==> {
            &&& end == size - TRAILER_SIZE
            &&& trailer_of(tail) == Ok::<u64, Error<Seq<char>>>((end - start) as u64)
            &&& HEADER_SIZE <= start <= end
        },
        footer_place(size, tail) matches Ok(FooterPlace::InTail { from, to }) ==> {
            &&& to == tail.len() - TRAILER_SIZE
            &&& trailer_of(tail) == Ok::<u64, Error<Seq<char>>>((to - from) as u64)
            &&& from <= to
            &&& size - tail.len() + from >= HEADER_SIZE
        },
        trailer_of(tail) matches Ok(n) ==> (n + TRAILER_SIZE > size - HEADER_SIZE ==> footer_place(
            size,
            tail,
        ) is Err),
        trailer_of(tail) is Err ==> footer_place(size, tail) is Err,
{
}

} // verus!
