//! Byte ranges of the container as small objects.
//!
//! A segment sits inside a larger file. It is served as two objects: the
//! segment file itself, and its statistics sidecar. This module decides which
//! of them a name means, and which bytes of the container a request for a range
//! of one of them means.

use crate::format::paths::{segment_name, stats_name};
use crate::text::{decimal, decimal_text, law_decimals_tell_numbers_apart, same_text};
use vstd::prelude::*;

verus! {

/// The name under which the segment of a variable is served. It ends in `.af`,
/// because a segment file is opened under that suffix.
pub fn segment_path(variable: u32) -> (name: String)
    ensures
        name@ == segment_name(variable as nat),
{
    let mut name: String = "seg".to_owned();
    name.append(decimal_text(variable as u64).as_str());
    name.append(".af");
    name
}

/// The name under which the statistics of a variable are served: that of the
/// segment, with `.stats` for `.af`.
pub fn stats_path(variable: u32) -> (name: String)
    ensures
        name@ == stats_name(variable as nat),
{
    let mut name: String = "seg".to_owned();
    name.append(decimal_text(variable as u64).as_str());
    name.append(".stats");
    name
}

/// No two variables share a name, and no segment is taken for statistics. So a
/// cache that goes by names never answers for another variable.
pub proof fn law_names_tell_variables_apart(a: nat, b: nat)
    ensures
        segment_name(a) == segment_name(b) ==> a == b,
        stats_name(a) == stats_name(b) ==> a == b,
        segment_name(a) != stats_name(b),
{
    reveal_strlit("seg");
    reveal_strlit(".af");
    reveal_strlit(".stats");
    let n = decimal(a).len() as int;
    let m = decimal(b).len() as int;
    assert(segment_name(a).subrange(3, 3 + n) =~= decimal(a));
    assert(stats_name(a).subrange(3, 3 + n) =~= decimal(a));
    assert(segment_name(b).subrange(3, 3 + m) =~= decimal(b));
    assert(stats_name(b).subrange(3, 3 + m) =~= decimal(b));
    if segment_name(a) == segment_name(b) {
        assert(segment_name(a).len() == n + 6 && segment_name(b).len() == m + 6);
        law_decimals_tell_numbers_apart(a, b);
    }
    if stats_name(a) == stats_name(b) {
        assert(stats_name(a).len() == n + 9 && stats_name(b).len() == m + 9);
        law_decimals_tell_numbers_apart(a, b);
    }
    assert(segment_name(a).last() == 'f');
    assert(stats_name(b).last() == 's');
}

/// One virtual object: a name and the container range behind it.
#[derive(Debug)]
pub struct Part {
    /// The name it is served under.
    pub name: String,
    /// Where it starts in the container.
    pub offset: u64,
    /// How many bytes it has.
    pub len: u64,
}

/// Which bytes of an object a request asks for.
#[derive(Debug, Clone, Copy, PartialEq, Eq)]
pub enum ByteRange {
    /// From `start` up to, and without, `end`.
    Bounded {
        /// The first byte.
        start: u64,
        /// The byte behind the last.
        end: u64,
    },
    /// From this byte to the end.
    Offset(u64),
    /// The last bytes, this many.
    Suffix(u64),
}

/// The range a request means in an object of `len` bytes. An end past the
/// object clamps.
pub open spec fn local_range(len: u64, range: Option<ByteRange>) -> (u64, u64) {
    match range {
        None => (0, len),
        Some(ByteRange::Bounded { start, end }) => (
            start,
            if end < len {
                end
            } else {
                len
            },
        ),
        Some(ByteRange::Offset(o)) => (o, len),
        Some(ByteRange::Suffix(n)) => (
            if n < len {
                (len - n) as u64
            } else {
                0
            },
            len,
        ),
    }
}

/// The report of a range without bytes.
pub open spec fn empty_range_text(len: u64, range: (u64, u64)) -> Seq<char> {
    "requested range "@ + decimal(range.0 as nat) + ".."@ + decimal(range.1 as nat)
        + " is empty or starts past the "@ + decimal(len as nat) + "-byte object"@
}

/// Resolves a requested range against an object of `len` bytes, in the object's
/// own coordinates. An end past the object clamps. A start past the object, or
/// a range without bytes, is an error.
pub fn resolve(len: u64, range: Option<ByteRange>) -> (local: std::result::Result<
    (u64, u64),
    String,
>)
    ensures
        match local {
            Ok(r) => r == local_range(len, range) && r.0 < r.1,
            Err(text) => {
                &&& local_range(len, range).0 >= local_range(len, range).1
                &&& text@ == empty_range_text(len, local_range(len, range))
            },
        },
{
    let (start, end): (u64, u64) = match range {
        None => (0, len),
        Some(ByteRange::Bounded { start, end }) => (
            start,
            if end < len {
                end
            } else {
                len
            },
        ),
        Some(ByteRange::Offset(o)) => (o, len),
        Some(ByteRange::Suffix(n)) => (
            if n < len {
                len - n
            } else {
                0
            },
            len,
        ),
    };
    if start >= end {
        let mut text: String = "requested range ".to_owned();
        text.append(decimal_text(start).as_str());
        text.append("..");
        text.append(decimal_text(end).as_str());
        text.append(" is empty or starts past the ");
        text.append(decimal_text(len).as_str());
        text.append("-byte object");
        return Err(text);
    }
    Ok((start, end))
}

/// What a request to a segment means.
#[derive(Debug)]
pub enum Request {
    /// The name is neither that of the segment nor that of its statistics.
    NotFound,
    /// The range has no byte in the object.
    EmptyRange(String),
    /// The range in the object's own coordinates, and in the container's.
    Read {
        /// The size of the object.
        size: u64,
        /// First byte and byte behind the last, in the object.
        local: (u64, u64),
        /// First byte and byte behind the last, in the container.
        absolute: (u64, u64),
    },
}

/// The byte ranges of one segment.
#[derive(Debug)]
pub struct SegmentStore {
    /// The segment file.
    pub data: Part,
    /// The statistics sidecar, when the segment carries one.
    pub stats: Option<Part>,
}

/// The offset and length of the object a name means.
pub open spec fn part_named(store: SegmentStore, location: Seq<char>) -> Option<(u64, u64)> {
    if location == store.data.name@ {
        Some((store.data.offset, store.data.len))
    } else {
        match store.stats {
            Some(s) => if location == s.name@ {
                Some((s.offset, s.len))
            } else {
                None
            },
            None => None,
        }
    }
}

/// The container holds the whole of both objects.
pub open spec fn addressable(store: SegmentStore) -> bool {
    &&& store.data.offset + store.data.len <= u64::MAX
    &&& store.stats matches Some(s) ==> s.offset + s.len <= u64::MAX
}

impl SegmentStore {
    /// Views the segment file at `offset` and its statistics sidecar at
    /// `stats_offset` as two objects. A `stats_len` of zero means the segment
    /// carries no sidecar.
    pub fn new(variable: u32, offset: u64, len: u64, stats_offset: u64, stats_len: u64) -> (store:
        Self)
        ensures
            store.data.name@ == segment_name(variable as nat),
            store.data.offset == offset,
            store.data.len == len,
            stats_len == 0 ==> store.stats is None,
            stats_len > 0 ==> (store.stats matches Some(s) && s.name@ == stats_name(variable as nat)
                && s.offset == stats_offset && s.len == stats_len),
    {
        let data = Part { name: segment_path(variable), offset, len };
        let stats = if stats_len > 0 {
            Some(Part { name: stats_path(variable), offset: stats_offset, len: stats_len })
        } else {
            None
        };
        SegmentStore { data, stats }
    }

    /// The name callers must use to reach this segment.
    pub fn path(&self) -> (name: &str)
        ensures
            name@ == self.data.name@,
    {
        self.data.name.as_str()
    }

    /// The object `location` names, if this store holds it.
    pub fn part(&self, location: &str) -> (part: Option<&Part>)
        ensures
            match part {
                Some(p) => part_named(*self, location@) == Some((p.offset, p.len)) && p.name@
                    == location@,
                None => part_named(*self, location@) is None,
            },
    {
        if same_text(location, self.data.name.as_str()) {
            return Some(&self.data);
        }
        match &self.stats {
            Some(s) => if same_text(location, s.name.as_str()) {
                Some(s)
            } else {
                None
            },
            None => None,
        }
    }

    /// What a request for a range of one of the two objects means.
    pub fn request(&self, location: &str, range: Option<ByteRange>) -> (request: Request)
        requires
            addressable(*self),
        ensures
            match part_named(*self, location@) {
                None => request is NotFound,
                Some((offset, len)) => {
                    let r = local_range(len, range);
                    if r.0 >= r.1 {
                        request matches Request::EmptyRange(text) && text@ == empty_range_text(
                            len,
                            r,
                        )
                    } else {
                        request == (Request::Read {
                            size: len,
                            local: r,
                            absolute: ((offset + r.0) as u64, (offset + r.1) as u64),
                        })
                    }
                },
            },
            // A read never leaves the object it names.
            request matches Request::Read { size, local, absolute } ==> {
                &&& local.0 < local.1 <= size
                &&& part_named(*self, location@) == Some(((absolute.0 - local.0) as u64, size))
                &&& absolute.1 - absolute.0 == local.1 - local.0
            },
    {
        match self.part(location) {
            None => Request::NotFound,
            Some(part) => match resolve(part.len, range) {
                Err(text) => Request::EmptyRange(text),
                Ok(local) => Request::Read {
                    size: part.len,
                    local,
                    absolute: (part.offset + local.0, part.offset + local.1),
                },
            },
        }
    }
}

/// A range never reaches past its object. Without one, the whole object is
/// meant. A bounded range and an offset begin where they say, and end where
/// they say or with the object. A suffix is that many bytes off the end, or the
/// whole object where it has fewer.
pub proof fn law_ranges_mean_bytes_of_the_object(len: u64, start: u64, end: u64)
    ensures
        local_range(len, None) == (0u64, len),
        ({
            let r = local_range(len, Some(ByteRange::Bounded { start, end }));
            &&& r.0 == start
            &&& r.1 <= end && r.1 <= len
            &&& r.1 == end || r.1 == len
        }),
        local_range(len, Some(ByteRange::Offset(start))) == (start, len),
        ({
            let r = local_range(len, Some(ByteRange::Suffix(start)));
            &&& r.1 == len
            &&& start <= len ==> r.1 - r.0 == start
            &&& start >= len ==> r.0 == 0
        }),
{
}

/// A segment serves its data under the data's name and its statistics under
/// theirs, each at its own place, and nothing under any other name.
pub proof fn law_a_segment_serves_its_two_objects(store: SegmentStore, location: Seq<char>)
    ensures
        part_named(store, store.data.name@) == Some((store.data.offset, store.data.len)),
        store.stats matches Some(s) ==> (s.name@ != store.data.name@ ==> part_named(store, s.name@)
            == Some((s.offset, s.len))),
        location != store.data.name@ && (store.stats matches Some(s) ==> location != s.name@)
            ==> part_named(store, location) is None,
{
}

} // verus!
