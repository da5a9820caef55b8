//! Every error the library returns.

use crate::text::{decimal, decimal_text};
use vstd::prelude::*;

verus! {

/// Every error the library returns. `T` is the form of the text a variant
/// carries: `String` in a value, the characters in a contract.
#[derive(Debug, Clone, PartialEq, Eq)]
pub enum Error<T = String> {
    /// The named dataset is not in this collection, or the deletion mask hides
    /// it.
    DatasetNotFound(T),
    /// A dataset of this name is already there. Names are unique within a
    /// collection.
    DatasetAlreadyExists(T),
    /// The named array is not defined in this dataset.
    ArrayNotFound(T),
    /// An array of this name is already defined in the dataset.
    ArrayAlreadyExists(T),
    /// A dataset or array name failed validation. Names must be non-empty, and
    /// must not contain `/`, equal `.` or `..`, or start with `_`.
    InvalidName(T),
    /// The object at `data.atlas` is not an atlas container. `hint` says what
    /// gave it away.
    NotAnAtlasCollection {
        /// Why the file was rejected.
        hint: T,
    },
    /// The container declares a format version this build cannot read.
    UnsupportedVersion {
        /// Version found on disk.
        found: u32,
        /// Version this build expects.
        expected: u32,
    },
    /// The container framing is intact but its footer does not describe a
    /// usable collection.
    CorruptCollection(T),
    /// The object at `deleted.mask` is not a deletion mask. Ordinals that name
    /// no dataset are ignored rather than reported here.
    CorruptMask(T),
    /// The store metadata does not describe a usable store.
    CorruptMetadata(T),
    /// The pruning index is damaged, foreign, or out of step.
    CorruptIndex(T),
    /// A type that cannot merge with the type the collection already records.
    TypeMismatch {
        /// The array or attribute.
        name: T,
        /// The type the collection records.
        existing: T,
        /// The type that does not merge with it.
        new: T,
    },
    /// A writer method was called after `finish`.
    WriterFinished,
    /// An internal invariant was violated.
    Internal(T),
}

/// What the library's functions return.
pub type Result<T> = std::result::Result<T, Error>;

impl View for Error<String> {
    type V = Error<Seq<char>>;

    open spec fn view(&self) -> Error<Seq<char>> {
        match *self {
            Error::DatasetNotFound(t) => Error::DatasetNotFound(t@),
            Error::DatasetAlreadyExists(t) => Error::DatasetAlreadyExists(t@),
            Error::ArrayNotFound(t) => Error::ArrayNotFound(t@),
            Error::ArrayAlreadyExists(t) => Error::ArrayAlreadyExists(t@),
            Error::InvalidName(t) => Error::InvalidName(t@),
            Error::NotAnAtlasCollection { hint } => Error::NotAnAtlasCollection { hint: hint@ },
            Error::UnsupportedVersion { found, expected } => Error::UnsupportedVersion {
                found,
                expected,
            },
            Error::CorruptCollection(t) => Error::CorruptCollection(t@),
            Error::CorruptMask(t) => Error::CorruptMask(t@),
            Error::CorruptMetadata(t) => Error::CorruptMetadata(t@),
            Error::CorruptIndex(t) => Error::CorruptIndex(t@),
            Error::TypeMismatch { name, existing, new } => Error::TypeMismatch {
                name: name@,
                existing: existing@,
                new: new@,
            },
            Error::WriterFinished => Error::WriterFinished,
            Error::Internal(t) => Error::Internal(t@),
        }
    }
}

/// An outcome with its error taken by its characters.
pub open spec fn seen<T>(outcome: Result<T>) -> std::result::Result<T, Error<Seq<char>>> {
    match outcome {
        Ok(value) => Ok(value),
        Err(error) => Err(error@),
    }
}

/// The sentence that reports an error.
pub open spec fn error_text(error: Error<Seq<char>>) -> Seq<char> {
    match error {
        Error::DatasetNotFound(t) => "dataset not found: "@ + t,
        Error::DatasetAlreadyExists(t) => "dataset already exists: "@ + t,
        Error::ArrayNotFound(t) => "array not found: "@ + t,
        Error::ArrayAlreadyExists(t) => "array already exists: "@ + t,
        Error::InvalidName(t) => "invalid name '"@ + t
            + "': must be non-empty, no '/', no '..', no leading '_'"@,
        Error::NotAnAtlasCollection { hint } => "not an atlas collection: "@ + hint,
        Error::UnsupportedVersion { found, expected } => {
            "unsupported collection format version "@ + decimal(found as nat)
                + "; this atlas reads version "@ + decimal(expected as nat)
                + " (rewrite the collection with a matching atlas to upgrade)"@
        },
        Error::CorruptCollection(t) => "corrupt collection: "@ + t,
        Error::CorruptMask(t) => "corrupt deletion mask: "@ + t,
        Error::CorruptMetadata(t) => "corrupt store metadata: "@ + t,
        Error::CorruptIndex(t) => "corrupt pruning index: "@ + t,
        Error::TypeMismatch { name, existing, new } => {
            "type mismatch for '"@ + name + "': the collection holds "@ + existing + ", not "@ + new
        },
        Error::WriterFinished => {
            "this writer has already finished; create a new collection to write more"@
        },
        Error::Internal(t) => "internal error: "@ + t,
    }
}

fn two(first: &str, second: &str) -> (text: String)
    ensures
        text@ == first@ + second@,
{
    let mut text: String = first.to_owned();
    text.append(second);
    text
}

impl Error {
    /// The sentence that reports this error.
    pub fn message(&self) -> (text: String)
        ensures
            text@ == error_text(self@),
    {
        match self {
            Error::DatasetNotFound(t) => two("dataset not found: ", t.as_str()),
            Error::DatasetAlreadyExists(t) => two("dataset already exists: ", t.as_str()),
            Error::ArrayNotFound(t) => two("array not found: ", t.as_str()),
            Error::ArrayAlreadyExists(t) => two("array already exists: ", t.as_str()),
            Error::InvalidName(t) => {
                let mut text: String = two("invalid name '", t.as_str());
                text.append("': must be non-empty, no '/', no '..', no leading '_'");
                text
            },
            Error::NotAnAtlasCollection { hint } => two(
                "not an atlas collection: ",
                hint.as_str(),
            ),
            Error::UnsupportedVersion { found, expected } => {
                let mut text: String = two(
                    "unsupported collection format version ",
                    decimal_text(*found as u64).as_str(),
                );
                text.append("; this atlas reads version ");
                text.append(decimal_text(*expected as u64).as_str());
                text.append(" (rewrite the collection with a matching atlas to upgrade)");
                text
            },
            Error::CorruptCollection(t) => two("corrupt collection: ", t.as_str()),
            Error::CorruptMask(t) => two("corrupt deletion mask: ", t.as_str()),
            Error::CorruptMetadata(t) => two("corrupt store metadata: ", t.as_str()),
            Error::CorruptIndex(t) => two("corrupt pruning index: ", t.as_str()),
            Error::TypeMismatch { name, existing, new } => {
                let mut text: String = two("type mismatch for '", name.as_str());
                text.append("': the collection holds ");
                text.append(existing.as_str());
                text.append(", not ");
                text.append(new.as_str());
                text
            },
            Error::WriterFinished => {
                "this writer has already finished; create a new collection to write more".to_owned()
            },
            Error::Internal(t) => two("internal error: ", t.as_str()),
        }
    }
}

/// A report ends with what the error is about, so that two errors of one kind
/// about different things read differently.
pub proof fn law_reports_say_what_they_are_about(a: Seq<char>, b: Seq<char>)
    ensures
        a.is_suffix_of(error_text(Error::DatasetNotFound(a))),
        a.is_suffix_of(error_text(Error::DatasetAlreadyExists(a))),
        a.is_suffix_of(error_text(Error::ArrayNotFound(a))),
        a.is_suffix_of(error_text(Error::ArrayAlreadyExists(a))),
        a.is_suffix_of(error_text(Error::NotAnAtlasCollection { hint: a })),
        a.is_suffix_of(error_text(Error::CorruptCollection(a))),
        a.is_suffix_of(error_text(Error::CorruptMask(a))),
        a.is_suffix_of(error_text(Error::CorruptMetadata(a))),
        a.is_suffix_of(error_text(Error::CorruptIndex(a))),
        a.is_suffix_of(error_text(Error::Internal(a))),
        a.is_suffix_of(error_text(Error::TypeMismatch { name: b, existing: b, new: a })),
        error_text(Error::InvalidName(a)) == error_text(Error::InvalidName(b)) ==> a == b,
{
    lemma_joined_ends("dataset not found: "@, a);
    lemma_joined_ends("dataset already exists: "@, a);
    lemma_joined_ends("array not found: "@, a);
    lemma_joined_ends("array already exists: "@, a);
    lemma_joined_ends("not an atlas collection: "@, a);
    lemma_joined_ends("corrupt collection: "@, a);
    lemma_joined_ends("corrupt deletion mask: "@, a);
    lemma_joined_ends("corrupt store metadata: "@, a);
    lemma_joined_ends("corrupt pruning index: "@, a);
    lemma_joined_ends("internal error: "@, a);
    lemma_joined_ends(
        "type mismatch for '"@ + b + "': the collection holds "@ + b + ", not "@,
        a,
    );
    let (x, y) = (error_text(Error::InvalidName(a)), error_text(Error::InvalidName(b)));
    if x == y {
        let front = "invalid name '"@;
        assert(x.len() == y.len());
        assert(a.len() == b.len());
        assert(a =~= x.subrange(front.len() as int, (front.len() + a.len()) as int));
        assert(b =~= y.subrange(front.len() as int, (front.len() + b.len()) as int));
    }
}

proof fn lemma_joined_ends(front: Seq<char>, part: Seq<char>)
    ensures
        part.is_suffix_of(front + part),
{
    let all = front + part;
    assert(all.subrange(all.len() - part.len(), all.len() as int) =~= part);
}

} // verus!
