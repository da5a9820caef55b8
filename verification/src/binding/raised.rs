//! Which exception reports an error to a Python caller.

use crate::error::{error_text, Error};
use vstd::prelude::*;

verus! {

/// The class of an exception.
#[derive(Debug, Clone, Copy, PartialEq, Eq, Structural)]
pub enum ErrorClass {
    /// `KeyError`.
    Key,
    /// `FileExistsError`.
    FileExists,
    /// `ValueError`.
    Value,
    /// `TypeError`.
    Type,
    /// `OverflowError`.
    Overflow,
    /// `NotImplementedError`.
    NotImplemented,
    /// `RuntimeError`.
    Runtime,
}

/// An exception to raise. `T` is the form of its message: `String` in a value,
/// the characters in a contract.
#[derive(Debug, Clone, PartialEq, Eq)]
pub struct Raised<T = String> {
    /// The class.
    pub class: ErrorClass,
    /// The message.
    pub message: T,
}

impl View for Raised<String> {
    type V = Raised<Seq<char>>;

    open spec fn view(&self) -> Raised<Seq<char>> {
        Raised { class: self.class, message: self.message@ }
    }
}

/// An outcome with its exception taken by its characters.
pub open spec fn outcome<T>(result: Result<T, Raised>) -> Result<T, Raised<Seq<char>>> {
    match result {
        Ok(value) => Ok(value),
        Err(raised) => Err(raised@),
    }
}

/// The exception that reports an error. A missing name is a `KeyError`, a name
/// that is taken a `FileExistsError`, bad input a `ValueError`. Damage on disk
/// is a `RuntimeError`, because no other argument would mend it.
pub open spec fn raised_for(error: Error<Seq<char>>) -> Raised<Seq<char>> {
    match error {
        Error::DatasetNotFound(_) | Error::ArrayNotFound(_) => Raised {
            class: ErrorClass::Key,
            message: error_text(error),
        },
        Error::DatasetAlreadyExists(_) | Error::ArrayAlreadyExists(_) => Raised {
            class: ErrorClass::FileExists,
            message: error_text(error),
        },
        Error::InvalidName(name) => Raised {
            class: ErrorClass::Value,
            message: "invalid name: "@ + name,
        },
        Error::NotAnAtlasCollection { .. }
        | Error::UnsupportedVersion { .. }
        | Error::WriterFinished => Raised { class: ErrorClass::Value, message: error_text(error) },
        _ => Raised { class: ErrorClass::Runtime, message: error_text(error) },
    }
}

/// The exception that reports an error.
pub fn to_py_err(error: &Error) -> (raised: Raised)
    ensures
        raised@ == raised_for(error@),
{
    match error {
        Error::DatasetNotFound(_) | Error::ArrayNotFound(_) => Raised {
            class: ErrorClass::Key,
            message: error.message(),
        },
        Error::DatasetAlreadyExists(_) | Error::ArrayAlreadyExists(_) => Raised {
            class: ErrorClass::FileExists,
            message: error.message(),
        },
        Error::InvalidName(name) => {
            let mut message: String = "invalid name: ".to_owned();
            message.append(name.as_str());
            Raised { class: ErrorClass::Value, message }
        },
        Error::NotAnAtlasCollection { .. }
        | Error::UnsupportedVersion { .. }
        | Error::WriterFinished => Raised { class: ErrorClass::Value, message: error.message() },
        _ => Raised { class: ErrorClass::Runtime, message: error.message() },
    }
}

/// The class of an exception tells what kind of trouble it was: a missing name,
/// a name that is taken, something wrong with what the caller gave, or damage
/// that no other argument would mend. Each error is of one of these, and is
/// reported in its own words.
pub proof fn law_the_class_tells_the_trouble(error: Error<Seq<char>>)
    ensures
        raised_for(error).class is Key <==> error is DatasetNotFound || error is ArrayNotFound,
        raised_for(error).class is FileExists <==> error is DatasetAlreadyExists
            || error is ArrayAlreadyExists,
        raised_for(error).class is Value <==> error is InvalidName || error is NotAnAtlasCollection
            || error is UnsupportedVersion || error is WriterFinished,
        raised_for(error).class is Runtime <==> error is CorruptCollection || error is CorruptMask
            || error is CorruptMetadata || error is CorruptIndex || error is TypeMismatch
            || error is Internal,
        error !is InvalidName ==> raised_for(error).message == error_text(error),
        error matches Error::InvalidName(name) ==> name.is_suffix_of(raised_for(error).message),
{
    if let Error::InvalidName(name) = error {
        let front = "invalid name: "@;
        assert((front + name).subrange(front.len() as int, (front + name).len() as int) =~= name);
    }
}

} // verus!
