//! The notation in which callers name types, codecs, encodings and policies.

pub mod dtype;
pub mod options;
pub mod words;
