//! ATLAS (Aggregated Tensor Large Array Store) keeps thousands of named
//! datasets in a single immutable file.
//!
//! A dataset is a set of named N-dimensional arrays with attributes. A
//! collection holds many of them in one write-once container, `data.atlas`,
//! beside an optional deletion mask, `deleted.mask`.

pub mod binding;
pub mod bytes;
pub mod choice;
pub mod codec;
pub mod config;
pub mod dataset;
pub mod digest;
pub mod error;
pub mod format;
pub mod meta;
pub mod names;
pub mod notation;
pub mod pruning;
pub mod reader;
pub mod schema;
pub mod stats;
pub mod table;
pub mod text;
pub mod timestamp;
pub mod writer;

pub use config::{Codec, WriterConfig};
pub use error::{Error, Result};
pub use names::validate_name;
