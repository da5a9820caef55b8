//! Store metadata: what a store holds and how it persists.
//!
//! - [`schema`]: what one dataset holds, and the collection-wide merged schema
//! - [`type_index`]: the incremental "what type does this key hold?" index
//! - [`store_meta`]: the metadata of a whole store, and its mutators
//! - [`persist`]: the form in which the metadata is written

pub mod schema;
pub mod type_index;
pub mod model;
pub mod store_meta;
pub mod persist;
