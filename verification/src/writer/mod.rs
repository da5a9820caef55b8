//! What a write keeps until it finishes, and the footer that it leaves behind.

pub mod collection;
pub mod dataset;

pub use collection::AtlasWriter;
pub use dataset::DatasetWriter;
