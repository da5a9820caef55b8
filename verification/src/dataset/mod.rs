//! One dataset of a mutable store: what a write of an array or an attribute
//! decides, and the buffer of attribute writes.

pub mod pending_attrs;
pub mod view;
