//! What a collection holds. These types say nothing about where the bytes are.
//!
//! - [`array`]: `ArraySchema` and the fill value
//! - [`attr`]: `Attr`, the attribute value
//! - [`collection`]: `CollectionSchema`, what all datasets declare
//! - [`dtype`]: `DType`, and how two types widen to one
//! - [`layout`]: `ArrayLayout`, shape and chunking, read from a segment
//! - [`view`]: `SchemaView` and `ArrayMeta`, what a dataset declares

pub mod array;
pub mod attr;
pub mod collection;
pub mod dtype;
pub mod layout;
pub mod view;

use crate::schema::dtype::DType;
use crate::table::{has_key, key_index, with_entry, Table};
use vstd::prelude::*;

verus! {

/// What one dataset declares, owned.
///
/// It names arrays and attributes, and gives the type of each. It holds no
/// shape and no chunking. Those live in the segment.
#[derive(Debug)]
pub struct DatasetSchema {
    /// Array name to element type, in definition order.
    pub arrays: Table<DType>,
    /// Dataset-level attribute key to value type, in the order somebody set
    /// them.
    pub attributes: Table<DType>,
    /// Per-array attribute keys with their value types. An array nobody
    /// annotated has no entry.
    pub array_attributes: Table<Table<DType>>,
}

/// The entries of the tables of a table.
pub open spec fn nested<V>(entries: Seq<(Seq<char>, Table<V>)>) -> Seq<
    (Seq<char>, Seq<(Seq<char>, V)>),
> {
    Seq::new(entries.len(), |i: int| (entries[i].0, entries[i].1@))
}

/// Setting a table under a name sets its entries under that name.
pub proof fn lemma_nested_with_entry<V>(
    entries: Seq<(Seq<char>, Table<V>)>,
    key: Seq<char>,
    value: Table<V>,
)
    requires
        crate::table::keys_distinct(entries),
    ensures
        nested(with_entry(entries, key, value)) == with_entry(nested(entries), key, value@),
        crate::table::keys_distinct(nested(entries)),
        has_key(nested(entries), key) == has_key(entries, key),
{
    let inner = nested(entries);
    if has_key(entries, key) {
        let i = key_index(entries, key);
        assert(inner[i].0 == key);
        assert(crate::table::keys_distinct(inner));
        crate::table::lemma_key_index(inner, i);
        crate::table::lemma_key_index(entries, i);
    } else if has_key(inner, key) {
        let i = key_index(inner, key);
        assert(entries[i].0 == key);
    }
    assert(nested(with_entry(entries, key, value)) =~= with_entry(inner, key, value@));
}

} // verus!
