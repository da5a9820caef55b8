//! Per-dataset and collection-wide schema shapes.
//!
//! [`DatasetSchema`] records what one dataset holds: array schemas, and the
//! attribute keys with their types. [`MergedSchema`] is the widened union
//! across the whole store. It is descriptive only; a read always uses the
//! dataset's own schema.

use crate::config::Codec;
use crate::digest::{
    feed_number, feed_text, feed_texts, feed_words, lemma_number_tells, lemma_sizes_tell,
    lemma_text_tells, lemma_texts_tell, number_chunks, text_chunks, texts_chunks, words_chunks,
};
use crate::schema::attr::{copy_list, copy_texts, same_list, same_texts};
use crate::schema::dtype::{
    align, kind_number, kind_of, law_alignment_is_an_equivalence, law_widened_types_absorb_both,
    widen_dtype, widened, DType,
};
use crate::table::{
    has_key, key_index, keys_distinct, law_distinct_pairs_fill_a_table, law_get_after_remove,
    law_get_after_set, lemma_viewed, lemma_viewed_with_entry, lemma_viewed_without_entry, table_of,
    value_of, viewed, with_entry, without_entry, Table,
};
use crate::text::{same_text, texts};
use std::collections::hash_map::DefaultHasher;
use std::hash::Hasher;
use vstd::prelude::*;
use vstd::std_specs::hash::DefaultHasherAdditionalSpecFns;

verus! {

/// Schema for one named array within a dataset of a store.
#[derive(Debug)]
pub struct ArraySchema {
    /// Element type.
    pub dtype: DType,
    /// Logical shape, one entry per axis.
    pub shape: Vec<usize>,
    /// On-disk chunk shape, same rank as `shape`.
    pub chunk_shape: Vec<usize>,
    /// Named dimensions, one per axis, in the order of `shape`.
    pub dimension_names: Vec<String>,
    /// Codec of the file that backs the array.
    pub codec: Codec,
}

/// What an array schema says.
#[verifier::ext_equal]
pub struct ArraySchemaModel {
    /// Element type.
    pub dtype: DType,
    /// Logical shape.
    pub shape: Seq<usize>,
    /// On-disk chunk shape.
    pub chunk_shape: Seq<usize>,
    /// Named dimensions.
    pub dimension_names: Seq<Seq<char>>,
    /// Codec of the file that backs the array.
    pub codec: Codec,
}

impl View for ArraySchema {
    type V = ArraySchemaModel;

    open spec fn view(&self) -> ArraySchemaModel {
        ArraySchemaModel {
            dtype: self.dtype,
            shape: self.shape@,
            chunk_shape: self.chunk_shape@,
            dimension_names: texts(self.dimension_names@),
            codec: self.codec,
        }
    }
}

impl ArraySchema {
    /// Whether two array schemas say the same.
    pub fn same(&self, other: &ArraySchema) -> (same: bool)
        ensures
            same == (self@ == other@),
    {
        self.dtype.same(&other.dtype) && same_list(&self.shape, &other.shape) && same_list(
            &self.chunk_shape,
            &other.chunk_shape,
        ) && same_texts(&self.dimension_names, &other.dimension_names) && self.codec == other.codec
    }
}

impl Clone for ArraySchema {
    fn clone(&self) -> (copy: Self)
        ensures
            copy@ == self@,
    {
        ArraySchema {
            dtype: self.dtype.clone(),
            shape: copy_list(&self.shape),
            chunk_shape: copy_list(&self.chunk_shape),
            dimension_names: copy_texts(&self.dimension_names),
            codec: self.codec,
        }
    }
}

/// A copy of a table of types.
pub fn copy_types(table: &Table<DType>) -> (copy: Table<DType>)
    ensures
        copy@ == table@,
{
    let count: usize = table.len();
    let mut copy: Table<DType> = Table::new();
    let mut i: usize = 0;
    while i < count
        invariant
            i <= count,
            count == table@.len(),
            copy@ == table_of(table@.take(i as int)),
        decreases count - i,
    {
        let ghost next = table@.take(i + 1);
        assert(next.drop_last() =~= table@.take(i as int));
        copy.insert(table.name_at(i).to_owned(), table.value_at(i).clone());
        i += 1;
    }
    proof {
        assert(table@.take(i as int) =~= table@);
        law_distinct_pairs_fill_a_table(table@);
    }
    copy
}

/// Whether two tables of types hold the same in the same order.
pub fn same_types(a: &Table<DType>, b: &Table<DType>) -> (same: bool)
    ensures
        same == (a@ == b@),
{
    let count: usize = a.len();
    if count != b.len() {
        return false;
    }
    let mut i: usize = 0;
    while i < count
        invariant
            i <= count,
            count == a@.len(),
            count == b@.len(),
            forall|j: int| 0 <= j < i ==> a@[j] == b@[j],
        decreases count - i,
    {
        if !same_text(a.name_at(i), b.name_at(i)) || !a.value_at(i).same(b.value_at(i)) {
            return false;
        }
        i += 1;
    }
    assert(a@ =~= b@);
    true
}

/// What one dataset holds: its array schemas, and the attribute keys with the
/// type of each. Attribute values live elsewhere. Every table keeps the order
/// in which somebody added its entries.
#[derive(Debug)]
pub struct DatasetSchema {
    /// Array name to schema.
    arrays: Table<ArraySchema>,
    /// Dataset-level attribute key to its value type.
    global_attrs: Table<DType>,
    /// Array name to that array's attribute keys with their value types.
    array_attrs: Table<Table<DType>>,
}

/// What a dataset schema says.
#[verifier::ext_equal]
pub struct DatasetModel {
    /// Array name and schema.
    pub arrays: Seq<(Seq<char>, ArraySchemaModel)>,
    /// Dataset-level attribute key and type.
    pub global_attrs: Seq<(Seq<char>, DType)>,
    /// Array name, and its attribute keys with their types.
    pub array_attrs: Seq<(Seq<char>, Seq<(Seq<char>, DType)>)>,
}

impl View for DatasetSchema {
    type V = DatasetModel;

    closed spec fn view(&self) -> DatasetModel {
        DatasetModel {
            arrays: viewed(self.arrays@),
            global_attrs: self.global_attrs@,
            array_attrs: viewed(self.array_attrs@),
        }
    }
}

/// The schema of a dataset that holds nothing.
pub open spec fn no_schema() -> DatasetModel {
    DatasetModel { arrays: Seq::empty(), global_attrs: Seq::empty(), array_attrs: Seq::empty() }
}

/// The names of each table of a schema are distinct.
pub open spec fn distinct_names(m: DatasetModel) -> bool {
    &&& keys_distinct(m.arrays)
    &&& keys_distinct(m.global_attrs)
    &&& keys_distinct(m.array_attrs)
    &&& forall|i: int|
        0 <= i < m.array_attrs.len() ==> keys_distinct((#[trigger] m.array_attrs[i]).1)
}

/// The type a dataset gives an array.
pub open spec fn array_type(m: DatasetModel, array: Seq<char>) -> Option<DType> {
    match value_of(m.arrays, array) {
        Some(a) => Some(a.dtype),
        None => None,
    }
}

/// The attributes of one array of a dataset.
pub open spec fn attrs_of(m: DatasetModel, array: Seq<char>) -> Seq<(Seq<char>, DType)> {
    match value_of(m.array_attrs, array) {
        Some(attrs) => attrs,
        None => Seq::empty(),
    }
}

/// A dataset schema after an attribute of an array was set.
pub open spec fn with_array_attr(
    m: DatasetModel,
    array: Seq<char>,
    key: Seq<char>,
    ty: DType,
) -> DatasetModel {
    DatasetModel {
        array_attrs: with_entry(
            m.array_attrs,
            array,
            with_entry(attrs_of(m, array), key, ty),
        ),
        ..m
    }
}

/// A schema keeps its names distinct when an array attribute is set.
pub proof fn lemma_with_array_attr(m: DatasetModel, array: Seq<char>, key: Seq<char>, ty: DType)
    requires
        distinct_names(m),
    ensures
        distinct_names(with_array_attr(m, array, key, ty)),
        keys_distinct(attrs_of(m, array)),
{
    if has_key(m.array_attrs, array) {
        let i = key_index(m.array_attrs, array);
        assert(m.array_attrs[i].0 == array);
        assert(keys_distinct(m.array_attrs[i].1));
    }
    let inner = with_entry(attrs_of(m, array), key, ty);
    law_get_after_set(attrs_of(m, array), key, ty, key);
    law_get_after_set(m.array_attrs, array, inner, array);
    let after = with_entry(m.array_attrs, array, inner);
    assert forall|i: int| 0 <= i < after.len() implies keys_distinct((#[trigger] after[i]).1) by {
        if i < m.array_attrs.len() && m.array_attrs[i] == after[i] {
            assert(keys_distinct(m.array_attrs[i].1));
        }
    }
}

proof fn lemma_without_array(m: DatasetModel, array: Seq<char>)
    requires
        distinct_names(m),
    ensures
        distinct_names(
            DatasetModel {
                arrays: without_entry(m.arrays, array),
                array_attrs: without_entry(m.array_attrs, array),
                ..m
            },
        ),
{
    law_get_after_remove(m.arrays, array, array);
    law_get_after_remove(m.array_attrs, array, array);
    let after = without_entry(m.array_attrs, array);
    assert forall|i: int| 0 <= i < after.len() implies keys_distinct((#[trigger] after[i]).1) by {
        if has_key(m.array_attrs, array) {
            let at = key_index(m.array_attrs, array);
            assert(m.array_attrs[at].0 == array);
            let p = if i < at {
                i
            } else {
                i + 1
            };
            assert(after[i] == m.array_attrs[p]);
        }
    }
}

impl DatasetSchema {
    #[verifier::type_invariant]
    pub open spec fn well_formed(self) -> bool {
        distinct_names(self@)
    }

    /// The schema of a dataset that holds nothing.
    pub fn new() -> (schema: Self)
        ensures
            schema@ == no_schema(),
    {
        let arrays: Table<ArraySchema> = Table::new();
        let array_attrs: Table<Table<DType>> = Table::new();
        assert(viewed(arrays@) =~= Seq::empty());
        assert(viewed(array_attrs@) =~= Seq::empty());
        DatasetSchema { arrays, global_attrs: Table::new(), array_attrs }
    }

    /// Array name to schema, in the order of definition.
    pub fn arrays(&self) -> (arrays: &Table<ArraySchema>)
        ensures
            viewed(arrays@) == self@.arrays,
    {
        &self.arrays
    }

    /// Dataset-level attribute key to its value type, in the order somebody
    /// set them.
    pub fn global_attrs(&self) -> (attrs: &Table<DType>)
        ensures
            attrs@ == self@.global_attrs,
    {
        &self.global_attrs
    }

    /// Array name to that array's attribute keys with their value types.
    pub fn array_attrs(&self) -> (attrs: &Table<Table<DType>>)
        ensures
            viewed(attrs@) == self@.array_attrs,
    {
        &self.array_attrs
    }

    /// Sets the schema of an array, and returns the type it had before.
    pub fn register_array(&mut self, array: &str, schema: ArraySchema) -> (previous: Option<DType>)
        ensures
            final(self)@ == (DatasetModel {
                arrays: with_entry(old(self)@.arrays, array@, schema@),
                ..old(self)@
            }),
            previous == array_type(old(self)@, array@),
    {
        let mut whole = DatasetSchema::new();
        std::mem::swap(self, &mut whole);
        proof {
            use_type_invariant(&whole);
        }
        let DatasetSchema { mut arrays, global_attrs, array_attrs } = whole;
        let ghost before = arrays@;
        let ghost given = schema;
        let replaced = arrays.insert(array.to_owned(), schema);
        proof {
            lemma_viewed(before, array@);
            lemma_viewed_with_entry(before, array@, given);
            lemma_viewed(arrays@, array@);
        }
        *self = DatasetSchema { arrays, global_attrs, array_attrs };
        match replaced {
            Some(earlier) => Some(earlier.dtype),
            None => None,
        }
    }

    /// Sets the type of a dataset-level attribute, and returns the type it had
    /// before.
    pub fn register_global_attr(&mut self, key: &str, ty: DType) -> (previous: Option<DType>)
        ensures
            final(self)@ == (DatasetModel {
                global_attrs: with_entry(old(self)@.global_attrs, key@, ty),
                ..old(self)@
            }),
            previous == value_of(old(self)@.global_attrs, key@),
    {
        let mut whole = DatasetSchema::new();
        std::mem::swap(self, &mut whole);
        proof {
            use_type_invariant(&whole);
        }
        let DatasetSchema { arrays, mut global_attrs, array_attrs } = whole;
        let previous = global_attrs.insert(key.to_owned(), ty);
        *self = DatasetSchema { arrays, global_attrs, array_attrs };
        previous
    }

    /// Sets the type of an attribute of an array, and returns the type it had
    /// before.
    pub fn register_array_attr(&mut self, array: &str, key: &str, ty: DType) -> (previous: Option<
        DType,
    >)
        ensures
            final(self)@ == with_array_attr(old(self)@, array@, key@, ty),
            previous == value_of(attrs_of(old(self)@, array@), key@),
    {
        let ghost start = self@;
        let mut whole = DatasetSchema::new();
        std::mem::swap(self, &mut whole);
        proof {
            use_type_invariant(&whole);
            lemma_with_array_attr(start, array@, key@, ty);
        }
        let DatasetSchema { arrays, global_attrs, mut array_attrs } = whole;
        let ghost before = array_attrs@;
        let place = array_attrs.position(array);
        proof {
            lemma_viewed(before, array@);
        }
        let mut inner: Table<DType> = Table::new();
        match place {
            Some(i) => {
                inner = array_attrs.replace_at(i, inner);
            },
            None => {},
        }
        assert(inner@ == attrs_of(start, array@));
        let previous = inner.insert(key.to_owned(), ty);
        let ghost given = inner;
        proof {
            lemma_viewed_with_entry(before, array@, given);
        }
        match place {
            Some(i) => {
                array_attrs.replace_at(i, inner);
                assert(array_attrs@ =~= with_entry(before, array@, given));
            },
            None => {
                array_attrs.insert(array.to_owned(), inner);
            },
        }
        *self = DatasetSchema { arrays, global_attrs, array_attrs };
        previous
    }

    /// Removes an array and its attributes.
    pub fn unregister_array(&mut self, array: &str)
        ensures
            final(self)@ == (DatasetModel {
                arrays: without_entry(old(self)@.arrays, array@),
                array_attrs: without_entry(old(self)@.array_attrs, array@),
                ..old(self)@
            }),
    {
        let ghost start = self@;
        let mut whole = DatasetSchema::new();
        std::mem::swap(self, &mut whole);
        proof {
            use_type_invariant(&whole);
            lemma_without_array(start, array@);
        }
        let DatasetSchema { mut arrays, global_attrs, mut array_attrs } = whole;
        let ghost before = arrays@;
        let ghost attrs = array_attrs@;
        arrays.remove(array);
        array_attrs.remove(array);
        proof {
            lemma_viewed_without_entry(before, array@);
            lemma_viewed_without_entry(attrs, array@);
        }
        *self = DatasetSchema { arrays, global_attrs, array_attrs };
    }

    /// Whether two schemas say the same, in the same order.
    ///
    /// The order in which arrays and attribute keys were added is part of what
    /// a schema says: listings go by it, on disk too. The content hash goes by
    /// it as well, so schemas that are the same hash alike.
    pub fn same(&self, other: &DatasetSchema) -> (same: bool)
        ensures
            same == (self@ == other@),
    {
        let arrays: usize = self.arrays.len();
        let annotated: usize = self.array_attrs.len();
        if arrays != other.arrays.len() || annotated != other.array_attrs.len() {
            assert(self@.arrays.len() != other@.arrays.len() || self@.array_attrs.len()
                != other@.array_attrs.len());
            return false;
        }
        let mut i: usize = 0;
        while i < arrays
            invariant
                i <= arrays,
                arrays == self.arrays@.len(),
                arrays == other.arrays@.len(),
                forall|j: int| 0 <= j < i ==> self@.arrays[j] == other@.arrays[j],
            decreases arrays - i,
        {
            if !same_text(self.arrays.name_at(i), other.arrays.name_at(i)) || !self.arrays.value_at(
                i,
            ).same(other.arrays.value_at(i)) {
                assert(self@.arrays[i as int] != other@.arrays[i as int]);
                return false;
            }
            i += 1;
        }
        assert(self@.arrays =~= other@.arrays);
        if !same_types(&self.global_attrs, &other.global_attrs) {
            return false;
        }
        let mut k: usize = 0;
        while k < annotated
            invariant
                k <= annotated,
                annotated == self.array_attrs@.len(),
                annotated == other.array_attrs@.len(),
                forall|j: int| 0 <= j < k ==> self@.array_attrs[j] == other@.array_attrs[j],
            decreases annotated - k,
        {
            if !same_text(self.array_attrs.name_at(k), other.array_attrs.name_at(k)) || !same_types(
                self.array_attrs.value_at(k),
                other.array_attrs.value_at(k),
            ) {
                assert(self@.array_attrs[k as int] != other@.array_attrs[k as int]);
                return false;
            }
            k += 1;
        }
        assert(self@.array_attrs =~= other@.array_attrs);
        true
    }
}

fn copy_arrays(table: &Table<ArraySchema>) -> (copy: Table<ArraySchema>)
    ensures
        viewed(copy@) == viewed(table@),
{
    let count: usize = table.len();
    let ghost all = viewed(table@);
    let mut copy: Table<ArraySchema> = Table::new();
    let mut i: usize = 0;
    assert(viewed(copy@) =~= table_of(all.take(0)));
    while i < count
        invariant
            i <= count,
            count == table@.len(),
            all == viewed(table@),
            viewed(copy@) == table_of(all.take(i as int)),
        decreases count - i,
    {
        let ghost before = copy@;
        let ghost next = all.take(i + 1);
        assert(next.drop_last() =~= all.take(i as int));
        let schema = table.value_at(i).clone();
        let ghost given = schema;
        let name = table.name_at(i).to_owned();
        let ghost text = name@;
        copy.insert(name, schema);
        proof {
            assert(next.last() == (text, given@));
            lemma_viewed_with_entry(before, text, given);
        }
        i += 1;
    }
    proof {
        assert(all.take(i as int) =~= all);
        lemma_viewed(table@, Seq::empty());
        law_distinct_pairs_fill_a_table(all);
    }
    copy
}

fn copy_nested(table: &Table<Table<DType>>) -> (copy: Table<Table<DType>>)
    ensures
        viewed(copy@) == viewed(table@),
{
    let count: usize = table.len();
    let ghost all = viewed(table@);
    let mut copy: Table<Table<DType>> = Table::new();
    let mut i: usize = 0;
    assert(viewed(copy@) =~= table_of(all.take(0)));
    while i < count
        invariant
            i <= count,
            count == table@.len(),
            all == viewed(table@),
            viewed(copy@) == table_of(all.take(i as int)),
        decreases count - i,
    {
        let ghost before = copy@;
        let ghost next = all.take(i + 1);
        assert(next.drop_last() =~= all.take(i as int));
        let inner = copy_types(table.value_at(i));
        let ghost given = inner;
        let name = table.name_at(i).to_owned();
        let ghost text = name@;
        copy.insert(name, inner);
        proof {
            assert(next.last() == (text, given@));
            lemma_viewed_with_entry(before, text, given);
        }
        i += 1;
    }
    proof {
        assert(all.take(i as int) =~= all);
        lemma_viewed(table@, Seq::empty());
        law_distinct_pairs_fill_a_table(all);
    }
    copy
}

impl Clone for DatasetSchema {
    fn clone(&self) -> (copy: Self)
        ensures
            copy@ == self@,
    {
        proof {
            use_type_invariant(self);
        }
        DatasetSchema {
            arrays: copy_arrays(&self.arrays),
            global_attrs: copy_types(&self.global_attrs),
            array_attrs: copy_nested(&self.array_attrs),
        }
    }
}

/// What is written for a type: its kind, and what its parts are.
pub open spec fn dtype_chunks(d: DType) -> Seq<Seq<u8>>
    decreases d,
{
    match d {
        DType::List { child } => number_chunks(kind_of(d)) + dtype_chunks(*child),
        DType::FixedSizeList { child, size } => number_chunks(kind_of(d)) + dtype_chunks(*child)
            + number_chunks(size as nat),
        _ => number_chunks(kind_of(d)),
    }
}

/// The number of a codec.
pub open spec fn codec_number(codec: Codec) -> nat {
    match codec {
        Codec::Zstd => 0,
        Codec::Lz4 => 1,
        Codec::Uncompressed => 2,
    }
}

/// What is written for an array schema.
pub open spec fn array_chunks(a: ArraySchemaModel) -> Seq<Seq<u8>> {
    dtype_chunks(a.dtype) + number_chunks(a.shape.len()) + words_chunks(a.shape) + number_chunks(
        a.chunk_shape.len(),
    ) + words_chunks(a.chunk_shape) + number_chunks(a.dimension_names.len()) + texts_chunks(
        a.dimension_names,
    ) + number_chunks(codec_number(a.codec))
}

/// What is written for named arrays.
pub open spec fn arrays_chunks(list: Seq<(Seq<char>, ArraySchemaModel)>) -> Seq<Seq<u8>>
    decreases list.len(),
{
    if list.len() == 0 {
        Seq::empty()
    } else {
        arrays_chunks(list.drop_last()) + text_chunks(list.last().0) + array_chunks(list.last().1)
    }
}

/// What is written for named types.
pub open spec fn types_chunks(list: Seq<(Seq<char>, DType)>) -> Seq<Seq<u8>>
    decreases list.len(),
{
    if list.len() == 0 {
        Seq::empty()
    } else {
        types_chunks(list.drop_last()) + text_chunks(list.last().0) + dtype_chunks(list.last().1)
    }
}

/// What is written for the attributes of named arrays.
pub open spec fn nested_chunks(list: Seq<(Seq<char>, Seq<(Seq<char>, DType)>)>) -> Seq<Seq<u8>>
    decreases list.len(),
{
    if list.len() == 0 {
        Seq::empty()
    } else {
        nested_chunks(list.drop_last()) + text_chunks(list.last().0) + number_chunks(
            list.last().1.len(),
        ) + types_chunks(list.last().1)
    }
}

/// What is written for a dataset schema.
pub open spec fn schema_chunks(m: DatasetModel) -> Seq<Seq<u8>> {
    number_chunks(m.arrays.len()) + arrays_chunks(m.arrays) + number_chunks(m.global_attrs.len())
        + types_chunks(m.global_attrs) + number_chunks(m.array_attrs.len()) + nested_chunks(
        m.array_attrs,
    )
}

/// The content hash of a dataset schema.
pub open spec fn hash_of(m: DatasetModel) -> u64 {
    DefaultHasher::spec_finish(schema_chunks(m))
}

fn feed_dtype(state: &mut DefaultHasher, d: &DType)
    ensures
        final(state)@ == old(state)@ + dtype_chunks(*d),
    decreases d,
{
    feed_number(state, kind_number(d) as u64);
    match d {
        DType::List { child } => {
            feed_dtype(state, &**child);
        },
        DType::FixedSizeList { child, size } => {
            feed_dtype(state, &**child);
            feed_number(state, *size as u64);
        },
        _ => {},
    }
    assert(state@ =~= old(state)@ + dtype_chunks(*d));
}

fn feed_array(state: &mut DefaultHasher, a: &ArraySchema)
    ensures
        final(state)@ == old(state)@ + array_chunks(a@),
{
    feed_dtype(state, &a.dtype);
    feed_words(state, &a.shape);
    feed_words(state, &a.chunk_shape);
    feed_texts(state, &a.dimension_names);
    let codec: u64 = match a.codec {
        Codec::Zstd => 0,
        Codec::Lz4 => 1,
        Codec::Uncompressed => 2,
    };
    feed_number(state, codec);
    assert(texts(a.dimension_names@).len() == a.dimension_names@.len());
    assert(state@ =~= old(state)@ + array_chunks(a@));
}

fn feed_types(state: &mut DefaultHasher, table: &Table<DType>)
    ensures
        final(state)@ == old(state)@ + number_chunks(table@.len()) + types_chunks(table@),
{
    let count: usize = table.len();
    feed_number(state, count as u64);
    let ghost start = state@;
    let ghost all = table@;
    let mut i: usize = 0;
    assert(state@ =~= start + types_chunks(all.take(0)));
    while i < count
        invariant
            i <= count,
            all == table@,
            count == all.len(),
            state@ == start + types_chunks(all.take(i as int)),
        decreases count - i,
    {
        feed_text(state, table.name_at(i));
        feed_dtype(state, table.value_at(i));
        assert(all.take(i + 1).drop_last() =~= all.take(i as int));
        assert(state@ =~= start + types_chunks(all.take(i + 1)));
        i += 1;
    }
    assert(all.take(i as int) =~= all);
}

/// Content hash of a dataset schema. Schemas that say the same have the same
/// hash, so a hash tells most different schemas apart without a comparison.
pub fn schema_hash(schema: &DatasetSchema) -> (hash: u64)
    ensures
        hash == hash_of(schema@),
{
    let mut state = DefaultHasher::new();
    let arrays: usize = schema.arrays.len();
    feed_number(&mut state, arrays as u64);
    let ghost all = schema@.arrays;
    let ghost start = state@;
    let mut i: usize = 0;
    assert(state@ =~= start + arrays_chunks(all.take(0)));
    while i < arrays
        invariant
            i <= arrays,
            arrays == schema.arrays@.len(),
            all == schema@.arrays,
            state@ == start + arrays_chunks(all.take(i as int)),
        decreases arrays - i,
    {
        feed_text(&mut state, schema.arrays.name_at(i));
        feed_array(&mut state, schema.arrays.value_at(i));
        assert(all.take(i + 1).drop_last() =~= all.take(i as int));
        assert(state@ =~= start + arrays_chunks(all.take(i + 1)));
        i += 1;
    }
    assert(all.take(i as int) =~= all);
    feed_types(&mut state, &schema.global_attrs);
    let annotated: usize = schema.array_attrs.len();
    feed_number(&mut state, annotated as u64);
    let ghost notes = schema@.array_attrs;
    let ghost middle = state@;
    let mut k: usize = 0;
    assert(state@ =~= middle + nested_chunks(notes.take(0)));
    while k < annotated
        invariant
            k <= annotated,
            annotated == schema.array_attrs@.len(),
            notes == schema@.array_attrs,
            state@ == middle + nested_chunks(notes.take(k as int)),
        decreases annotated - k,
    {
        feed_text(&mut state, schema.array_attrs.name_at(k));
        feed_types(&mut state, schema.array_attrs.value_at(k));
        assert(notes.take(k + 1).drop_last() =~= notes.take(k as int));
        assert(state@ =~= middle + nested_chunks(notes.take(k + 1)));
        k += 1;
    }
    assert(notes.take(k as int) =~= notes);
    assert(state@ =~= schema_chunks(schema@));
    state.finish()
}

/// One array's merged description across every dataset that declares it.
#[derive(Debug)]
pub struct MergedArray {
    /// Element type, widened across datasets.
    pub dtype: DType,
    /// Named dimensions, from the first dataset that declared the array.
    pub dimension_names: Vec<String>,
    /// Attribute key to merged type.
    pub attributes: Table<DType>,
}

/// What a merged array says.
#[verifier::ext_equal]
pub struct MergedArrayModel {
    /// Element type, widened across datasets.
    pub dtype: DType,
    /// Named dimensions.
    pub dimension_names: Seq<Seq<char>>,
    /// Attribute key and merged type.
    pub attributes: Seq<(Seq<char>, DType)>,
}

impl View for MergedArray {
    type V = MergedArrayModel;

    open spec fn view(&self) -> MergedArrayModel {
        MergedArrayModel {
            dtype: self.dtype,
            dimension_names: texts(self.dimension_names@),
            attributes: self.attributes@,
        }
    }
}

/// A collection-wide view of every array and attribute, with types widened
/// across all datasets. It is a summary for inspection.
#[derive(Debug)]
pub struct MergedSchema {
    /// Array name to merged array description.
    pub arrays: Table<MergedArray>,
    /// Dataset-level attribute key to merged type.
    pub global_attributes: Table<DType>,
}

/// What a merged schema says.
#[verifier::ext_equal]
pub struct MergedModel {
    /// Array name and merged description.
    pub arrays: Seq<(Seq<char>, MergedArrayModel)>,
    /// Dataset-level attribute key and merged type.
    pub global_attributes: Seq<(Seq<char>, DType)>,
}

impl View for MergedSchema {
    type V = MergedModel;

    open spec fn view(&self) -> MergedModel {
        MergedModel {
            arrays: viewed(self.arrays@),
            global_attributes: self.global_attributes@,
        }
    }
}

/// The first type, widened by the second where the two merge.
pub open spec fn first_wins(first: DType, second: DType) -> DType {
    match widened(first, second) {
        Some(w) => w,
        None => first,
    }
}

/// Types by key after one more type was merged in.
pub open spec fn merge_type_of(
    map: Seq<(Seq<char>, DType)>,
    key: Seq<char>,
    ty: DType,
) -> Seq<(Seq<char>, DType)> {
    with_entry(
        map,
        key,
        match value_of(map, key) {
            Some(existing) => first_wins(existing, ty),
            None => ty,
        },
    )
}

/// Types by key after some attributes were merged in, in order.
pub open spec fn merge_types_of(
    map: Seq<(Seq<char>, DType)>,
    attrs: Seq<(Seq<char>, DType)>,
) -> Seq<(Seq<char>, DType)>
    decreases attrs.len(),
{
    if attrs.len() == 0 {
        map
    } else {
        merge_type_of(merge_types_of(map, attrs.drop_last()), attrs.last().0, attrs.last().1)
    }
}

/// Merged arrays after one more declaration was merged in. The names of the
/// dimensions are those of the first declaration.
pub open spec fn merge_array_of(
    map: Seq<(Seq<char>, MergedArrayModel)>,
    name: Seq<char>,
    array: ArraySchemaModel,
    attrs: Seq<(Seq<char>, DType)>,
) -> Seq<(Seq<char>, MergedArrayModel)> {
    with_entry(
        map,
        name,
        match value_of(map, name) {
            Some(entry) => MergedArrayModel {
                dtype: first_wins(entry.dtype, array.dtype),
                dimension_names: entry.dimension_names,
                attributes: merge_types_of(entry.attributes, attrs),
            },
            None => MergedArrayModel {
                dtype: array.dtype,
                dimension_names: array.dimension_names,
                attributes: merge_types_of(Seq::empty(), attrs),
            },
        },
    )
}

/// Merged arrays after the first `n` arrays of a dataset were merged in.
pub open spec fn merge_arrays_of(
    map: Seq<(Seq<char>, MergedArrayModel)>,
    m: DatasetModel,
    n: int,
) -> Seq<(Seq<char>, MergedArrayModel)>
    decreases n,
{
    if n <= 0 {
        map
    } else {
        merge_array_of(
            merge_arrays_of(map, m, n - 1),
            m.arrays[n - 1].0,
            m.arrays[n - 1].1,
            attrs_of(m, m.arrays[n - 1].0),
        )
    }
}

/// The merged schema of some datasets, in order.
pub open spec fn merged_of(list: Seq<DatasetModel>) -> MergedModel
    decreases list.len(),
{
    if list.len() == 0 {
        MergedModel { arrays: Seq::empty(), global_attributes: Seq::empty() }
    } else {
        let front = merged_of(list.drop_last());
        let m = list.last();
        MergedModel {
            arrays: merge_arrays_of(front.arrays, m, m.arrays.len() as int),
            global_attributes: merge_types_of(front.global_attributes, m.global_attrs),
        }
    }
}

/// Merges one attribute type into a table of types. Where the two types do not
/// merge, the first one stands.
pub fn merge_type(map: &mut Table<DType>, key: &str, ty: &DType)
    ensures
        final(map)@ == merge_type_of(old(map)@, key@, *ty),
        keys_distinct(final(map)@),
{
    match map.position(key) {
        Some(i) => {
            let wide = match widen_dtype(map.value_at(i), ty) {
                Some(w) => w,
                None => map.value_at(i).clone(),
            };
            map.replace_at(i, wide);
            assert(map@ =~= merge_type_of(old(map)@, key@, *ty));
        },
        None => {
            map.insert(key.to_owned(), ty.clone());
        },
    }
}

fn merge_types(map: &mut Table<DType>, attrs: &Table<DType>)
    ensures
        final(map)@ == merge_types_of(old(map)@, attrs@),
{
    let count: usize = attrs.len();
    let mut i: usize = 0;
    assert(attrs@.take(0) =~= Seq::empty());
    while i < count
        invariant
            i <= count,
            count == attrs@.len(),
            map@ == merge_types_of(old(map)@, attrs@.take(i as int)),
        decreases count - i,
    {
        assert(attrs@.take(i + 1).drop_last() =~= attrs@.take(i as int));
        merge_type(map, attrs.name_at(i), attrs.value_at(i));
        i += 1;
    }
    assert(attrs@.take(i as int) =~= attrs@);
}

fn merge_array(
    map: &mut Table<MergedArray>,
    name: &str,
    array: &ArraySchema,
    attrs: Option<&Table<DType>>,
)
    ensures
        viewed(final(map)@) == merge_array_of(
            viewed(old(map)@),
            name@,
            array@,
            match attrs {
                Some(table) => table@,
                None => Seq::empty(),
            },
        ),
{
    let ghost before = map@;
    let place = map.position(name);
    proof {
        lemma_viewed(before, name@);
    }
    let (dtype, dimension_names, mut attributes) = match place {
        Some(i) => {
            let blank = MergedArray {
                dtype: DType::Bool,
                dimension_names: Vec::new(),
                attributes: Table::new(),
            };
            let entry = map.replace_at(i, blank);
            let wide = match widen_dtype(&entry.dtype, &array.dtype) {
                Some(w) => w,
                None => entry.dtype,
            };
            (wide, entry.dimension_names, entry.attributes)
        },
        None => (array.dtype.clone(), copy_texts(&array.dimension_names), Table::new()),
    };
    match attrs {
        Some(table) => {
            merge_types(&mut attributes, table);
        },
        None => {},
    }
    let merged = MergedArray { dtype, dimension_names, attributes };
    let ghost given = merged;
    proof {
        lemma_viewed_with_entry(before, name@, given);
    }
    match place {
        Some(i) => {
            map.replace_at(i, merged);
            assert(map@ =~= with_entry(before, name@, given));
        },
        None => {
            map.insert(name.to_owned(), merged);
        },
    }
}

/// What some borrowed schemas say.
pub open spec fn models_of(list: Seq<&DatasetSchema>) -> Seq<DatasetModel> {
    Seq::new(list.len(), |i: int| list[i]@)
}

/// Folds a list of dataset schemas into the collection-wide merged schema.
/// Types widen where they merge; otherwise the type seen first stands.
pub fn compute_merged(schemas: &Vec<&DatasetSchema>) -> (merged: MergedSchema)
    ensures
        merged@ == merged_of(models_of(schemas@)),
{
    let ghost all = models_of(schemas@);
    let mut arrays: Table<MergedArray> = Table::new();
    let mut global_attributes: Table<DType> = Table::new();
    let mut i: usize = 0;
    assert(all.take(0) =~= Seq::empty());
    assert(viewed(arrays@) =~= Seq::empty());
    while i < schemas.len()
        invariant
            i <= schemas@.len(),
            all == models_of(schemas@),
            viewed(arrays@) == merged_of(all.take(i as int)).arrays,
            global_attributes@ == merged_of(all.take(i as int)).global_attributes,
        decreases schemas@.len() - i,
    {
        let schema: &DatasetSchema = schemas[i];
        let ghost m = schema@;
        let ghost front = viewed(arrays@);
        proof {
            assert(all.take(i + 1).drop_last() =~= all.take(i as int));
            assert(all.take(i + 1).last() == m);
        }
        let count: usize = schema.arrays.len();
        let mut k: usize = 0;
        while k < count
            invariant
                k <= count,
                m == schema@,
                count == schema.arrays@.len(),
                viewed(arrays@) == merge_arrays_of(front, m, k as int),
            decreases count - k,
        {
            let name = schema.arrays.name_at(k);
            let attrs = schema.array_attrs.get(name);
            proof {
                lemma_viewed(schema.array_attrs@, name@);
            }
            merge_array(&mut arrays, name, schema.arrays.value_at(k), attrs);
            k += 1;
        }
        merge_types(&mut global_attributes, &schema.global_attrs);
        i += 1;
    }
    assert(all.take(i as int) =~= all);
    MergedSchema { arrays, global_attributes }
}

/// The type a dataset gives an attribute of an array that it declares.
spec fn note_type(m: DatasetModel, array: Seq<char>, key: Seq<char>) -> Option<DType> {
    if has_key(m.arrays, array) {
        match value_of(m.array_attrs, array) {
            Some(attrs) => value_of(attrs, key),
            None => None,
        }
    } else {
        None
    }
}

/// The type a merged schema gives an attribute of an array.
spec fn merged_note_type(m: MergedModel, array: Seq<char>, key: Seq<char>) -> Option<DType> {
    match value_of(m.arrays, array) {
        Some(entry) => value_of(entry.attributes, key),
        None => None,
    }
}

/// The type a merged schema gives an array.
spec fn merged_array_type(m: MergedModel, array: Seq<char>) -> Option<DType> {
    match value_of(m.arrays, array) {
        Some(entry) => Some(entry.dtype),
        None => None,
    }
}

/// Two types that may be absent, the second merged into the first.
spec fn joined(first: Option<DType>, second: Option<DType>) -> Option<DType> {
    match (first, second) {
        (Some(a), Some(b)) => Some(first_wins(a, b)),
        (Some(a), None) => Some(a),
        (None, b) => b,
    }
}

proof fn lemma_value_of_last<V>(entries: Seq<(Seq<char>, V)>, key: Seq<char>)
    requires
        keys_distinct(entries),
        entries.len() > 0,
    ensures
        keys_distinct(entries.drop_last()),
        !has_key(entries.drop_last(), entries.last().0),
        value_of(entries, key) == (if key == entries.last().0 {
            Some(entries.last().1)
        } else {
            value_of(entries.drop_last(), key)
        }),
{
    let front = entries.drop_last();
    let at = entries.len() - 1;
    assert forall|i: int, j: int| 0 <= i < j < front.len() implies #[trigger] front[i].0
        != #[trigger] front[j].0 by {
        assert(entries[i].0 != entries[j].0);
    }
    if has_key(front, entries.last().0) {
        let i = key_index(front, entries.last().0);
        assert(front[i].0 == entries.last().0);
        assert(entries[i].0 != entries[at].0);
    }
    crate::table::lemma_key_index(entries, at);
    if key != entries.last().0 {
        if has_key(front, key) {
            let i = key_index(front, key);
            assert(front[i].0 == key);
            assert(entries[i] == front[i]);
            crate::table::lemma_key_index(entries, i);
            crate::table::lemma_key_index(front, i);
        } else if has_key(entries, key) {
            let i = key_index(entries, key);
            assert(entries[i].0 == key);
            assert(front[i].0 == key);
        }
    }
}

proof fn lemma_with_entry_keeps_places<V>(entries: Seq<(Seq<char>, V)>, key: Seq<char>, value: V)
    ensures
        with_entry(entries, key, value).len() >= entries.len(),
        forall|i: int|
            0 <= i < entries.len() ==> (#[trigger] with_entry(entries, key, value)[i]).0
                == entries[i].0,
{
    if has_key(entries, key) {
        let at = key_index(entries, key);
        assert(entries[at].0 == key);
    }
}

proof fn lemma_merge_types(
    map: Seq<(Seq<char>, DType)>,
    attrs: Seq<(Seq<char>, DType)>,
    key: Seq<char>,
)
    requires
        keys_distinct(map),
        keys_distinct(attrs),
    ensures
        keys_distinct(merge_types_of(map, attrs)),
        value_of(merge_types_of(map, attrs), key) == joined(value_of(map, key), value_of(attrs, key)),
        merge_types_of(map, attrs).len() >= map.len(),
        forall|i: int|
            0 <= i < map.len() ==> (#[trigger] merge_types_of(map, attrs)[i]).0 == map[i].0,
    decreases attrs.len(),
{
    if attrs.len() > 0 {
        let front = attrs.drop_last();
        let last = attrs.last();
        lemma_value_of_last(attrs, key);
        lemma_merge_types(map, front, key);
        lemma_merge_types(map, front, last.0);
        let mid = merge_types_of(map, front);
        let value = match value_of(mid, last.0) {
            Some(existing) => first_wins(existing, last.1),
            None => last.1,
        };
        law_get_after_set(mid, last.0, value, key);
        lemma_with_entry_keeps_places(mid, last.0, value);
    }
}

/// The names of a merged schema are distinct.
spec fn merged_tidily(arrays: Seq<(Seq<char>, MergedArrayModel)>) -> bool {
    &&& keys_distinct(arrays)
    &&& forall|i: int| 0 <= i < arrays.len() ==> keys_distinct((#[trigger] arrays[i]).1.attributes)
}

proof fn lemma_merge_array(
    map: Seq<(Seq<char>, MergedArrayModel)>,
    name: Seq<char>,
    array: ArraySchemaModel,
    attrs: Seq<(Seq<char>, DType)>,
    other: Seq<char>,
    key: Seq<char>,
)
    requires
        merged_tidily(map),
        keys_distinct(attrs),
    ensures
        ({
            let after = merge_array_of(map, name, array, attrs);
            &&& merged_tidily(after)
            &&& other != name ==> value_of(after, other) == value_of(map, other)
            &&& value_of(after, name) matches Some(x) && match value_of(map, name) {
                Some(e) => x.dtype == first_wins(e.dtype, array.dtype) && x.dimension_names
                    == e.dimension_names && value_of(x.attributes, key) == joined(
                    value_of(e.attributes, key),
                    value_of(attrs, key),
                ),
                None => x.dtype == array.dtype && x.dimension_names == array.dimension_names
                    && value_of(x.attributes, key) == value_of(attrs, key),
            }
            &&& after.len() >= map.len()
            &&& forall|i: int| 0 <= i < map.len() ==> (#[trigger] after[i]).0 == map[i].0
        }),
{
    let none = Seq::<(Seq<char>, DType)>::empty();
    let old_attrs = match value_of(map, name) {
        Some(e) => e.attributes,
        None => none,
    };
    if has_key(map, name) {
        let at = key_index(map, name);
        assert(map[at].0 == name);
        assert(keys_distinct(map[at].1.attributes));
    }
    lemma_merge_types(old_attrs, attrs, key);
    assert(!has_key(none, key));
    let value = match value_of(map, name) {
        Some(entry) => MergedArrayModel {
            dtype: first_wins(entry.dtype, array.dtype),
            dimension_names: entry.dimension_names,
            attributes: merge_types_of(entry.attributes, attrs),
        },
        None => MergedArrayModel {
            dtype: array.dtype,
            dimension_names: array.dimension_names,
            attributes: merge_types_of(none, attrs),
        },
    };
    let after = merge_array_of(map, name, array, attrs);
    assert(after == with_entry(map, name, value));
    law_get_after_set(map, name, value, other);
    lemma_with_entry_keeps_places(map, name, value);
    assert forall|i: int| 0 <= i < after.len() implies keys_distinct(
        (#[trigger] after[i]).1.attributes,
    ) by {
        if i < map.len() && after[i] == map[i] {
            assert(keys_distinct(map[i].1.attributes));
        }
    }
}

proof fn lemma_attrs_of_are_distinct(m: DatasetModel, array: Seq<char>)
    requires
        distinct_names(m),
    ensures
        keys_distinct(attrs_of(m, array)),
{
    if has_key(m.array_attrs, array) {
        let i = key_index(m.array_attrs, array);
        assert(m.array_attrs[i].0 == array);
        assert(keys_distinct(m.array_attrs[i].1));
    }
}

proof fn lemma_merge_arrays(
    map: Seq<(Seq<char>, MergedArrayModel)>,
    m: DatasetModel,
    n: int,
    name: Seq<char>,
    key: Seq<char>,
)
    requires
        merged_tidily(map),
        distinct_names(m),
        0 <= n <= m.arrays.len(),
    ensures
        ({
            let after = merge_arrays_of(map, m, n);
            let given = value_of(m.arrays.take(n), name);
            &&& merged_tidily(after)
            &&& given is None ==> value_of(after, name) == value_of(map, name)
            &&& given matches Some(array) ==> value_of(after, name) matches Some(x) && match value_of(
                map,
                name,
            ) {
                Some(e) => x.dtype == first_wins(e.dtype, array.dtype) && x.dimension_names
                    == e.dimension_names && value_of(x.attributes, key) == joined(
                    value_of(e.attributes, key),
                    value_of(attrs_of(m, name), key),
                ),
                None => x.dtype == array.dtype && x.dimension_names == array.dimension_names
                    && value_of(x.attributes, key) == value_of(attrs_of(m, name), key),
            }
            &&& after.len() >= map.len()
            &&& forall|i: int| 0 <= i < map.len() ==> (#[trigger] after[i]).0 == map[i].0
        }),
    decreases n,
{
    if n == 0 {
        assert(!has_key(m.arrays.take(0), name));
    } else {
        let shorter = m.arrays.take(n - 1);
        let longer = m.arrays.take(n);
        let next = m.arrays[n - 1];
        assert forall|i: int, j: int| 0 <= i < j < longer.len() implies #[trigger] longer[i].0
            != #[trigger] longer[j].0 by {
            assert(m.arrays[i].0 != m.arrays[j].0);
        }
        assert(longer.drop_last() =~= shorter);
        lemma_value_of_last(longer, name);
        lemma_merge_arrays(map, m, n - 1, name, key);
        lemma_attrs_of_are_distinct(m, next.0);
        let mid = merge_arrays_of(map, m, n - 1);
        lemma_merge_array(mid, next.0, next.1, attrs_of(m, next.0), name, key);
    }
}

proof fn lemma_merged_tidily(list: Seq<DatasetModel>)
    requires
        forall|i: int| 0 <= i < list.len() ==> distinct_names(#[trigger] list[i]),
    ensures
        merged_tidily(merged_of(list).arrays),
        keys_distinct(merged_of(list).global_attributes),
    decreases list.len(),
{
    if list.len() > 0 {
        let m = list.last();
        let front = merged_of(list.drop_last());
        assert(distinct_names(list[list.len() - 1]));
        assert forall|i: int| 0 <= i < list.drop_last().len() implies distinct_names(
            #[trigger] list.drop_last()[i],
        ) by {
            assert(distinct_names(list[i]));
        }
        lemma_merged_tidily(list.drop_last());
        lemma_merge_arrays(
            front.arrays,
            m,
            m.arrays.len() as int,
            Seq::empty(),
            Seq::empty(),
        );
        lemma_merge_types(front.global_attributes, m.global_attrs, Seq::empty());
    }
}

/// One dataset more adds what it declares and takes nothing away. An array that
/// is new comes in as the dataset declares it. One that is known widens by the
/// type declared for it, where the two types merge, and keeps its own where
/// they do not. So does each of its attributes, and each attribute of the
/// datasets, and a key that is new comes in with its type. The names of the
/// dimensions stay those of the first declaration. What was listed before keeps
/// its place.
pub proof fn law_one_more_dataset_widens_the_merged_schema(
    list: Seq<DatasetModel>,
    m: DatasetModel,
    name: Seq<char>,
    key: Seq<char>,
)
    requires
        forall|i: int| 0 <= i < list.len() ==> distinct_names(#[trigger] list[i]),
        distinct_names(m),
    ensures
        ({
            let before = merged_of(list);
            let after = merged_of(list.push(m));
            let declared = match value_of(m.array_attrs, name) {
                Some(attrs) => value_of(attrs, key),
                None => None,
            };
            &&& match (value_of(before.arrays, name), value_of(m.arrays, name)) {
                (None, None) => value_of(after.arrays, name) is None,
                (Some(known), None) => value_of(after.arrays, name) == Some(known),
                (None, Some(array)) => value_of(after.arrays, name) matches Some(x) && {
                    &&& x.dtype == array.dtype
                    &&& x.dimension_names == array.dimension_names
                    &&& value_of(x.attributes, key) == declared
                },
                (Some(known), Some(array)) => value_of(after.arrays, name) matches Some(x) && {
                    &&& widened(known.dtype, array.dtype) == Some(x.dtype) || (widened(
                        known.dtype,
                        array.dtype,
                    ) is None && x.dtype == known.dtype)
                    &&& x.dimension_names == known.dimension_names
                    &&& match (value_of(known.attributes, key), declared) {
                        (Some(a), Some(b)) => value_of(x.attributes, key) matches Some(t) && (
                        widened(a, b) == Some(t) || (widened(a, b) is None && t == a)),
                        (Some(a), None) => value_of(x.attributes, key) == Some(a),
                        (None, b) => value_of(x.attributes, key) == b,
                    }
                },
            }
            &&& match (value_of(before.global_attributes, key), value_of(m.global_attrs, key)) {
                (Some(a), Some(b)) => value_of(after.global_attributes, key) matches Some(t) && (
                widened(a, b) == Some(t) || (widened(a, b) is None && t == a)),
                (Some(a), None) => value_of(after.global_attributes, key) == Some(a),
                (None, b) => value_of(after.global_attributes, key) == b,
            }
            &&& before.arrays.len() <= after.arrays.len()
            &&& forall|i: int|
                0 <= i < before.arrays.len() ==> (#[trigger] after.arrays[i]).0
                    == before.arrays[i].0
            &&& before.global_attributes.len() <= after.global_attributes.len()
            &&& forall|i: int|
                0 <= i < before.global_attributes.len() ==> (#[trigger] after.global_attributes[i]).0
                    == before.global_attributes[i].0
        }),
{
    let before = merged_of(list);
    assert(list.push(m).drop_last() =~= list);
    lemma_merged_tidily(list);
    lemma_merge_arrays(before.arrays, m, m.arrays.len() as int, name, key);
    assert(m.arrays.take(m.arrays.len() as int) =~= m.arrays);
    lemma_merge_types(before.global_attributes, m.global_attrs, key);
    let none = Seq::<(Seq<char>, DType)>::empty();
    assert(!has_key(none, key));
}

proof fn lemma_one_more(list: Seq<DatasetModel>, name: Seq<char>, key: Seq<char>)
    requires
        list.len() > 0,
        forall|i: int| 0 <= i < list.len() ==> distinct_names(#[trigger] list[i]),
    ensures
        ({
            let before = merged_of(list.drop_last());
            let after = merged_of(list);
            let m = list.last();
            &&& merged_array_type(after, name) == joined(
                merged_array_type(before, name),
                array_type(m, name),
            )
            &&& merged_note_type(after, name, key) == joined(
                merged_note_type(before, name, key),
                note_type(m, name, key),
            )
            &&& value_of(after.global_attributes, key) == joined(
                value_of(before.global_attributes, key),
                value_of(m.global_attrs, key),
            )
        }),
{
    let front = list.drop_last();
    assert(distinct_names(list[list.len() - 1]));
    assert forall|i: int| 0 <= i < front.len() implies distinct_names(#[trigger] front[i]) by {
        assert(distinct_names(list[i]));
    }
    assert(front.push(list.last()) =~= list);
    law_one_more_dataset_widens_the_merged_schema(front, list.last(), name, key);
    if value_of(merged_of(front).arrays, name) is None {
        assert(merged_note_type(merged_of(front), name, key) is None);
    }
}

/// The type that some types, absent ones among them, are merged to.
spec fn joined_all(types: Seq<Option<DType>>) -> Option<DType>
    decreases types.len(),
{
    if types.len() == 0 {
        None
    } else {
        joined(joined_all(types.drop_last()), types.last())
    }
}

proof fn lemma_joined_all(types: Seq<Option<DType>>)
    ensures
        joined_all(types) is Some <==> exists|i: int|
            0 <= i < types.len() && (#[trigger] types[i]) is Some,
        joined_all(types) matches Some(t) ==> forall|i: int|
            0 <= i < types.len() && (#[trigger] types[i]) is Some ==> (align(t, types[i].unwrap())
                ==> widened(t, types[i].unwrap()) == Some(t)),
        joined_all(types) matches Some(t) ==> forall|i: int|
            0 <= i < types.len() && (#[trigger] types[i]) is Some && (forall|j: int|
                0 <= j < i ==> types[j] is None) ==> align(types[i].unwrap(), t),
    decreases types.len(),
{
    if types.len() > 0 {
        let front = types.drop_last();
        let last = types.last();
        lemma_joined_all(front);
        let before = joined_all(front);
        let after = joined_all(types);
        if before is Some {
            let i = choose|i: int| 0 <= i < front.len() && (#[trigger] front[i]) is Some;
            assert(types[i] is Some);
        }
        if last is Some {
            assert(types[types.len() - 1] is Some);
        }
        if exists|i: int| 0 <= i < types.len() && (#[trigger] types[i]) is Some {
            let i = choose|i: int| 0 <= i < types.len() && (#[trigger] types[i]) is Some;
            if i < front.len() {
                assert(front[i] is Some);
            }
        }
        if after is Some {
            let t = after.unwrap();
            assert forall|i: int| 0 <= i < types.len() && (#[trigger] types[i]) is Some implies (
            align(t, types[i].unwrap()) ==> widened(t, types[i].unwrap()) == Some(t)) by {
                let x = types[i].unwrap();
                if i < front.len() {
                    assert(front[i] == types[i]);
                    let b = before.unwrap();
                    if last is Some {
                        let y = last.unwrap();
                        law_widened_types_absorb_both(b, y, x);
                        law_alignment_is_an_equivalence(b, y, x);
                        law_widened_types_absorb_both(t, b, x);
                    }
                } else if before is Some {
                    law_widened_types_absorb_both(before.unwrap(), x, x);
                }
            }
            assert forall|i: int|
                0 <= i < types.len() && (#[trigger] types[i]) is Some && (forall|j: int|
                    0 <= j < i ==> types[j] is None) implies align(types[i].unwrap(), t) by {
                let x = types[i].unwrap();
                if i < front.len() {
                    assert(front[i] == types[i]);
                    assert forall|j: int| 0 <= j < i implies front[j] is None by {
                        assert(types[j] is None);
                    }
                    if last is Some {
                        law_alignment_is_an_equivalence(before.unwrap(), last.unwrap(), x);
                    }
                } else {
                    assert forall|j: int| 0 <= j < front.len() implies front[j] is None by {
                        assert(types[j] is None);
                    }
                    law_alignment_is_an_equivalence(x, x, x);
                }
            }
        }
    }
}

proof fn lemma_merged_is_joined(list: Seq<DatasetModel>, name: Seq<char>, key: Seq<char>)
    requires
        forall|i: int| 0 <= i < list.len() ==> distinct_names(#[trigger] list[i]),
    ensures
        merged_array_type(merged_of(list), name) == joined_all(
            Seq::new(list.len(), |i: int| array_type(list[i], name)),
        ),
        merged_note_type(merged_of(list), name, key) == joined_all(
            Seq::new(list.len(), |i: int| note_type(list[i], name, key)),
        ),
        value_of(merged_of(list).global_attributes, key) == joined_all(
            Seq::new(list.len(), |i: int| value_of(list[i].global_attrs, key)),
        ),
    decreases list.len(),
{
    let types = Seq::new(list.len(), |i: int| array_type(list[i], name));
    let notes = Seq::new(list.len(), |i: int| note_type(list[i], name, key));
    let globals = Seq::new(list.len(), |i: int| value_of(list[i].global_attrs, key));
    if list.len() > 0 {
        let front = list.drop_last();
        assert forall|i: int| 0 <= i < front.len() implies distinct_names(#[trigger] front[i]) by {
            assert(distinct_names(list[i]));
        }
        lemma_merged_is_joined(front, name, key);
        lemma_one_more(list, name, key);
        assert(types.drop_last() =~= Seq::new(front.len(), |i: int| array_type(front[i], name)));
        assert(notes.drop_last() =~= Seq::new(
            front.len(),
            |i: int| note_type(front[i], name, key),
        ));
        assert(globals.drop_last() =~= Seq::new(
            front.len(),
            |i: int| value_of(front[i].global_attrs, key),
        ));
    } else {
        assert(!has_key(merged_of(list).arrays, name));
        assert(!has_key(merged_of(list).global_attributes, key));
    }
}

/// The merged schema holds an array exactly where some dataset declares it. Its
/// type absorbs every type declared for it that merges with it, and merges with
/// the type declared first.
pub proof fn law_merged_schema_holds_every_declared_array(
    list: Seq<DatasetModel>,
    name: Seq<char>,
)
    requires
        forall|i: int| 0 <= i < list.len() ==> distinct_names(#[trigger] list[i]),
    ensures
        has_key(merged_of(list).arrays, name) <==> exists|i: int|
            0 <= i < list.len() && has_key((#[trigger] list[i]).arrays, name),
        forall|i: int|
            0 <= i < list.len() && has_key((#[trigger] list[i]).arrays, name) ==> ({
                let declared = value_of(list[i].arrays, name).unwrap().dtype;
                let merged = value_of(merged_of(list).arrays, name).unwrap().dtype;
                &&& align(merged, declared) ==> widened(merged, declared) == Some(merged)
                &&& (forall|j: int| 0 <= j < i ==> !has_key((#[trigger] list[j]).arrays, name))
                    ==> align(declared, merged)
            }),
{
    let types = Seq::new(list.len(), |i: int| array_type(list[i], name));
    lemma_merged_is_joined(list, name, Seq::empty());
    lemma_joined_all(types);
    if has_key(merged_of(list).arrays, name) {
        let i = choose|i: int| 0 <= i < types.len() && (#[trigger] types[i]) is Some;
        assert(has_key(list[i].arrays, name));
    }
    assert forall|i: int| 0 <= i < list.len() && has_key((#[trigger] list[i]).arrays, name) implies ({
        let declared = value_of(list[i].arrays, name).unwrap().dtype;
        let merged = value_of(merged_of(list).arrays, name).unwrap().dtype;
        &&& has_key(merged_of(list).arrays, name)
        &&& align(merged, declared) ==> widened(merged, declared) == Some(merged)
        &&& (forall|j: int| 0 <= j < i ==> !has_key((#[trigger] list[j]).arrays, name)) ==> align(
            declared,
            merged,
        )
    }) by {
        assert(types[i] is Some);
        if forall|j: int| 0 <= j < i ==> !has_key((#[trigger] list[j]).arrays, name) {
            assert forall|j: int| 0 <= j < i implies types[j] is None by {
                assert(!has_key(list[j].arrays, name));
            }
        }
    }
}

/// A merged array holds an attribute key exactly where some dataset declares
/// the array and gives it that key. The type of the key absorbs every type
/// given to it that merges with it.
pub proof fn law_merged_arrays_hold_the_attributes_of_every_dataset(
    list: Seq<DatasetModel>,
    name: Seq<char>,
    key: Seq<char>,
)
    requires
        forall|i: int| 0 <= i < list.len() ==> distinct_names(#[trigger] list[i]),
    ensures
        (value_of(merged_of(list).arrays, name) matches Some(entry) && has_key(
            entry.attributes,
            key,
        )) <==> exists|i: int|
            0 <= i < list.len() && has_key((#[trigger] list[i]).arrays, name) && has_key(
                list[i].array_attrs,
                name,
            ) && has_key(value_of(list[i].array_attrs, name).unwrap(), key),
        forall|i: int|
            0 <= i < list.len() && has_key((#[trigger] list[i]).arrays, name) && has_key(
                list[i].array_attrs,
                name,
            ) && has_key(value_of(list[i].array_attrs, name).unwrap(), key) ==> ({
                let declared = value_of(value_of(list[i].array_attrs, name).unwrap(), key).unwrap();
                let merged = value_of(
                    value_of(merged_of(list).arrays, name).unwrap().attributes,
                    key,
                ).unwrap();
                align(merged, declared) ==> widened(merged, declared) == Some(merged)
            }),
{
    let notes = Seq::new(list.len(), |i: int| note_type(list[i], name, key));
    lemma_merged_is_joined(list, name, key);
    lemma_joined_all(notes);
    if merged_note_type(merged_of(list), name, key) is Some {
        let i = choose|i: int| 0 <= i < notes.len() && (#[trigger] notes[i]) is Some;
        assert(has_key(list[i].arrays, name));
    }
    assert forall|i: int|
        0 <= i < list.len() && has_key((#[trigger] list[i]).arrays, name) && has_key(
            list[i].array_attrs,
            name,
        ) && has_key(value_of(list[i].array_attrs, name).unwrap(), key) implies notes[i] is Some by {
    }
    assert forall|i: int|
        0 <= i < list.len() && has_key((#[trigger] list[i]).arrays, name) && has_key(
            list[i].array_attrs,
            name,
        ) && has_key(value_of(list[i].array_attrs, name).unwrap(), key) implies ({
        let declared = value_of(value_of(list[i].array_attrs, name).unwrap(), key).unwrap();
        let merged = value_of(
            value_of(merged_of(list).arrays, name).unwrap().attributes,
            key,
        ).unwrap();
        &&& merged_note_type(merged_of(list), name, key) is Some
        &&& align(merged, declared) ==> widened(merged, declared) == Some(merged)
    }) by {
        assert(notes[i] is Some);
    }
}

/// The merged schema holds a dataset-level attribute exactly where some dataset
/// carries it, under a type that absorbs every type given to it that merges
/// with it.
pub proof fn law_merged_schema_holds_every_dataset_attribute(
    list: Seq<DatasetModel>,
    key: Seq<char>,
)
    requires
        forall|i: int| 0 <= i < list.len() ==> distinct_names(#[trigger] list[i]),
    ensures
        has_key(merged_of(list).global_attributes, key) <==> exists|i: int|
            0 <= i < list.len() && has_key((#[trigger] list[i]).global_attrs, key),
        forall|i: int|
            0 <= i < list.len() && has_key((#[trigger] list[i]).global_attrs, key) ==> ({
                let declared = value_of(list[i].global_attrs, key).unwrap();
                let merged = value_of(merged_of(list).global_attributes, key).unwrap();
                align(merged, declared) ==> widened(merged, declared) == Some(merged)
            }),
{
    let globals = Seq::new(list.len(), |i: int| value_of(list[i].global_attrs, key));
    lemma_merged_is_joined(list, Seq::empty(), key);
    lemma_joined_all(globals);
    if has_key(merged_of(list).global_attributes, key) {
        let i = choose|i: int| 0 <= i < globals.len() && (#[trigger] globals[i]) is Some;
        assert(has_key(list[i].global_attrs, key));
    }
    assert forall|i: int|
        0 <= i < list.len() && has_key((#[trigger] list[i]).global_attrs, key) implies globals[i]
        is Some by {}
}

proof fn lemma_dtype_tells(a: DType, b: DType, s: Seq<Seq<u8>>, t: Seq<Seq<u8>>)
    requires
        dtype_chunks(a) + s == dtype_chunks(b) + t,
    ensures
        a == b,
        s == t,
    decreases a,
{
    let (x, y) = (dtype_chunks(a) + s, dtype_chunks(b) + t);
    let (p, q) = (x.skip(1), y.skip(1));
    assert(x =~= number_chunks(kind_of(a)) + p);
    assert(y =~= number_chunks(kind_of(b)) + q);
    lemma_number_tells(kind_of(a), kind_of(b), p, q);
    match (a, b) {
        (DType::List { child: c }, DType::List { child: d }) => {
            assert(p =~= dtype_chunks(*c) + s);
            assert(q =~= dtype_chunks(*d) + t);
            lemma_dtype_tells(*c, *d, s, t);
        },
        (
            DType::FixedSizeList { child: c, size: m },
            DType::FixedSizeList { child: d, size: n },
        ) => {
            let (u, v) = (number_chunks(m as nat) + s, number_chunks(n as nat) + t);
            assert(p =~= dtype_chunks(*c) + u);
            assert(q =~= dtype_chunks(*d) + v);
            lemma_dtype_tells(*c, *d, u, v);
            lemma_number_tells(m as nat, n as nat, s, t);
        },
        _ => {
            assert(p =~= s);
            assert(q =~= t);
        },
    }
}

/// An array schema whose lists have lengths that fit a machine word.
pub open spec fn countable_array(a: ArraySchemaModel) -> bool {
    &&& a.shape.len() <= u64::MAX
    &&& a.chunk_shape.len() <= u64::MAX
    &&& a.dimension_names.len() <= u64::MAX
}

/// A dataset schema whose lists have lengths that fit a machine word.
pub open spec fn countable(m: DatasetModel) -> bool {
    &&& m.arrays.len() <= u64::MAX
    &&& m.global_attrs.len() <= u64::MAX
    &&& m.array_attrs.len() <= u64::MAX
    &&& forall|i: int| 0 <= i < m.arrays.len() ==> countable_array((#[trigger] m.arrays[i]).1)
    &&& forall|i: int|
        0 <= i < m.array_attrs.len() ==> (#[trigger] m.array_attrs[i]).1.len() <= u64::MAX
}

proof fn lemma_regrouped(x: Seq<Seq<u8>>, y: Seq<Seq<u8>>, z: Seq<Seq<u8>>)
    ensures
        (x + y) + z == x + (y + z),
{
    assert((x + y) + z =~= x + (y + z));
}

proof fn lemma_array_chunks_from_the_front(a: ArraySchemaModel, s: Seq<Seq<u8>>)
    ensures
        array_chunks(a) + s == dtype_chunks(a.dtype) + (number_chunks(a.shape.len()) + (words_chunks(
            a.shape,
        ) + (number_chunks(a.chunk_shape.len()) + (words_chunks(a.chunk_shape) + (number_chunks(
            a.dimension_names.len(),
        ) + (texts_chunks(a.dimension_names) + (number_chunks(codec_number(a.codec)) + s))))))),
{
    let x1 = dtype_chunks(a.dtype);
    let x2 = number_chunks(a.shape.len());
    let x3 = words_chunks(a.shape);
    let x4 = number_chunks(a.chunk_shape.len());
    let x5 = words_chunks(a.chunk_shape);
    let x6 = number_chunks(a.dimension_names.len());
    let x7 = texts_chunks(a.dimension_names);
    let x8 = number_chunks(codec_number(a.codec));
    let s8 = x8 + s;
    let s7 = x7 + s8;
    let s6 = x6 + s7;
    let s5 = x5 + s6;
    let s4 = x4 + s5;
    let s3 = x3 + s4;
    lemma_regrouped(x1 + x2 + x3 + x4 + x5 + x6 + x7, x8, s);
    lemma_regrouped(x1 + x2 + x3 + x4 + x5 + x6, x7, s8);
    lemma_regrouped(x1 + x2 + x3 + x4 + x5, x6, s7);
    lemma_regrouped(x1 + x2 + x3 + x4, x5, s6);
    lemma_regrouped(x1 + x2 + x3, x4, s5);
    lemma_regrouped(x1 + x2, x3, s4);
    lemma_regrouped(x1, x2, s3);
}

proof fn lemma_array_tells(
    a: ArraySchemaModel,
    b: ArraySchemaModel,
    s: Seq<Seq<u8>>,
    t: Seq<Seq<u8>>,
)
    requires
        countable_array(a),
        countable_array(b),
        array_chunks(a) + s == array_chunks(b) + t,
    ensures
        a == b,
        s == t,
{
    let (s1, t1) = (
        number_chunks(codec_number(a.codec)) + s,
        number_chunks(codec_number(b.codec)) + t,
    );
    let (s2, t2) = (texts_chunks(a.dimension_names) + s1, texts_chunks(b.dimension_names) + t1);
    let (s3, t3) = (
        number_chunks(a.dimension_names.len()) + s2,
        number_chunks(b.dimension_names.len()) + t2,
    );
    let (s4, t4) = (words_chunks(a.chunk_shape) + s3, words_chunks(b.chunk_shape) + t3);
    let (s5, t5) = (
        number_chunks(a.chunk_shape.len()) + s4,
        number_chunks(b.chunk_shape.len()) + t4,
    );
    let (s6, t6) = (words_chunks(a.shape) + s5, words_chunks(b.shape) + t5);
    let (s7, t7) = (number_chunks(a.shape.len()) + s6, number_chunks(b.shape.len()) + t6);
    lemma_array_chunks_from_the_front(a, s);
    lemma_array_chunks_from_the_front(b, t);
    lemma_dtype_tells(a.dtype, b.dtype, s7, t7);
    lemma_number_tells(a.shape.len(), b.shape.len(), s6, t6);
    lemma_sizes_tell(a.shape, b.shape, s5, t5);
    lemma_number_tells(a.chunk_shape.len(), b.chunk_shape.len(), s4, t4);
    lemma_sizes_tell(a.chunk_shape, b.chunk_shape, s3, t3);
    lemma_number_tells(a.dimension_names.len(), b.dimension_names.len(), s2, t2);
    lemma_texts_tell(a.dimension_names, b.dimension_names, s1, t1);
    lemma_number_tells(codec_number(a.codec), codec_number(b.codec), s, t);
    assert(a =~= b);
}

proof fn lemma_arrays_tell(
    a: Seq<(Seq<char>, ArraySchemaModel)>,
    b: Seq<(Seq<char>, ArraySchemaModel)>,
    s: Seq<Seq<u8>>,
    t: Seq<Seq<u8>>,
)
    requires
        a.len() == b.len(),
        forall|i: int| 0 <= i < a.len() ==> countable_array((#[trigger] a[i]).1),
        forall|i: int| 0 <= i < b.len() ==> countable_array((#[trigger] b[i]).1),
        arrays_chunks(a) + s == arrays_chunks(b) + t,
    ensures
        a == b,
        s == t,
    decreases a.len(),
{
    if a.len() == 0 {
        assert(arrays_chunks(a) + s =~= s);
        assert(arrays_chunks(b) + t =~= t);
        assert(a =~= b);
    } else {
        let (c, d) = (a.drop_last(), b.drop_last());
        let (p, q) = (array_chunks(a.last().1) + s, array_chunks(b.last().1) + t);
        let (x, y) = (text_chunks(a.last().0) + p, text_chunks(b.last().0) + q);
        assert(arrays_chunks(a) + s =~= arrays_chunks(c) + x);
        assert(arrays_chunks(b) + t =~= arrays_chunks(d) + y);
        assert forall|i: int| 0 <= i < c.len() implies countable_array((#[trigger] c[i]).1) by {
            assert(a[i] == c[i]);
        }
        assert forall|i: int| 0 <= i < d.len() implies countable_array((#[trigger] d[i]).1) by {
            assert(b[i] == d[i]);
        }
        lemma_arrays_tell(c, d, x, y);
        lemma_text_tells(a.last().0, b.last().0, p, q);
        assert(countable_array(a[a.len() - 1].1) && countable_array(b[b.len() - 1].1));
        lemma_array_tells(a.last().1, b.last().1, s, t);
        assert(a =~= c.push(a.last()));
        assert(b =~= d.push(b.last()));
    }
}

proof fn lemma_types_tell(
    a: Seq<(Seq<char>, DType)>,
    b: Seq<(Seq<char>, DType)>,
    s: Seq<Seq<u8>>,
    t: Seq<Seq<u8>>,
)
    requires
        a.len() == b.len(),
        types_chunks(a) + s == types_chunks(b) + t,
    ensures
        a == b,
        s == t,
    decreases a.len(),
{
    if a.len() == 0 {
        assert(types_chunks(a) + s =~= s);
        assert(types_chunks(b) + t =~= t);
        assert(a =~= b);
    } else {
        let (c, d) = (a.drop_last(), b.drop_last());
        let (p, q) = (dtype_chunks(a.last().1) + s, dtype_chunks(b.last().1) + t);
        let (x, y) = (text_chunks(a.last().0) + p, text_chunks(b.last().0) + q);
        assert(types_chunks(a) + s =~= types_chunks(c) + x);
        assert(types_chunks(b) + t =~= types_chunks(d) + y);
        lemma_types_tell(c, d, x, y);
        lemma_text_tells(a.last().0, b.last().0, p, q);
        lemma_dtype_tells(a.last().1, b.last().1, s, t);
        assert(a =~= c.push(a.last()));
        assert(b =~= d.push(b.last()));
    }
}

proof fn lemma_nested_tell(
    a: Seq<(Seq<char>, Seq<(Seq<char>, DType)>)>,
    b: Seq<(Seq<char>, Seq<(Seq<char>, DType)>)>,
    s: Seq<Seq<u8>>,
    t: Seq<Seq<u8>>,
)
    requires
        a.len() == b.len(),
        forall|i: int| 0 <= i < a.len() ==> (#[trigger] a[i]).1.len() <= u64::MAX,
        forall|i: int| 0 <= i < b.len() ==> (#[trigger] b[i]).1.len() <= u64::MAX,
        nested_chunks(a) + s == nested_chunks(b) + t,
    ensures
        a == b,
        s == t,
    decreases a.len(),
{
    if a.len() == 0 {
        assert(nested_chunks(a) + s =~= s);
        assert(nested_chunks(b) + t =~= t);
        assert(a =~= b);
    } else {
        let (c, d) = (a.drop_last(), b.drop_last());
        let (g, h) = (a.last().1, b.last().1);
        let (p, q) = (types_chunks(g) + s, types_chunks(h) + t);
        let (v, w) = (number_chunks(g.len()) + p, number_chunks(h.len()) + q);
        let (x, y) = (text_chunks(a.last().0) + v, text_chunks(b.last().0) + w);
        assert(nested_chunks(a) + s =~= nested_chunks(c) + x);
        assert(nested_chunks(b) + t =~= nested_chunks(d) + y);
        assert forall|i: int| 0 <= i < c.len() implies (#[trigger] c[i]).1.len() <= u64::MAX by {
            assert(a[i] == c[i]);
        }
        assert forall|i: int| 0 <= i < d.len() implies (#[trigger] d[i]).1.len() <= u64::MAX by {
            assert(b[i] == d[i]);
        }
        lemma_nested_tell(c, d, x, y);
        lemma_text_tells(a.last().0, b.last().0, v, w);
        assert(a[a.len() - 1].1.len() <= u64::MAX && b[b.len() - 1].1.len() <= u64::MAX);
        lemma_number_tells(g.len(), h.len(), p, q);
        lemma_types_tell(g, h, s, t);
        assert(a =~= c.push(a.last()));
        assert(b =~= d.push(b.last()));
    }
}

/// Everything a schema says goes into its hash: two schemas that say different
/// things are never hashed from the same bytes, and equal ones hash alike.
pub proof fn law_everything_goes_into_the_hash(a: DatasetModel, b: DatasetModel)
    requires
        countable(a),
        countable(b),
    ensures
        schema_chunks(a) == schema_chunks(b) <==> a == b,
        a == b ==> hash_of(a) == hash_of(b),
{
    if schema_chunks(a) == schema_chunks(b) {
        let none = Seq::<Seq<u8>>::empty();
        let (s1, t1) = (nested_chunks(a.array_attrs) + none, nested_chunks(b.array_attrs) + none);
        let (s2, t2) = (
            number_chunks(a.array_attrs.len()) + s1,
            number_chunks(b.array_attrs.len()) + t1,
        );
        let (s3, t3) = (types_chunks(a.global_attrs) + s2, types_chunks(b.global_attrs) + t2);
        let (s4, t4) = (
            number_chunks(a.global_attrs.len()) + s3,
            number_chunks(b.global_attrs.len()) + t3,
        );
        let (s5, t5) = (arrays_chunks(a.arrays) + s4, arrays_chunks(b.arrays) + t4);
        assert(schema_chunks(a) =~= number_chunks(a.arrays.len()) + s5);
        assert(schema_chunks(b) =~= number_chunks(b.arrays.len()) + t5);
        lemma_number_tells(a.arrays.len(), b.arrays.len(), s5, t5);
        lemma_arrays_tell(a.arrays, b.arrays, s4, t4);
        lemma_number_tells(a.global_attrs.len(), b.global_attrs.len(), s3, t3);
        lemma_types_tell(a.global_attrs, b.global_attrs, s2, t2);
        lemma_number_tells(a.array_attrs.len(), b.array_attrs.len(), s1, t1);
        lemma_nested_tell(a.array_attrs, b.array_attrs, none, none);
        assert(a =~= b);
    }
}

} // verus!
