//! [`DatasetView`]: reading and writing one dataset of a mutable store.
//!
//! A view carries no state but its name and the store's settings. What it
//! decides is decided on the metadata of the store and on the buffer of
//! attribute writes, which every view of the store shares.

use crate::config::{Codec, TypeMismatchPolicy};
use crate::dataset::pending_attrs::{kept_groups, pending_value, with_attr, PendingAttrs};
use crate::error::{Error, Result};
use crate::meta::model::{current, other_type, recorded, reindexed, sound, with_schema, StoreModel};
use crate::meta::schema::{
    attrs_of, no_schema, with_array_attr, ArraySchema, ArraySchemaModel, DatasetModel,
    DatasetSchema,
};
use crate::meta::store_meta::{has_room, StoreMeta};
use crate::names::{valid_name, validate_name};
use crate::pruning::ColumnKey;
use crate::schema::attr::copy_list;
use crate::schema::dtype::{align, shown, widen_dtype, widened, DType};
use crate::schema::view::keys_of;
use crate::table::{
    has_key, key_index, lemma_key_index, lemma_viewed, value_of, with_entry, without_entry, Table,
};
use crate::text::{same_text, texts};
use crate::timestamp::{store_attr_dtype, StoreAttr};
use vstd::prelude::*;

verus! {

/// The file that holds the dataset-level attributes. The leading `_` keeps it
/// apart from every user array.
pub const GLOBAL_ATTRS_ARRAY: &'static str = "_global";

/// Whether a written type merges with what the collection records.
#[derive(Debug, Clone, Copy, PartialEq, Eq, Structural)]
pub enum Alignment {
    /// It does, or no other dataset uses the key.
    Aligned,
    /// It does not. The value is stored under the dataset's own type, and the
    /// caller reports a warning.
    Mismatched,
}

/// What becomes of a type that is written where `existing` is recorded.
pub open spec fn alignment_of(
    policy: TypeMismatchPolicy,
    name: Seq<char>,
    existing: Option<DType>,
    new: DType,
) -> std::result::Result<Alignment, Error<Seq<char>>> {
    match existing {
        None => Ok(Alignment::Aligned),
        Some(m) => if align(m, new) {
            Ok(Alignment::Aligned)
        } else {
            match policy {
                TypeMismatchPolicy::Warn => Ok(Alignment::Mismatched),
                TypeMismatchPolicy::Error => Err(
                    Error::TypeMismatch { name, existing: shown(m), new: shown(new) },
                ),
            }
        },
    }
}

/// Checks `new` against the type the collection already records. Types that
/// widen are fine. Others are an error or a warning, as the policy says.
pub fn check_type_alignment(
    policy: TypeMismatchPolicy,
    name: &str,
    existing: &Option<DType>,
    new: &DType,
) -> (verdict: Result<Alignment>)
    ensures
        match verdict {
            Ok(a) => alignment_of(policy, name@, *existing, *new) == Ok::<
                Alignment,
                Error<Seq<char>>,
            >(a),
            Err(e) => alignment_of(policy, name@, *existing, *new) == Err::<
                Alignment,
                Error<Seq<char>>,
            >(e@),
        },
{
    match existing {
        None => Ok(Alignment::Aligned),
        Some(m) => {
            if widen_dtype(m, new).is_some() {
                return Ok(Alignment::Aligned);
            }
            match policy {
                TypeMismatchPolicy::Warn => Ok(Alignment::Mismatched),
                TypeMismatchPolicy::Error => Err(
                    Error::TypeMismatch {
                        name: name.to_owned(),
                        existing: m.show(),
                        new: new.show(),
                    },
                ),
            }
        },
    }
}

/// The schema of a live dataset.
pub open spec fn live_schema_of(m: StoreModel, dataset: Seq<char>) -> Option<DatasetModel> {
    if has_key(m.datasets, dataset) && m.live[key_index(m.datasets, dataset)] {
        Some(m.datasets[key_index(m.datasets, dataset)].1)
    } else {
        None
    }
}

/// The schema a dataset gives an array, where it is live and declares it.
pub open spec fn array_schema_of(m: StoreModel, dataset: Seq<char>, array: Seq<char>) -> Option<
    ArraySchemaModel,
> {
    match live_schema_of(m, dataset) {
        Some(schema) => value_of(schema.arrays, array),
        None => None,
    }
}

/// The outcome of a write of a dataset-level attribute.
pub open spec fn set_attribute_outcome(
    m: StoreModel,
    policy: TypeMismatchPolicy,
    dataset: Seq<char>,
    key: Seq<char>,
    ty: DType,
) -> std::result::Result<Alignment, Error<Seq<char>>> {
    alignment_of(policy, key, other_type(m, dataset, ColumnKey::GlobalAttr(key)), ty)
}

/// The outcome of a write of an attribute of an array.
pub open spec fn set_array_attribute_outcome(
    m: StoreModel,
    policy: TypeMismatchPolicy,
    dataset: Seq<char>,
    array: Seq<char>,
    key: Seq<char>,
    ty: DType,
) -> std::result::Result<Alignment, Error<Seq<char>>> {
    if array_schema_of(m, dataset, array) is None {
        Err(Error::ArrayNotFound(array))
    } else {
        alignment_of(policy, key, other_type(m, dataset, ColumnKey::ArrayAttr(array, key)), ty)
    }
}

/// The outcome of a definition of an array.
pub open spec fn define_outcome(
    m: StoreModel,
    policy: TypeMismatchPolicy,
    dataset: Seq<char>,
    array: Seq<char>,
    dtype: DType,
) -> std::result::Result<Alignment, Error<Seq<char>>> {
    if !valid_name(array) {
        Err(Error::InvalidName(array))
    } else if array_schema_of(m, dataset, array) is Some {
        Err(Error::ArrayAlreadyExists(array))
    } else {
        alignment_of(policy, array, other_type(m, dataset, ColumnKey::Array(array)), dtype)
    }
}

/// A handle to one dataset of a mutable store.
#[derive(Debug)]
pub struct DatasetView {
    name: String,
    codec: Codec,
    on_type_mismatch: TypeMismatchPolicy,
}

/// Opens a view of a live dataset.
pub fn open_dataset_view(
    meta: &StoreMeta,
    name: &str,
    codec: Codec,
    on_type_mismatch: TypeMismatchPolicy,
) -> (view: Result<DatasetView>)
    ensures
        match view {
            Ok(v) => {
                &&& live_schema_of(meta@, name@) is Some
                &&& v.dataset() == name@
                &&& v.default_codec() == codec
                &&& v.policy() == on_type_mismatch
            },
            Err(e) => live_schema_of(meta@, name@) is None && e@ == Error::DatasetNotFound(name@),
        },
{
    if !meta.is_live(name) {
        return Err(Error::DatasetNotFound(name.to_owned()));
    }
    Ok(DatasetView::new(name, codec, on_type_mismatch))
}

impl DatasetView {
    /// The dataset the view points to.
    pub closed spec fn dataset(&self) -> Seq<char> {
        self.name@
    }

    /// The codec of new arrays.
    pub closed spec fn default_codec(&self) -> Codec {
        self.codec
    }

    /// What happens to a type that does not merge.
    pub closed spec fn policy(&self) -> TypeMismatchPolicy {
        self.on_type_mismatch
    }

    /// A view of a dataset.
    pub fn new(name: &str, codec: Codec, on_type_mismatch: TypeMismatchPolicy) -> (view: Self)
        ensures
            view.dataset() == name@,
            view.default_codec() == codec,
            view.policy() == on_type_mismatch,
    {
        DatasetView { name: name.to_owned(), codec, on_type_mismatch }
    }

    /// The dataset name this view points to.
    pub fn name(&self) -> (name: &str)
        ensures
            name@ == self.dataset(),
    {
        self.name.as_str()
    }

    /// A copy of this dataset's schema; an empty one if the dataset is gone.
    pub fn schema(&self, meta: &StoreMeta) -> (schema: DatasetSchema)
        ensures
            schema@ == (match live_schema_of(meta@, self.dataset()) {
                Some(s) => s,
                None => no_schema(),
            }),
    {
        match meta.live_schema(self.name.as_str()) {
            Some(schema) => schema.clone(),
            None => DatasetSchema::new(),
        }
    }

    /// All array names declared in this dataset, in the order of definition.
    pub fn list_arrays(&self, meta: &StoreMeta) -> (names: Vec<String>)
        ensures
            texts(names@) == (match live_schema_of(meta@, self.dataset()) {
                Some(s) => keys_of(s.arrays),
                None => Seq::empty(),
            }),
    {
        match meta.live_schema(self.name.as_str()) {
            Some(schema) => {
                let arrays = schema.arrays();
                let names = names_in_order(arrays);
                assert(texts(names@) =~= keys_of(schema@.arrays));
                names
            },
            None => {
                let names: Vec<String> = Vec::new();
                assert(texts(names@) =~= Seq::empty());
                names
            },
        }
    }

    /// Dataset-level attribute keys, in the order somebody first set them.
    pub fn attribute_keys(&self, meta: &StoreMeta) -> (keys: Vec<String>)
        ensures
            texts(keys@) == (match live_schema_of(meta@, self.dataset()) {
                Some(s) => keys_of(s.global_attrs),
                None => Seq::empty(),
            }),
    {
        match meta.live_schema(self.name.as_str()) {
            Some(schema) => {
                let attrs = schema.global_attrs();
                names_in_order(attrs)
            },
            None => {
                let keys: Vec<String> = Vec::new();
                assert(texts(keys@) =~= Seq::empty());
                keys
            },
        }
    }

    /// Attribute keys of an array, in the order somebody first set them.
    pub fn array_attribute_keys(&self, meta: &StoreMeta, array: &str) -> (keys: Vec<String>)
        ensures
            texts(keys@) == (match live_schema_of(meta@, self.dataset()) {
                Some(s) => keys_of(attrs_of(s, array@)),
                None => Seq::empty(),
            }),
    {
        let none: Vec<String> = Vec::new();
        assert(texts(none@) =~= Seq::empty());
        match meta.live_schema(self.name.as_str()) {
            Some(schema) => {
                let annotated = schema.array_attrs();
                let found = annotated.get(array);
                proof {
                    lemma_viewed(annotated@, array@);
                }
                match found {
                    Some(attrs) => names_in_order(attrs),
                    None => {
                        assert(keys_of(Seq::<(Seq<char>, DType)>::empty()) =~= Seq::empty());
                        none
                    },
                }
            },
            None => none,
        }
    }

    /// The schema of `array`, or `None` if this dataset does not declare it.
    pub fn array_meta(&self, meta: &StoreMeta, array: &str) -> (schema: Option<ArraySchema>)
        ensures
            match schema {
                Some(s) => array_schema_of(meta@, self.dataset(), array@) == Some(s@),
                None => array_schema_of(meta@, self.dataset(), array@) is None,
            },
    {
        match meta.live_schema(self.name.as_str()) {
            Some(schema) => {
                let arrays = schema.arrays();
                let found = arrays.get(array);
                proof {
                    lemma_viewed(arrays@, array@);
                }
                match found {
                    Some(a) => Some(a.clone()),
                    None => None,
                }
            },
            None => None,
        }
    }

    /// The codec of `array`, or `None` if this dataset does not declare it.
    pub fn array_codec(&self, meta: &StoreMeta, array: &str) -> (codec: Option<Codec>)
        ensures
            codec == (match array_schema_of(meta@, self.dataset(), array@) {
                Some(s) => Some(s.codec),
                None => None,
            }),
    {
        match self.array_meta(meta, array) {
            Some(schema) => Some(schema.codec),
            None => None,
        }
    }

    /// The codec to open `array` with for a write or a delete.
    pub fn require_array(&self, meta: &StoreMeta, array: &str) -> (codec: Result<Codec>)
        ensures
            match codec {
                Ok(c) => array_schema_of(meta@, self.dataset(), array@) matches Some(s) && s.codec
                    == c,
                Err(e) => array_schema_of(meta@, self.dataset(), array@) is None && e@
                    == Error::ArrayNotFound(array@),
            },
    {
        match self.array_codec(meta, array) {
            Some(codec) => Ok(codec),
            None => Err(Error::ArrayNotFound(array.to_owned())),
        }
    }

    /// The codec to open a file with: the store's for the dataset-level
    /// attributes, otherwise the array's, or the store's if it has none.
    pub fn file_codec(&self, meta: &StoreMeta, file: &str) -> (codec: Codec)
        ensures
            codec == (if file@ == GLOBAL_ATTRS_ARRAY@ {
                self.default_codec()
            } else {
                match array_schema_of(meta@, self.dataset(), file@) {
                    Some(s) => s.codec,
                    None => self.default_codec(),
                }
            }),
    {
        if same_text(file, GLOBAL_ATTRS_ARRAY) {
            return self.codec;
        }
        match self.array_codec(meta, file) {
            Some(codec) => codec,
            None => self.codec,
        }
    }

    /// Sets a dataset-level attribute: its key and type in the metadata, its
    /// value in the buffer. A refused type changes neither.
    pub fn set_attribute(
        &self,
        meta: &mut StoreMeta,
        pending: &mut PendingAttrs,
        key: &str,
        value: StoreAttr,
    ) -> (verdict: Result<Alignment>)
        requires
            has_room(old(meta)@, self.dataset()),
        ensures
            ({
                let ty = store_attr_dtype(value@);
                let outcome = set_attribute_outcome(
                    old(meta)@,
                    self.policy(),
                    self.dataset(),
                    key@,
                    ty,
                );
                match verdict {
                    Ok(a) => {
                        &&& outcome == Ok::<Alignment, Error<Seq<char>>>(a)
                        &&& final(meta)@ == recorded(
                            old(meta)@,
                            self.dataset(),
                            DatasetModel {
                                global_attrs: with_entry(
                                    current(old(meta)@, self.dataset()).global_attrs,
                                    key@,
                                    ty,
                                ),
                                ..current(old(meta)@, self.dataset())
                            },
                            ColumnKey::GlobalAttr(key@),
                            ty,
                            Codec::Zstd,
                        )
                        &&& final(pending)@ == with_attr(
                            old(pending)@,
                            GLOBAL_ATTRS_ARRAY@,
                            self.dataset(),
                            key@,
                            value@,
                        )
                    },
                    Err(e) => {
                        &&& outcome == Err::<Alignment, Error<Seq<char>>>(e@)
                        &&& final(meta)@ == old(meta)@
                        &&& final(pending)@ == old(pending)@
                    },
                }
            }),
    {
        let ty = value.dtype();
        let existing = meta.other_global_attr_dtype(self.name.as_str(), key);
        match check_type_alignment(self.on_type_mismatch, key, &existing, &ty) {
            Ok(alignment) => {
                meta.record_global_attr(self.name.as_str(), key, ty);
                pending.set(GLOBAL_ATTRS_ARRAY, self.name.as_str(), key, value);
                Ok(alignment)
            },
            Err(e) => Err(e),
        }
    }

    /// Sets an attribute of an array this dataset declares.
    pub fn set_array_attribute(
        &self,
        meta: &mut StoreMeta,
        pending: &mut PendingAttrs,
        array: &str,
        key: &str,
        value: StoreAttr,
    ) -> (verdict: Result<Alignment>)
        ensures
            ({
                let ty = store_attr_dtype(value@);
                let outcome = set_array_attribute_outcome(
                    old(meta)@,
                    self.policy(),
                    self.dataset(),
                    array@,
                    key@,
                    ty,
                );
                match verdict {
                    Ok(a) => {
                        &&& outcome == Ok::<Alignment, Error<Seq<char>>>(a)
                        &&& final(meta)@ == recorded(
                            old(meta)@,
                            self.dataset(),
                            with_array_attr(
                                current(old(meta)@, self.dataset()),
                                array@,
                                key@,
                                ty,
                            ),
                            ColumnKey::ArrayAttr(array@, key@),
                            ty,
                            Codec::Zstd,
                        )
                        &&& final(pending)@ == with_attr(
                            old(pending)@,
                            array@,
                            self.dataset(),
                            key@,
                            value@,
                        )
                    },
                    Err(e) => {
                        &&& outcome == Err::<Alignment, Error<Seq<char>>>(e@)
                        &&& final(meta)@ == old(meta)@
                        &&& final(pending)@ == old(pending)@
                    },
                }
            }),
    {
        let ty = value.dtype();
        if self.array_codec(meta, array).is_none() {
            return Err(Error::ArrayNotFound(array.to_owned()));
        }
        let existing = meta.other_array_attr_dtype(self.name.as_str(), array, key);
        match check_type_alignment(self.on_type_mismatch, key, &existing, &ty) {
            Ok(alignment) => {
                meta.record_array_attr(self.name.as_str(), array, key, ty);
                pending.set(array, self.name.as_str(), key, value);
                Ok(alignment)
            },
            Err(e) => Err(e),
        }
    }

    /// Checks the definition of a new array, before its file is touched.
    pub fn check_define(&self, meta: &StoreMeta, array: &str, dtype: &DType) -> (verdict: Result<
        Alignment,
    >)
        ensures
            match verdict {
                Ok(a) => define_outcome(
                    meta@,
                    self.policy(),
                    self.dataset(),
                    array@,
                    *dtype,
                ) == Ok::<Alignment, Error<Seq<char>>>(a),
                Err(e) => define_outcome(
                    meta@,
                    self.policy(),
                    self.dataset(),
                    array@,
                    *dtype,
                ) == Err::<Alignment, Error<Seq<char>>>(e@),
            },
    {
        match validate_name(array) {
            Ok(_) => {},
            Err(e) => {
                return Err(e);
            },
        }
        if self.array_codec(meta, array).is_some() {
            return Err(Error::ArrayAlreadyExists(array.to_owned()));
        }
        let existing = meta.other_array_dtype(self.name.as_str(), array);
        check_type_alignment(self.on_type_mismatch, array, &existing, dtype)
    }

    /// Records the definition of an array whose file was written. Without a
    /// chunk shape the array is one chunk.
    pub fn record_define(
        &self,
        meta: &mut StoreMeta,
        array: &str,
        dtype: DType,
        dims: Vec<String>,
        shape: Vec<usize>,
        chunk_shape: Option<Vec<usize>>,
    )
        requires
            has_room(old(meta)@, self.dataset()),
        ensures
            ({
                let schema = ArraySchemaModel {
                    dtype,
                    shape: shape@,
                    chunk_shape: match chunk_shape {
                        Some(chunk) => chunk@,
                        None => shape@,
                    },
                    dimension_names: texts(dims@),
                    codec: self.default_codec(),
                };
                final(meta)@ == recorded(
                    old(meta)@,
                    self.dataset(),
                    DatasetModel {
                        arrays: with_entry(
                            current(old(meta)@, self.dataset()).arrays,
                            array@,
                            schema,
                        ),
                        ..current(old(meta)@, self.dataset())
                    },
                    ColumnKey::Array(array@),
                    dtype,
                    self.default_codec(),
                )
            }),
    {
        let chunk = match chunk_shape {
            Some(chunk) => chunk,
            None => copy_list(&shape),
        };
        let schema = ArraySchema {
            dtype,
            shape,
            chunk_shape: chunk,
            dimension_names: dims,
            codec: self.codec,
        };
        meta.record_array(self.name.as_str(), array, schema);
    }

    /// Records the removal of an array: its buffered attributes go, and its
    /// entry in the metadata.
    pub fn record_delete(&self, meta: &mut StoreMeta, pending: &mut PendingAttrs, array: &str)
        ensures
            final(pending)@ == kept_groups(old(pending)@, Some(array@), self.dataset()),
            final(meta)@ == (if has_key(old(meta)@.datasets, self.dataset()) {
                let schema = current(old(meta)@, self.dataset());
                reindexed(
                    with_schema(
                        old(meta)@,
                        self.dataset(),
                        DatasetModel {
                            arrays: without_entry(schema.arrays, array@),
                            array_attrs: without_entry(schema.array_attrs, array@),
                            ..schema
                        },
                    ),
                )
            } else {
                reindexed(old(meta)@)
            }),
    {
        pending.remove(array, self.name.as_str());
        meta.unrecord_array(self.name.as_str(), array);
    }

    /// The value of an attribute: the buffered one if there is one, otherwise
    /// what the file holds.
    pub fn attribute_value(
        &self,
        pending: &PendingAttrs,
        file: &str,
        key: &str,
        stored: Option<StoreAttr>,
    ) -> (value: Option<StoreAttr>)
        ensures
            match value {
                Some(v) => match pending_value(pending@, file@, self.dataset(), key@) {
                    Some(p) => v@ == p,
                    None => stored matches Some(s) && v@ == s@,
                },
                None => pending_value(pending@, file@, self.dataset(), key@) is None && stored
                    is None,
            },
    {
        match pending.get(file, self.name.as_str(), key) {
            Some(value) => Some(value),
            None => stored,
        }
    }

    /// Shares this dataset's schema with the others of the store, once the
    /// view is done with.
    pub fn seal(&self, meta: &mut StoreMeta)
        ensures
            final(meta)@ == old(meta)@,
            has_key(old(meta)@.datasets, self.dataset()) ==> final(meta).is_pooled(self.dataset()),
            final(meta).shares_as(old(meta), self.dataset()),
    {
        meta.seal_dataset(self.name.as_str());
    }
}

/// The names of a table, in order.
fn names_in_order<V>(table: &Table<V>) -> (names: Vec<String>)
    ensures
        texts(names@) == keys_of(table@),
{
    let count: usize = table.len();
    let mut names: Vec<String> = Vec::new();
    let mut i: usize = 0;
    while i < count
        invariant
            i <= count,
            count == table@.len(),
            names@.len() == i,
            forall|j: int| 0 <= j < i ==> (#[trigger] names@[j])@ == table@[j].0,
        decreases count - i,
    {
        names.push(table.name_at(i).to_owned());
        i += 1;
    }
    assert(texts(names@) =~= keys_of(table@));
    names
}

/// The name of the file that holds an array, or the dataset-level attributes.
pub fn array_file(array: &str) -> (path: String)
    ensures
        path@ == array@ + "/data.af"@,
{
    let mut path: String = array.to_owned();
    path.append("/data.af");
    path
}

/// A type is taken without a word where nothing else is recorded, or where the
/// recorded type widens with it. Anything else is refused under the strict
/// policy, with both types named, and taken with a warning under the lenient
/// one.
pub proof fn law_the_policy_decides_on_mismatches_alone(
    policy: TypeMismatchPolicy,
    name: Seq<char>,
    existing: DType,
    new: DType,
)
    ensures
        alignment_of(policy, name, None, new) == Ok::<Alignment, Error<Seq<char>>>(
            Alignment::Aligned,
        ),
        widened(existing, new) is Some <==> alignment_of(policy, name, Some(existing), new) == Ok::<
            Alignment,
            Error<Seq<char>>,
        >(Alignment::Aligned),
        widened(existing, new) is None && policy is Warn ==> alignment_of(
            policy,
            name,
            Some(existing),
            new,
        ) == Ok::<Alignment, Error<Seq<char>>>(Alignment::Mismatched),
        widened(existing, new) is None && policy is Error ==> alignment_of(
            policy,
            name,
            Some(existing),
            new,
        ) == Err::<Alignment, Error<Seq<char>>>(
            Error::TypeMismatch { name, existing: shown(existing), new: shown(new) },
        ),
{
}

/// A dataset has a schema exactly where it is live, and it is the one that
/// stands at its place.
pub proof fn law_only_live_datasets_have_a_schema(
    m: StoreModel,
    dataset: Seq<char>,
    schema: DatasetModel,
)
    requires
        sound(m),
    ensures
        live_schema_of(m, dataset) == Some(schema) <==> exists|i: int|
            0 <= i < m.datasets.len() && (#[trigger] m.datasets[i]) == (dataset, schema)
                && m.live[i],
{
    if live_schema_of(m, dataset) == Some(schema) {
        let i = key_index(m.datasets, dataset);
        assert(m.datasets[i].0 == dataset);
        assert(m.datasets[i] == (dataset, schema));
    }
    if exists|i: int|
        0 <= i < m.datasets.len() && (#[trigger] m.datasets[i]) == (dataset, schema) && m.live[i] {
        let i = choose|i: int|
            0 <= i < m.datasets.len() && (#[trigger] m.datasets[i]) == (dataset, schema)
                && m.live[i];
        lemma_key_index(m.datasets, i);
    }
}

/// Why a definition is refused: the name is not valid; or the dataset has the
/// array already; or, under the strict policy alone, other datasets give it a
/// type that does not widen with the new one.
pub proof fn law_why_definitions_are_refused(
    m: StoreModel,
    policy: TypeMismatchPolicy,
    dataset: Seq<char>,
    array: Seq<char>,
    dtype: DType,
)
    ensures
        ({
            let outcome = define_outcome(m, policy, dataset, array, dtype);
            let taken = live_schema_of(m, dataset) matches Some(s) && has_key(s.arrays, array);
            let bound = other_type(m, dataset, ColumnKey::Array(array));
            let clash = bound matches Some(other) && widened(other, dtype) is None;
            &&& !valid_name(array) <==> outcome == Err::<Alignment, Error<Seq<char>>>(
                Error::InvalidName(array),
            )
            &&& valid_name(array) && taken <==> outcome == Err::<Alignment, Error<Seq<char>>>(
                Error::ArrayAlreadyExists(array),
            )
            &&& valid_name(array) && !taken && clash && policy is Error <==> (outcome is Err
                && outcome->Err_0 is TypeMismatch)
            &&& valid_name(array) && !taken && clash && policy is Warn <==> outcome == Ok::<
                Alignment,
                Error<Seq<char>>,
            >(Alignment::Mismatched)
            &&& valid_name(array) && !taken && !clash <==> outcome == Ok::<
                Alignment,
                Error<Seq<char>>,
            >(Alignment::Aligned)
        }),
{
}

/// Why an attribute is refused: an attribute of an array needs the array; and
/// under the strict policy alone, other datasets must not give the key a type
/// that does not widen with the new one. A dataset's own attribute needs no
/// array.
pub proof fn law_why_attributes_are_refused(
    m: StoreModel,
    policy: TypeMismatchPolicy,
    dataset: Seq<char>,
    array: Seq<char>,
    key: Seq<char>,
    ty: DType,
)
    ensures
        ({
            let outcome = set_attribute_outcome(m, policy, dataset, key, ty);
            let bound = other_type(m, dataset, ColumnKey::GlobalAttr(key));
            let clash = bound matches Some(other) && widened(other, ty) is None;
            &&& clash && policy is Error <==> outcome is Err
            &&& clash && policy is Warn <==> outcome == Ok::<Alignment, Error<Seq<char>>>(
                Alignment::Mismatched,
            )
            &&& !clash <==> outcome == Ok::<Alignment, Error<Seq<char>>>(Alignment::Aligned)
        }),
        ({
            let outcome = set_array_attribute_outcome(m, policy, dataset, array, key, ty);
            let known = live_schema_of(m, dataset) matches Some(s) && has_key(s.arrays, array);
            let bound = other_type(m, dataset, ColumnKey::ArrayAttr(array, key));
            let clash = bound matches Some(other) && widened(other, ty) is None;
            &&& !known <==> outcome == Err::<Alignment, Error<Seq<char>>>(
                Error::ArrayNotFound(array),
            )
            &&& known && clash && policy is Error <==> (outcome is Err
                && outcome->Err_0 is TypeMismatch)
            &&& known && clash && policy is Warn <==> outcome == Ok::<Alignment, Error<Seq<char>>>(
                Alignment::Mismatched,
            )
            &&& known && !clash <==> outcome == Ok::<Alignment, Error<Seq<char>>>(
                Alignment::Aligned,
            )
        }),
{
}

} // verus!
