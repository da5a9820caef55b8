//! [`DatasetView`]: one dataset of an open collection.

use crate::error::{Error, Result};
use crate::format::footer::{consistent, declared_by, CollectionFooter, FooterModel};
use crate::format::DATASET_ATTRS_VARIABLE;
use crate::reader::{declares_array, ordinal_of, segment_holds, segment_index, Atlas};
use crate::schema::dtype::{shown, DType};
use crate::schema::layout::{extents, fill_model, ArrayLayout, StoredLayout};
use crate::schema::view::{array_model, borrowed, key_at, keys_of, no_key, ArrayMeta, SchemaView};
use crate::stats::{ArrayStats, StatsModel};
use crate::text::texts;
use vstd::prelude::*;

verus! {

/// A read-only view of one dataset. What it declares comes from the collection
/// footer, and costs nothing.
#[derive(Debug, Clone, Copy)]
pub struct DatasetView<'a> {
    footer: &'a CollectionFooter,
    ordinal: u32,
}

/// Copies of some texts.
fn owned(list: &Vec<&str>) -> (out: Vec<String>)
    ensures
        texts(out@) == borrowed(list@),
{
    let mut out: Vec<String> = Vec::new();
    let mut i: usize = 0;
    while i < list.len()
        invariant
            i <= list@.len(),
            out@.len() == i,
            forall|j: int| 0 <= j < i ==> (#[trigger] out@[j])@ == list@[j]@,
        decreases list@.len() - i,
    {
        out.push(list[i].to_owned());
        i += 1;
    }
    assert(texts(out@) =~= borrowed(list@));
    out
}

/// The message for a read of an array with another element type.
pub open spec fn type_message(
    array: Seq<char>,
    dataset: Seq<char>,
    declared: DType,
    wanted: DType,
) -> Seq<char> {
    "array '"@ + array + "' of dataset '"@ + dataset + "' is "@ + shown(declared) + ", not "@
        + shown(wanted)
}

/// Which segment to read, and which keys of the dataset's entry in it.
#[derive(Debug)]
pub struct AttributeSource {
    /// The segment.
    pub segment: usize,
    /// The keys, in the order somebody set them.
    pub keys: Vec<String>,
}

impl<'a> DatasetView<'a> {
    #[verifier::type_invariant]
    spec fn well_formed(self) -> bool {
        &&& consistent(self.footer@)
        &&& self.footer@.strings.len() <= 0x1_0000_0000
        &&& self.ordinal < self.footer@.datasets.len()
    }

    /// What the footer of the collection says.
    pub closed spec fn collection(&self) -> FooterModel {
        self.footer@
    }

    /// The dataset's position in the collection.
    pub closed spec fn place(&self) -> u32 {
        self.ordinal
    }

    /// Which interned schema this dataset declares.
    pub fn schema_index(&self) -> (index: u32)
        ensures
            self.place() < self.collection().datasets.len(),
            index == self.collection().datasets[self.place() as int].1,
            index < self.collection().schemas.len(),
    {
        proof {
            use_type_invariant(self);
            assert(self.footer@.datasets[self.ordinal as int].1 < self.footer@.schemas.len());
        }
        *self.footer.datasets.value_at(self.ordinal as usize)
    }

    /// The dataset's name. Every variable segment stores this dataset's array
    /// under it.
    pub fn name(&self) -> (name: &'a str)
        ensures
            name@ == self.collection().datasets[self.place() as int].0,
    {
        proof {
            use_type_invariant(self);
        }
        self.footer.datasets.name_at(self.ordinal as usize)
    }

    /// The dataset's position in the collection. It is stable for the life of
    /// the container. The deletion mask names it.
    pub fn ordinal(&self) -> (ordinal: u32)
        ensures
            ordinal == self.place(),
    {
        self.ordinal
    }

    /// What the dataset declares: every array name and element type, in
    /// definition order, and the same for its attributes.
    pub fn schema(&self) -> (schema: SchemaView<'a>)
        ensures
            schema@ == declared_by(
                self.collection(),
                self.collection().datasets[self.place() as int].1 as int,
            ),
    {
        proof {
            use_type_invariant(self);
        }
        let index: u32 = self.schema_index();
        SchemaView::new(self.footer, index)
    }

    /// Array names, in definition order.
    pub fn list_arrays(&self) -> (names: Vec<String>)
        ensures
            texts(names@) == keys_of(
                declared_by(
                    self.collection(),
                    self.collection().datasets[self.place() as int].1 as int,
                ).arrays,
            ),
    {
        owned(&self.schema().names())
    }

    /// The name and element type of one array. `None` if this dataset does not
    /// declare it.
    pub fn array_meta(&self, array: &str) -> (meta: Option<ArrayMeta<'a>>)
        ensures
            ({
                let d = declared_by(
                    self.collection(),
                    self.collection().datasets[self.place() as int].1 as int,
                );
                match meta {
                    Some(m) => exists|i: int| #[trigger]
                        key_at(d.arrays, array@, i) && m@ == array_model(d, i),
                    None => no_key(d.arrays, array@),
                }
            }),
    {
        self.schema().get(array)
    }

    /// Whether the dataset declares an array of this name.
    fn declares(&self, array: &str) -> (found: bool)
        ensures
            found == declares_array(self.collection(), self.place() as int, array@),
    {
        match self.schema().index_of(array) {
            Some(i) => true,
            None => false,
        }
    }

    /// The segment that holds `array`.
    pub fn segment(&self, array: &str) -> (index: Result<usize>)
        ensures
            match index {
                Ok(i) => segment_holds(self.collection(), array@, i as int),
                Err(e) => {
                    &&& e@ == Error::ArrayNotFound(array@)
                    &&& forall|i: int| !(#[trigger] segment_holds(self.collection(), array@, i))
                },
            },
    {
        proof {
            use_type_invariant(self);
        }
        segment_index(self.footer, array)
    }

    /// The segment that records the layout of an array this dataset declares.
    pub fn layout_source(&self, array: &str) -> (index: Result<usize>)
        ensures
            match index {
                Ok(i) => {
                    &&& declares_array(self.collection(), self.place() as int, array@)
                    &&& segment_holds(self.collection(), array@, i as int)
                },
                Err(e) => {
                    &&& e@ == Error::ArrayNotFound(array@)
                    &&& !declares_array(self.collection(), self.place() as int, array@)
                        || forall|i: int|
                        !(#[trigger] segment_holds(self.collection(), array@, i))
                },
            },
    {
        if !self.declares(array) {
            return Err(Error::ArrayNotFound(array.to_owned()));
        }
        self.segment(array)
    }

    /// The layout of an array, out of what its segment holds under this
    /// dataset's name.
    pub fn array_layout(&self, array: &str, stored: Option<StoredLayout>) -> (layout: Result<
        ArrayLayout,
    >)
        ensures
            match stored {
                Some(s) => layout matches Ok(l) && {
                    &&& l@.shape == extents(s.shape@)
                    &&& l@.chunk_shape == extents(s.chunk_shape@)
                    &&& l@.dimension_names == texts(s.dimension_names@)
                    &&& l@.fill_value == fill_model(s.fill_value)
                },
                None => layout matches Err(e) && e@ == Error::ArrayNotFound(array@),
            },
    {
        match stored {
            Some(s) => Ok(ArrayLayout::from_stored(s)),
            None => Err(Error::ArrayNotFound(array.to_owned())),
        }
    }

    /// Where the dataset-level attributes are. `None` for a dataset that
    /// declares no attribute: the schema already says so, and nothing is read.
    pub fn attributes_source(&self) -> (source: Result<Option<AttributeSource>>)
        ensures
            ({
                let f = self.collection();
                let keys = keys_of(declared_by(f, f.datasets[self.place() as int].1 as int).attrs);
                match source {
                    Ok(None) => keys.len() == 0,
                    Ok(Some(s)) => {
                        &&& keys.len() > 0
                        &&& texts(s.keys@) == keys
                        &&& segment_holds(f, DATASET_ATTRS_VARIABLE@, s.segment as int)
                    },
                    Err(e) => {
                        &&& keys.len() > 0
                        &&& e@ == Error::ArrayNotFound(DATASET_ATTRS_VARIABLE@)
                        &&& forall|i: int|
                            !(#[trigger] segment_holds(f, DATASET_ATTRS_VARIABLE@, i))
                    },
                }
            }),
    {
        let keys = owned(&self.schema().attribute_names());
        assert(texts(keys@).len() == keys@.len());
        if keys.len() == 0 {
            return Ok(None);
        }
        match self.segment(DATASET_ATTRS_VARIABLE) {
            Ok(segment) => Ok(Some(AttributeSource { segment, keys })),
            Err(e) => Err(e),
        }
    }

    /// Where one dataset-level attribute is. `None` for a key this dataset does
    /// not declare: the schema already says so, and nothing is read.
    pub fn attribute_source(&self, key: &str) -> (source: Result<Option<usize>>)
        ensures
            ({
                let f = self.collection();
                let d = declared_by(f, f.datasets[self.place() as int].1 as int);
                match source {
                    Ok(None) => no_key(d.attrs, key@),
                    Ok(Some(i)) => {
                        &&& !no_key(d.attrs, key@)
                        &&& segment_holds(f, DATASET_ATTRS_VARIABLE@, i as int)
                    },
                    Err(e) => {
                        &&& !no_key(d.attrs, key@)
                        &&& e@ == Error::ArrayNotFound(DATASET_ATTRS_VARIABLE@)
                        &&& forall|i: int|
                            !(#[trigger] segment_holds(f, DATASET_ATTRS_VARIABLE@, i))
                    },
                }
            }),
    {
        if self.schema().attribute_dtype(key).is_none() {
            return Ok(None);
        }
        match self.segment(DATASET_ATTRS_VARIABLE) {
            Ok(i) => Ok(Some(i)),
            Err(e) => Err(e),
        }
    }

    /// Where one attribute of one array is. `None` for a name this dataset does
    /// not declare, and for a key the array does not carry.
    pub fn array_attribute_source(&self, array: &str, key: &str) -> (source: Result<Option<usize>>)
        ensures
            ({
                let f = self.collection();
                let d = declared_by(f, f.datasets[self.place() as int].1 as int);
                let carried = exists|i: int| #[trigger]
                    key_at(d.arrays, array@, i) && !no_key(array_model(d, i).attributes, key@);
                match source {
                    Ok(None) => !carried,
                    Ok(Some(i)) => carried && segment_holds(f, array@, i as int),
                    Err(e) => {
                        &&& carried
                        &&& e@ == Error::ArrayNotFound(array@)
                        &&& forall|i: int| !(#[trigger] segment_holds(f, array@, i))
                    },
                }
            }),
    {
        let meta = match self.array_meta(array) {
            Some(meta) => meta,
            None => {
                return Ok(None);
            },
        };
        if meta.attribute_dtype(key).is_none() {
            return Ok(None);
        }
        match self.segment(array) {
            Ok(i) => Ok(Some(i)),
            Err(e) => Err(e),
        }
    }

    /// Where the attributes of one array are. `None` for an array with none,
    /// and for a name this dataset does not declare.
    pub fn array_attributes_source(&self, array: &str) -> (source: Result<Option<AttributeSource>>)
        ensures
            ({
                let f = self.collection();
                let d = declared_by(f, f.datasets[self.place() as int].1 as int);
                match source {
                    Ok(None) => no_key(d.arrays, array@) || exists|i: int| #[trigger]
                        key_at(d.arrays, array@, i) && array_model(d, i).attributes.len() == 0,
                    Ok(Some(s)) => {
                        &&& s.keys@.len() > 0
                        &&& segment_holds(f, array@, s.segment as int)
                        &&& exists|i: int| #[trigger]
                            key_at(d.arrays, array@, i) && texts(s.keys@) == keys_of(
                                array_model(d, i).attributes,
                            )
                    },
                    Err(e) => {
                        &&& e@ == Error::ArrayNotFound(array@)
                        &&& exists|i: int| #[trigger]
                            key_at(d.arrays, array@, i) && array_model(d, i).attributes.len() > 0
                        &&& forall|i: int| !(#[trigger] segment_holds(f, array@, i))
                    },
                }
            }),
    {
        let meta = match self.array_meta(array) {
            Some(meta) => meta,
            None => {
                return Ok(None);
            },
        };
        let keys = owned(&meta.attribute_names());
        assert(texts(keys@).len() == keys@.len());
        if keys.len() == 0 {
            return Ok(None);
        }
        match self.segment(array) {
            Ok(segment) => Ok(Some(AttributeSource { segment, keys })),
            Err(e) => Err(e),
        }
    }

    /// Where the statistics of one array are. `None` for an array this dataset
    /// does not declare.
    pub fn stats_source(&self, array: &str) -> (source: Result<Option<usize>>)
        ensures
            match source {
                Ok(None) => !declares_array(self.collection(), self.place() as int, array@),
                Ok(Some(i)) => {
                    &&& declares_array(self.collection(), self.place() as int, array@)
                    &&& segment_holds(self.collection(), array@, i as int)
                },
                Err(e) => {
                    &&& declares_array(self.collection(), self.place() as int, array@)
                    &&& e@ == Error::ArrayNotFound(array@)
                    &&& forall|i: int| !(#[trigger] segment_holds(self.collection(), array@, i))
                },
            },
    {
        if !self.declares(array) {
            return Ok(None);
        }
        match self.segment(array) {
            Ok(i) => Ok(Some(i)),
            Err(e) => Err(e),
        }
    }

    /// The statistics of one array, out of what its segment holds under this
    /// dataset's name. They carry the name of the array.
    pub fn array_stats(&self, array: &str, recorded: Option<&ArrayStats>) -> (stats: Option<
        ArrayStats,
    >)
        ensures
            match recorded {
                Some(r) => stats matches Some(s) && s@ == (StatsModel { name: array@, ..r@ }),
                None => stats is None,
            },
    {
        match recorded {
            Some(r) => {
                let copy = r.clone();
                Some(
                    ArrayStats {
                        name: array.to_owned(),
                        min: copy.min,
                        max: copy.max,
                        null_count: copy.null_count,
                        row_count: copy.row_count,
                    },
                )
            },
            None => None,
        }
    }

    /// The segment to read `array` from as elements of type `wanted`. The type
    /// must be the one the dataset declares.
    pub fn read_source(&self, array: &str, wanted: &DType) -> (index: Result<usize>)
        ensures
            ({
                let f = self.collection();
                let d = declared_by(f, f.datasets[self.place() as int].1 as int);
                match index {
                    Ok(i) => {
                        &&& exists|k: int| #[trigger]
                            key_at(d.arrays, array@, k) && d.arrays[k].1 == *wanted
                        &&& segment_holds(f, array@, i as int)
                    },
                    Err(e) => {
                        ||| no_key(d.arrays, array@) && e@ == Error::ArrayNotFound(array@)
                        ||| exists|k: int| #[trigger]
                            key_at(d.arrays, array@, k) && d.arrays[k].1 != *wanted && e@
                                == Error::CorruptCollection(
                                type_message(
                                    array@,
                                    f.datasets[self.place() as int].0,
                                    d.arrays[k].1,
                                    *wanted,
                                ),
                            )
                        ||| {
                            &&& exists|k: int| #[trigger]
                                key_at(d.arrays, array@, k) && d.arrays[k].1 == *wanted
                            &&& e@ == Error::ArrayNotFound(array@)
                            &&& forall|i: int| !(#[trigger] segment_holds(f, array@, i))
                        }
                    },
                }
            }),
    {
        let meta = match self.array_meta(array) {
            Some(meta) => meta,
            None => {
                return Err(Error::ArrayNotFound(array.to_owned()));
            },
        };
        let declared = meta.dtype();
        if !declared.same(wanted) {
            let mut text: String = "array '".to_owned();
            text.append(array);
            text.append("' of dataset '");
            text.append(self.name());
            text.append("' is ");
            text.append(declared.show().as_str());
            text.append(", not ");
            text.append(wanted.show().as_str());
            return Err(Error::CorruptCollection(text));
        }
        self.segment(array)
    }
}

impl Atlas {
    /// A view of one dataset.
    pub fn dataset(&self, name: &str) -> (view: Result<DatasetView<'_>>)
        ensures
            match view {
                Ok(v) => {
                    &&& v.collection() == self.declared()
                    &&& ordinal_of(self.declared(), self.hidden(), name@) == Some(v.place())
                    &&& self.declared().datasets[v.place() as int].0 == name@
                },
                Err(e) => {
                    &&& ordinal_of(self.declared(), self.hidden(), name@) is None
                    &&& e@ == Error::DatasetNotFound(name@)
                },
            },
    {
        let footer = self.footer();
        match self.ordinal_of(name) {
            Some(ordinal) => {
                assert(footer@.datasets[crate::table::key_index(footer@.datasets, name@)].0
                    == name@);
                Ok(DatasetView { footer, ordinal })
            },
            None => Err(Error::DatasetNotFound(name.to_owned())),
        }
    }
}

} // verus!
