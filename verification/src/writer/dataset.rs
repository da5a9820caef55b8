//! What one dataset declares while it is written.

use crate::error::{Error, Result};
use crate::format::pool::{typed_annotations, typed_keys, Declared};
use crate::names::{valid_name, validate_name};
use crate::schema::attr::{attr_dtype, Attr, AttrModel};
use crate::schema::dtype::DType;
use crate::schema::view::{annotated, law_an_annotation_reads_back};
use crate::table::{
    has_key, key_index, keys_distinct, law_get_after_set, lemma_key_index, value_of, with_entry,
    Table,
};
use crate::text::same_text;
use vstd::prelude::*;

verus! {

/// The attributes of a list, by key.
pub open spec fn attr_entries(list: Seq<(String, Attr)>) -> Seq<(Seq<char>, AttrModel)> {
    Seq::new(list.len(), |i: int| (list[i].0@, list[i].1@))
}

/// The attributes of each annotated array.
pub open spec fn noted(list: Seq<(u32, Vec<(String, Attr)>)>) -> Seq<
    (u32, Seq<(Seq<char>, AttrModel)>),
> {
    Seq::new(list.len(), |i: int| (list[i].0, attr_entries(list[i].1@)))
}

/// Some array of this position has attributes.
pub open spec fn has_notes<V>(list: Seq<(u32, V)>, position: u32) -> bool {
    exists|i: int| 0 <= i < list.len() && (#[trigger] list[i]).0 == position
}

/// Where the attributes of an array stand.
pub open spec fn notes_index<V>(list: Seq<(u32, V)>, position: u32) -> int {
    choose|i: int| 0 <= i < list.len() && (#[trigger] list[i]).0 == position
}

/// No array stands twice.
pub open spec fn positions_distinct<V>(list: Seq<(u32, V)>) -> bool {
    forall|i: int, j: int|
        0 <= i < j < list.len() ==> (#[trigger] list[i]).0 != (#[trigger] list[j]).0
}

/// The annotations after an attribute of an array was set.
pub open spec fn with_note(
    list: Seq<(u32, Seq<(Seq<char>, AttrModel)>)>,
    position: u32,
    key: Seq<char>,
    value: AttrModel,
) -> Seq<(u32, Seq<(Seq<char>, AttrModel)>)> {
    if has_notes(list, position) {
        let i = notes_index(list, position);
        list.update(i, (position, with_entry(list[i].1, key, value)))
    } else {
        list.push((position, seq![(key, value)]))
    }
}

/// A dataset under construction. It declares arrays and attributes, in order.
///
/// Its number is that of the call that began it. A collection orders its
/// datasets by it, whatever order they finish in.
#[derive(Debug)]
pub struct DatasetWriter {
    name: String,
    number: u64,
    arrays: Table<DType>,
    attrs: Vec<(String, Attr)>,
    array_attrs: Vec<(u32, Vec<(String, Attr)>)>,
}

/// What a dataset under construction holds.
#[verifier::ext_equal]
pub struct DatasetModel {
    /// The name.
    pub name: Seq<char>,
    /// The number of the call that began it.
    pub number: u64,
    /// Array names with their element types, in definition order.
    pub arrays: Seq<(Seq<char>, DType)>,
    /// The attributes of the dataset.
    pub attrs: Seq<(Seq<char>, AttrModel)>,
    /// The attributes of its arrays, by array position.
    pub array_attrs: Seq<(u32, Seq<(Seq<char>, AttrModel)>)>,
}

/// The keys and value types of some attributes.
pub open spec fn keyed(attrs: Seq<(Seq<char>, AttrModel)>) -> Seq<(Seq<char>, DType)> {
    Seq::new(attrs.len(), |i: int| (attrs[i].0, attr_dtype(attrs[i].1)))
}

/// What a dataset declares: names and types, and no values.
pub open spec fn declared(d: DatasetModel) -> Declared {
    Declared {
        arrays: d.arrays,
        attrs: keyed(d.attrs),
        array_attrs: Seq::new(
            d.array_attrs.len(),
            |i: int| (d.array_attrs[i].0, keyed(d.array_attrs[i].1)),
        ),
    }
}

/// A dataset agrees with itself: no array and no attribute stands twice, and
/// every annotated array is one it declares.
pub open spec fn coherent(d: DatasetModel) -> bool {
    &&& keys_distinct(d.arrays)
    &&& d.arrays.len() <= 0x1_0000_0000
    &&& keys_distinct(d.attrs)
    &&& positions_distinct(d.array_attrs)
    &&& forall|i: int|
        0 <= i < d.array_attrs.len() ==> (#[trigger] d.array_attrs[i]).0 < d.arrays.len()
            && keys_distinct(d.array_attrs[i].1)
}

impl View for DatasetWriter {
    type V = DatasetModel;

    closed spec fn view(&self) -> DatasetModel {
        DatasetModel {
            name: self.name@,
            number: self.number,
            arrays: self.arrays@,
            attrs: attr_entries(self.attrs@),
            array_attrs: noted(self.array_attrs@),
        }
    }
}

fn set_entry(list: &mut Vec<(String, Attr)>, key: &str, value: Attr)
    requires
        keys_distinct(attr_entries(old(list)@)),
    ensures
        attr_entries(final(list)@) == with_entry(attr_entries(old(list)@), key@, value@),
        keys_distinct(attr_entries(final(list)@)),
{
    let ghost before = attr_entries(list@);
    let ghost model = value@;
    proof {
        law_get_after_set(before, key@, model, key@);
    }
    let mut i: usize = 0;
    while i < list.len() && !same_text(list[i].0.as_str(), key)
        invariant
            i <= list@.len(),
            before == attr_entries(list@),
            forall|j: int| 0 <= j < i ==> (#[trigger] before[j]).0 != key@,
        ensures
            i <= list@.len(),
            forall|j: int| 0 <= j < i ==> (#[trigger] before[j]).0 != key@,
            i < list@.len() ==> before[i as int].0 == key@,
        decreases list@.len() - i,
    {
        i += 1;
    }
    if i < list.len() {
        proof {
            lemma_key_index(before, i as int);
        }
        let _ = list.remove(i);
        list.insert(i, (key.to_owned(), value));
        assert(attr_entries(list@) =~= before.update(i as int, (key@, model)));
    } else {
        assert(!has_key(before, key@));
        list.push((key.to_owned(), value));
        assert(attr_entries(list@) =~= before.push((key@, model)));
    }
}

impl DatasetWriter {
    #[verifier::type_invariant]
    spec fn inv(self) -> bool {
        coherent(self@)
    }

    /// A dataset that declares nothing yet.
    pub fn new(name: String, number: u64) -> (dataset: Self)
        ensures
            dataset@ == (DatasetModel {
                name: name@,
                number,
                arrays: Seq::empty(),
                attrs: Seq::empty(),
                array_attrs: Seq::empty(),
            }),
    {
        let arrays: Table<DType> = Table::new();
        let attrs: Vec<(String, Attr)> = Vec::new();
        let array_attrs: Vec<(u32, Vec<(String, Attr)>)> = Vec::new();
        assert(attr_entries(attrs@) =~= Seq::empty());
        assert(noted(array_attrs@) =~= Seq::empty());
        DatasetWriter { name, number, arrays, attrs, array_attrs }
    }

    /// The dataset's name.
    pub fn name(&self) -> (name: &str)
        ensures
            name@ == self@.name,
    {
        self.name.as_str()
    }

    /// The number of the call that began the dataset.
    pub fn number(&self) -> (number: u64)
        ensures
            number == self@.number,
    {
        self.number
    }

    /// The arrays, in definition order.
    pub fn list_arrays(&self) -> (names: Vec<String>)
        ensures
            names@.len() == self@.arrays.len(),
            forall|i: int| 0 <= i < names@.len() ==> (#[trigger] names@[i])@ == self@.arrays[i].0,
    {
        let mut names: Vec<String> = Vec::new();
        let count: usize = self.arrays.len();
        let mut i: usize = 0;
        while i < count
            invariant
                count == self.arrays@.len(),
                i <= count,
                names@.len() == i,
                forall|j: int| 0 <= j < i ==> (#[trigger] names@[j])@ == self.arrays@[j].0,
            decreases count - i,
        {
            names.push(self.arrays.name_at(i).to_owned());
            i += 1;
        }
        names
    }

    /// The element type of an array.
    pub fn dtype_of(&self, array: &str) -> (dtype: Result<&DType>)
        ensures
            match dtype {
                Ok(d) => value_of(self@.arrays, array@) == Some(*d),
                Err(e) => value_of(self@.arrays, array@) is None && e@ == Error::ArrayNotFound(
                    array@,
                ),
            },
    {
        match self.arrays.get(array) {
            Some(d) => Ok(d),
            None => Err(Error::ArrayNotFound(array.to_owned())),
        }
    }

    /// Declares an array, and returns the chunk shape it is stored with. That
    /// defaults to the shape, which stores the array as one chunk.
    pub fn define_array(
        &mut self,
        array: &str,
        dtype: DType,
        shape: &Vec<usize>,
        chunk_shape: Option<Vec<usize>>,
    ) -> (chunk: Result<Vec<usize>>)
        requires
            old(self)@.arrays.len() < 0x1_0000_0000,
        ensures
            match chunk {
                Ok(chunk) => {
                    &&& valid_name(array@)
                    &&& !has_key(old(self)@.arrays, array@)
                    &&& chunk@ == match chunk_shape {
                        Some(c) => c@,
                        None => shape@,
                    }
                    &&& final(self)@ == (DatasetModel {
                        arrays: old(self)@.arrays.push((array@, dtype)),
                        ..old(self)@
                    })
                },
                Err(e) => {
                    &&& final(self)@ == old(self)@
                    &&& if valid_name(array@) {
                        has_key(old(self)@.arrays, array@) && e@ == Error::ArrayAlreadyExists(
                            array@,
                        )
                    } else {
                        e@ == Error::InvalidName(array@)
                    }
                },
            },
    {
        match validate_name(array) {
            Ok(()) => {},
            Err(e) => {
                return Err(e);
            },
        }
        if self.arrays.contains(array) {
            return Err(Error::ArrayAlreadyExists(array.to_owned()));
        }
        let chunk: Vec<usize> = match chunk_shape {
            Some(c) => c,
            None => shape.clone(),
        };
        proof {
            use_type_invariant(&*self);
        }
        let ghost before = self@;
        let mut whole = DatasetWriter::new("".to_owned(), 0);
        std::mem::swap(self, &mut whole);
        let DatasetWriter { name, number, mut arrays, attrs, array_attrs } = whole;
        let _ = arrays.insert(array.to_owned(), dtype);
        proof {
            let after = arrays@;
            assert(after == before.arrays.push((array@, dtype)));
        }
        *self = DatasetWriter { name, number, arrays, attrs, array_attrs };
        Ok(chunk)
    }

    /// Sets an attribute of the dataset. A key that is set already keeps its
    /// place.
    pub fn set_attribute(&mut self, key: &str, value: Attr)
        ensures
            final(self)@ == (DatasetModel {
                attrs: with_entry(old(self)@.attrs, key@, value@),
                ..old(self)@
            }),
    {
        proof {
            use_type_invariant(&*self);
        }
        let mut whole = DatasetWriter::new("".to_owned(), 0);
        std::mem::swap(self, &mut whole);
        let DatasetWriter { name, number, arrays, mut attrs, array_attrs } = whole;
        set_entry(&mut attrs, key, value);
        *self = DatasetWriter { name, number, arrays, attrs, array_attrs };
    }

    /// Sets an attribute of an array that is declared already.
    pub fn set_array_attribute(&mut self, array: &str, key: &str, value: Attr) -> (set: Result<()>)
        ensures
            match set {
                Ok(()) => {
                    &&& has_key(old(self)@.arrays, array@)
                    &&& final(self)@ == (DatasetModel {
                        array_attrs: with_note(
                            old(self)@.array_attrs,
                            key_index(old(self)@.arrays, array@) as u32,
                            key@,
                            value@,
                        ),
                        ..old(self)@
                    })
                },
                Err(e) => {
                    &&& !has_key(old(self)@.arrays, array@)
                    &&& e@ == Error::ArrayNotFound(array@)
                    &&& final(self)@ == old(self)@
                },
            },
    {
        proof {
            use_type_invariant(&*self);
        }
        let position: u32 = match self.arrays.position(array) {
            Some(i) => i as u32,
            None => {
                return Err(Error::ArrayNotFound(array.to_owned()));
            },
        };
        let ghost model = value@;
        let mut whole = DatasetWriter::new("".to_owned(), 0);
        std::mem::swap(self, &mut whole);
        let DatasetWriter { name, number, arrays, attrs, mut array_attrs } = whole;
        let ghost notes = noted(array_attrs@);
        let mut i: usize = 0;
        while i < array_attrs.len() && array_attrs[i].0 != position
            invariant
                i <= array_attrs@.len(),
                notes == noted(array_attrs@),
                forall|j: int| 0 <= j < i ==> (#[trigger] notes[j]).0 != position,
            ensures
                i <= array_attrs@.len(),
                forall|j: int| 0 <= j < i ==> (#[trigger] notes[j]).0 != position,
                i < array_attrs@.len() ==> notes[i as int].0 == position,
            decreases array_attrs@.len() - i,
        {
            i += 1;
        }
        if i < array_attrs.len() {
            assert(notes[i as int] == (
                array_attrs@[i as int].0,
                attr_entries(array_attrs@[i as int].1@),
            ));
            assert(notes[i as int].0 == position);
            assert(has_notes(notes, position));
            assert(notes_index(notes, position) == i) by {
                let k = notes_index(notes, position);
                assert(0 <= k < notes.len() && notes[k].0 == position);
            }
            let (_, mut list): (u32, Vec<(String, Attr)>) = array_attrs.remove(i);
            set_entry(&mut list, key, value);
            array_attrs.insert(i, (position, list));
            assert(noted(array_attrs@) =~= with_note(notes, position, key@, model));
        } else {
            assert(!has_notes(notes, position));
            let mut list: Vec<(String, Attr)> = Vec::new();
            list.push((key.to_owned(), value));
            assert(attr_entries(list@) =~= seq![(key@, model)]);
            array_attrs.push((position, list));
            assert(noted(array_attrs@) =~= with_note(notes, position, key@, model));
        }
        *self = DatasetWriter { name, number, arrays, attrs, array_attrs };
        Ok(())
    }

    /// Takes the dataset apart, for the collection that commits it.
    pub(super) fn into_parts(self) -> (parts: (
        u64,
        Table<DType>,
        Vec<(String, Attr)>,
        Vec<(u32, Vec<(String, Attr)>)>,
    ))
        ensures
            parts.0 == self@.number,
            coherent(self@),
            parts.1@ == declared(self@).arrays,
            typed_keys(parts.2@) == declared(self@).attrs,
            parts.2@.len() == self@.attrs.len(),
            typed_annotations(parts.3@) == declared(self@).array_attrs,
    {
        proof {
            use_type_invariant(&self);
            let d = declared(self@);
            assert(typed_keys(self.attrs@) =~= d.attrs);
            assert forall|i: int| 0 <= i < self.array_attrs@.len() implies typed_annotations(
                self.array_attrs@,
            )[i] == #[trigger] d.array_attrs[i] by {
                assert(typed_keys(self.array_attrs@[i].1@) =~= keyed(
                    attr_entries(self.array_attrs@[i].1@),
                ));
            }
            assert(typed_annotations(self.array_attrs@) =~= d.array_attrs);
        }
        (self.number, self.arrays, self.attrs, self.array_attrs)
    }
}

/// An attribute that is set reads back as it was set, and setting it leaves
/// every other attribute alone.
pub proof fn law_set_attributes_read_back(
    d: DatasetModel,
    key: Seq<char>,
    value: AttrModel,
    other: Seq<char>,
)
    requires
        coherent(d),
    ensures
        ({
            let after = DatasetModel { attrs: with_entry(d.attrs, key, value), ..d };
            &&& coherent(after)
            &&& value_of(after.attrs, key) == Some(value)
            &&& other != key ==> value_of(after.attrs, other) == value_of(d.attrs, other)
        }),
{
    law_get_after_set(d.attrs, key, value, other);
}

/// An attribute of an array that is set reads back as it was set, at that array.
/// Every other attribute of it, and every attribute of another array, stays.
pub proof fn law_set_array_attributes_read_back(
    d: DatasetModel,
    position: u32,
    key: Seq<char>,
    value: AttrModel,
    other_position: u32,
    other_key: Seq<char>,
)
    requires
        coherent(d),
        position < d.arrays.len(),
    ensures
        ({
            let after = DatasetModel {
                array_attrs: with_note(d.array_attrs, position, key, value),
                ..d
            };
            &&& coherent(after)
            &&& value_of(annotated(after.array_attrs, position as int), key) == Some(value)
            &&& (other_position, other_key) != (position, key) ==> value_of(
                annotated(after.array_attrs, other_position as int),
                other_key,
            ) == value_of(annotated(d.array_attrs, other_position as int), other_key)
        }),
{
    let list = d.array_attrs;
    let after = with_note(list, position, key, value);
    let at = if has_notes(list, position) {
        notes_index(list, position)
    } else {
        list.len() as int
    };
    if has_notes(list, position) {
        assert(list[at].0 == position);
        law_get_after_set(list[at].1, key, value, other_key);
    } else {
        let empty = Seq::<(Seq<char>, AttrModel)>::empty();
        assert(with_entry(empty, key, value) =~= seq![(key, value)]);
        law_get_after_set(empty, key, value, other_key);
    }
    assert forall|i: int, j: int| 0 <= i < j < after.len() implies (#[trigger] after[i]).0 != (
    #[trigger] after[j]).0 by {
        if j < list.len() {
            assert(list[i].0 != list[j].0);
        } else {
            assert(list[i].0 != position);
        }
    }
    law_an_annotation_reads_back(list, position as int);
    law_an_annotation_reads_back(after, position as int);
    assert(after[at].0 == position);
    law_an_annotation_reads_back(list, other_position as int);
    law_an_annotation_reads_back(after, other_position as int);
    if other_position != position {
        if has_notes(list, other_position) {
            let k = notes_index(list, other_position);
            assert(list[k].0 == other_position);
            assert(after[k].0 == other_position);
        } else {
            assert forall|k: int| 0 <= k < after.len() implies (#[trigger] after[k]).0
                != other_position by {
                if k < list.len() {
                    assert(list[k].0 != other_position);
                }
            }
        }
    }
    if !has_notes(list, position) {
        assert(annotated(list, position as int) =~= Seq::<(Seq<char>, AttrModel)>::empty());
    }
}

/// A dataset declares its arrays as they were defined, and every attribute under
/// its key with the type of its value: those of the dataset, and those of each
/// array, all in order.
pub proof fn law_declarations_have_the_types_of_the_values(
    d: DatasetModel,
    position: u32,
    i: int,
)
    requires
        coherent(d),
    ensures
        declared(d).arrays == d.arrays,
        declared(d).attrs.len() == d.attrs.len(),
        0 <= i < d.attrs.len() ==> declared(d).attrs[i].0 == d.attrs[i].0 && declared(d).attrs[i].1
            == attr_dtype(d.attrs[i].1),
        ({
            let notes = annotated(d.array_attrs, position as int);
            let types = annotated(declared(d).array_attrs, position as int);
            &&& types.len() == notes.len()
            &&& 0 <= i < notes.len() ==> types[i].0 == notes[i].0 && types[i].1 == attr_dtype(
                notes[i].1,
            )
        }),
{
    let list = d.array_attrs;
    let types = declared(d).array_attrs;
    assert forall|a: int, b: int| 0 <= a < b < types.len() implies (#[trigger] types[a]).0 != (
    #[trigger] types[b]).0 by {
        assert(list[a].0 != list[b].0);
    }
    law_an_annotation_reads_back(list, position as int);
    law_an_annotation_reads_back(types, position as int);
    if has_notes(list, position) {
        let k = notes_index(list, position);
        assert(list[k].0 == position);
        assert(types[k].0 == position);
    } else {
        assert forall|k: int| 0 <= k < types.len() implies (#[trigger] types[k]).0 != position by {
            assert(list[k].0 != position);
        }
    }
}

} // verus!
