//! Borrowed views over an interned schema.
//!
//! The footer stores a schema as pairs of positions in its string and type
//! pools. A view resolves them on demand, so to inspect a schema copies no
//! name.
//!
//! A schema names things. It says which arrays a dataset declares and what
//! type each holds, and the same for its attributes. It says nothing about
//! shape or chunking.

use crate::format::footer::{
    attrs_resolve, consistent, declared_by, pools_of, schema_resolves, CollectionFooter,
};
use crate::format::pool::{resolved, Declared, InternedSchema};
use crate::schema::dtype::DType;
use crate::schema::DatasetSchema;
use crate::table::{table_of, Table};
use crate::text::same_text;
use vstd::prelude::*;

verus! {

/// The attributes of the array at a position, in the order somebody set them.
pub open spec fn annotated<T>(list: Seq<(u32, Seq<T>)>, position: int) -> Seq<T>
    decreases list.len(),
{
    if list.len() == 0 {
        Seq::empty()
    } else if list.last().0 == position {
        annotated(list.drop_last(), position) + list.last().1
    } else {
        annotated(list.drop_last(), position)
    }
}

/// The keys of some attributes.
pub open spec fn keys_of<V>(pairs: Seq<(Seq<char>, V)>) -> Seq<Seq<char>> {
    Seq::new(pairs.len(), |i: int| pairs[i].0)
}

/// The characters of some borrowed texts.
pub open spec fn borrowed(list: Seq<&str>) -> Seq<Seq<char>> {
    Seq::new(list.len(), |i: int| list[i]@)
}

/// What some borrowed names and types are.
pub open spec fn borrowed_pairs(list: Seq<(&str, &DType)>) -> Seq<(Seq<char>, DType)> {
    Seq::new(list.len(), |i: int| (list[i].0@, *list[i].1))
}

/// `i` is the first position of a key.
pub open spec fn key_at<V>(pairs: Seq<(Seq<char>, V)>, key: Seq<char>, i: int) -> bool {
    &&& 0 <= i < pairs.len()
    &&& pairs[i].0 == key
    &&& forall|j: int| 0 <= j < i ==> (#[trigger] pairs[j]).0 != key
}

/// No pair has the key.
pub open spec fn no_key<V>(pairs: Seq<(Seq<char>, V)>, key: Seq<char>) -> bool {
    forall|j: int| 0 <= j < pairs.len() ==> (#[trigger] pairs[j]).0 != key
}

/// What one dataset declares: its arrays and its attribute keys, with types.
///
/// Datasets that declare the same things share one interned schema.
#[derive(Clone, Copy)]
pub struct SchemaView<'a> {
    footer: &'a CollectionFooter,
    index: u32,
}

impl<'a> View for SchemaView<'a> {
    type V = Declared;

    closed spec fn view(&self) -> Declared {
        declared_by(self.footer@, self.index as int)
    }
}

/// Names and types of some pool pairs, borrowed from the footer.
fn borrow_pairs<'a>(footer: &'a CollectionFooter, pairs: &Vec<(u32, u32)>) -> (list: Vec<
    (&'a str, &'a DType),
>)
    requires
        attrs_resolve(footer@, pairs@),
    ensures
        borrowed_pairs(list@) == resolved(pools_of(footer@), pairs@),
{
    let mut list: Vec<(&'a str, &'a DType)> = Vec::new();
    let mut i: usize = 0;
    while i < pairs.len()
        invariant
            i <= pairs@.len(),
            attrs_resolve(footer@, pairs@),
            list@.len() == i,
            forall|j: int|
                0 <= j < i ==> ((#[trigger] list@[j]).0@, *list@[j].1) == resolved(
                    pools_of(footer@),
                    pairs@,
                )[j],
        decreases pairs@.len() - i,
    {
        assert(pairs@[i as int].0 < footer@.strings.len());
        list.push(
            (
                footer.string_pool[pairs[i].0 as usize].as_str(),
                &footer.dtype_pool[pairs[i].1 as usize],
            ),
        );
        i += 1;
    }
    assert(borrowed_pairs(list@) =~= resolved(pools_of(footer@), pairs@));
    list
}

impl<'a> SchemaView<'a> {
    #[verifier::type_invariant]
    spec fn resolves(self) -> bool {
        &&& consistent(self.footer@)
        &&& self.index < self.footer@.schemas.len()
        &&& schema_resolves(self.footer@, self.index as int)
    }

    /// The view of a schema of a footer that was checked.
    pub fn new(footer: &'a CollectionFooter, index: u32) -> (view: Self)
        requires
            consistent(footer@),
            index < footer@.schemas.len(),
        ensures
            view@ == declared_by(footer@, index as int),
    {
        assert(schema_resolves(footer@, index as int));
        SchemaView { footer, index }
    }

    fn schema(&self) -> (schema: &'a InternedSchema)
        ensures
            schema@ == self.footer@.schemas[self.index as int],
            schema_resolves(self.footer@, self.index as int),
            attrs_resolve(self.footer@, schema.arrays@),
            attrs_resolve(self.footer@, schema.attrs@),
    {
        proof {
            use_type_invariant(self);
        }
        let schema = self.footer.schema_of(self.index);
        proof {
            assert forall|k: int| 0 <= k < schema.arrays@.len() implies (
            #[trigger] schema.arrays@[k]).0 < self.footer@.strings.len() && schema.arrays@[k].1
                < self.footer@.dtypes.len() by {
                assert(schema@.arrays[k].0 < self.footer@.strings.len());
            }
        }
        schema
    }

    /// How many arrays the dataset declares.
    pub fn len(&self) -> (n: usize)
        ensures
            n == self@.arrays.len(),
    {
        self.schema().arrays.len()
    }

    /// Whether the dataset declares no array.
    pub fn is_empty(&self) -> (empty: bool)
        ensures
            empty == (self@.arrays.len() == 0),
    {
        self.schema().arrays.len() == 0
    }

    /// Every array, in definition order.
    pub fn iter(&self) -> (list: Vec<ArrayMeta<'a>>)
        ensures
            list@.len() == self@.arrays.len(),
            forall|i: int|
                0 <= i < list@.len() ==> (#[trigger] list@[i])@ == array_model(self@, i),
    {
        let count: usize = self.len();
        let mut list: Vec<ArrayMeta<'a>> = Vec::new();
        let mut i: usize = 0;
        while i < count
            invariant
                count == self@.arrays.len(),
                i <= count,
                list@.len() == i,
                forall|j: int| 0 <= j < i ==> (#[trigger] list@[j])@ == array_model(self@, j),
            decreases count - i,
        {
            list.push(ArrayMeta { view: *self, position: i });
            i += 1;
        }
        list
    }

    /// Array names, in definition order.
    pub fn names(&self) -> (list: Vec<&'a str>)
        ensures
            borrowed(list@) == keys_of(self@.arrays),
    {
        let pairs = borrow_pairs(self.footer, &self.schema().arrays);
        first_of(&pairs)
    }

    /// Position of `array` in definition order. `None` if the dataset does
    /// not declare it.
    pub fn index_of(&self, array: &str) -> (found: Option<usize>)
        ensures
            match found {
                Some(i) => key_at(self@.arrays, array@, i as int),
                None => no_key(self@.arrays, array@),
            },
    {
        let schema = self.schema();
        let mut i: usize = 0;
        while i < schema.arrays.len()
            invariant
                i <= schema.arrays@.len(),
                attrs_resolve(self.footer@, schema.arrays@),
                self@.arrays == resolved(pools_of(self.footer@), schema.arrays@),
                forall|j: int| 0 <= j < i ==> (#[trigger] self@.arrays[j]).0 != array@,
            decreases schema.arrays@.len() - i,
        {
            assert(schema.arrays@[i as int].0 < self.footer@.strings.len());
            let name = self.footer.string_pool[schema.arrays[i].0 as usize].as_str();
            assert(self@.arrays[i as int].0 == name@);
            if same_text(name, array) {
                return Some(i);
            }
            i += 1;
        }
        None
    }

    /// One array by name. `None` if the dataset does not declare it.
    pub fn get(&self, array: &str) -> (meta: Option<ArrayMeta<'a>>)
        ensures
            match meta {
                Some(m) => exists|i: int| #[trigger]
                    key_at(self@.arrays, array@, i) && m@ == array_model(self@, i),
                None => no_key(self@.arrays, array@),
            },
    {
        match self.index_of(array) {
            Some(i) => {
                assert(key_at(self@.arrays, array@, i as int));
                self.get_index(i)
            },
            None => None,
        }
    }

    /// The array at `position` in definition order.
    pub fn get_index(&self, position: usize) -> (meta: Option<ArrayMeta<'a>>)
        ensures
            match meta {
                Some(m) => position < self@.arrays.len() && m@ == array_model(
                    self@,
                    position as int,
                ),
                None => position >= self@.arrays.len(),
            },
    {
        if position < self.len() {
            Some(ArrayMeta { view: *self, position })
        } else {
            None
        }
    }

    /// Dataset-level attribute keys, in the order somebody set them.
    pub fn attribute_names(&self) -> (list: Vec<&'a str>)
        ensures
            borrowed(list@) == keys_of(self@.attrs),
    {
        first_of(&self.attribute_pairs())
    }

    /// This dataset's attribute keys with their declared types.
    pub fn attribute_pairs(&self) -> (list: Vec<(&'a str, &'a DType)>)
        ensures
            borrowed_pairs(list@) == self@.attrs,
    {
        borrow_pairs(self.footer, &self.schema().attrs)
    }

    /// The type of one dataset-level attribute. `None` for a key this dataset
    /// does not carry.
    pub fn attribute_dtype(&self, key: &str) -> (d: Option<&'a DType>)
        ensures
            match d {
                Some(d) => exists|i: int| #[trigger]
                    key_at(self@.attrs, key@, i) && self@.attrs[i].1 == *d,
                None => no_key(self@.attrs, key@),
            },
    {
        let pairs = self.attribute_pairs();
        find_type(&pairs, key)
    }

    /// An owned copy, with every name resolved.
    pub fn to_owned_schema(&self) -> (schema: DatasetSchema)
        ensures
            schema.arrays@ == table_of(self@.arrays),
            schema.attributes@ == table_of(self@.attrs),
            crate::schema::nested(schema.array_attributes@) == table_of(annotated_arrays(self@)),
    {
        let arrays = collect_pairs(&borrow_pairs(self.footer, &self.schema().arrays));
        let attributes = collect_pairs(&self.attribute_pairs());
        let mut array_attributes: Table<Table<DType>> = Table::new();
        let count: usize = self.len();
        let mut i: usize = 0;
        assert(crate::schema::nested(array_attributes@) =~= Seq::empty());
        while i < count
            invariant
                count == self@.arrays.len(),
                i <= count,
                crate::schema::nested(array_attributes@) == table_of(
                    annotated_below(self@, i as int),
                ),
            decreases count - i,
        {
            let meta = ArrayMeta { view: *self, position: i };
            let pairs = meta.attribute_pairs();
            assert(borrowed_pairs(pairs@).len() == pairs@.len());
            if pairs.len() > 0 {
                let ghost before = array_attributes@;
                let ghost list = annotated_below(self@, i as int);
                let keyed = collect_pairs(&pairs);
                let name = meta.name();
                array_attributes.insert(name.to_owned(), keyed);
                proof {
                    crate::schema::lemma_nested_with_entry(before, name@, keyed);
                    assert(annotated_below(self@, i + 1).drop_last() =~= list);
                }
            }
            i += 1;
        }
        DatasetSchema { arrays, attributes, array_attributes }
    }

    /// Whether two datasets declare the same things, in the same order: arrays
    /// with their types and attributes, and attribute keys with their types.
    pub fn same(&self, other: &SchemaView<'_>) -> (same: bool)
        ensures
            same == same_declared(self@, other@),
    {
        let mine = self.iter();
        let theirs = other.iter();
        if mine.len() != theirs.len() {
            return false;
        }
        let mut i: usize = 0;
        while i < mine.len()
            invariant
                i <= mine@.len(),
                mine@.len() == theirs@.len(),
                mine@.len() == self@.arrays.len(),
                theirs@.len() == other@.arrays.len(),
                forall|j: int|
                    0 <= j < mine@.len() ==> (#[trigger] mine@[j])@ == array_model(self@, j),
                forall|j: int|
                    0 <= j < theirs@.len() ==> (#[trigger] theirs@[j])@ == array_model(other@, j),
                forall|j: int|
                    0 <= j < i ==> #[trigger] array_model(self@, j) == array_model(other@, j),
            decreases mine@.len() - i,
        {
            let a = mine[i];
            let b = theirs[i];
            if !same_text(a.name(), b.name()) || !a.dtype().same(b.dtype()) || !same_pairs(
                &a.attribute_pairs(),
                &b.attribute_pairs(),
            ) {
                assert(array_model(self@, i as int) != array_model(other@, i as int));
                return false;
            }
            i += 1;
        }
        same_pairs(&self.attribute_pairs(), &other.attribute_pairs())
    }
}

/// Whether two schemas declare the same arrays, with their types and their
/// attributes, and the same attribute keys with their types.
pub open spec fn same_declared(a: Declared, b: Declared) -> bool {
    &&& a.arrays.len() == b.arrays.len()
    &&& forall|i: int|
        0 <= i < a.arrays.len() ==> #[trigger] array_model(a, i) == array_model(b, i)
    &&& a.attrs == b.attrs
}

/// The annotated arrays among the first `n`, with their attributes.
pub open spec fn annotated_below(d: Declared, n: int) -> Seq<
    (Seq<char>, Seq<(Seq<char>, DType)>),
>
    decreases n,
{
    if n <= 0 {
        Seq::empty()
    } else {
        let attributes = annotated(d.array_attrs, n - 1);
        if attributes.len() == 0 {
            annotated_below(d, n - 1)
        } else {
            annotated_below(d, n - 1).push((d.arrays[n - 1].0, table_of(attributes)))
        }
    }
}

/// The arrays somebody annotated, with their attributes.
pub open spec fn annotated_arrays(d: Declared) -> Seq<(Seq<char>, Seq<(Seq<char>, DType)>)> {
    annotated_below(d, d.arrays.len() as int)
}

fn first_of<'a>(pairs: &Vec<(&'a str, &'a DType)>) -> (names: Vec<&'a str>)
    ensures
        borrowed(names@) == keys_of(borrowed_pairs(pairs@)),
{
    let mut names: Vec<&'a str> = Vec::new();
    let mut i: usize = 0;
    while i < pairs.len()
        invariant
            i <= pairs@.len(),
            names@.len() == i,
            forall|j: int| 0 <= j < i ==> (#[trigger] names@[j])@ == pairs@[j].0@,
        decreases pairs@.len() - i,
    {
        names.push(pairs[i].0);
        i += 1;
    }
    assert(borrowed(names@) =~= keys_of(borrowed_pairs(pairs@)));
    names
}

fn find_type<'a>(pairs: &Vec<(&'a str, &'a DType)>, key: &str) -> (d: Option<&'a DType>)
    ensures
        match d {
            Some(d) => exists|i: int| #[trigger]
                key_at(borrowed_pairs(pairs@), key@, i) && borrowed_pairs(pairs@)[i].1 == *d,
            None => no_key(borrowed_pairs(pairs@), key@),
        },
{
    let ghost all = borrowed_pairs(pairs@);
    let mut i: usize = 0;
    while i < pairs.len()
        invariant
            i <= pairs@.len(),
            all == borrowed_pairs(pairs@),
            forall|j: int| 0 <= j < i ==> (#[trigger] all[j]).0 != key@,
        decreases pairs@.len() - i,
    {
        if same_text(pairs[i].0, key) {
            assert(key_at(all, key@, i as int));
            return Some(pairs[i].1);
        }
        i += 1;
    }
    None
}

fn same_borrowed(a: &Vec<&str>, b: &Vec<&str>) -> (same: bool)
    ensures
        same == (borrowed(a@) == borrowed(b@)),
{
    if a.len() != b.len() {
        assert(borrowed(a@).len() != borrowed(b@).len());
        return false;
    }
    let mut i: usize = 0;
    while i < a.len()
        invariant
            i <= a@.len(),
            a@.len() == b@.len(),
            forall|j: int| 0 <= j < i ==> (#[trigger] a@[j])@ == b@[j]@,
        decreases a@.len() - i,
    {
        if !same_text(a[i], b[i]) {
            assert(borrowed(a@)[i as int] != borrowed(b@)[i as int]);
            return false;
        }
        i += 1;
    }
    assert(borrowed(a@) =~= borrowed(b@));
    true
}

fn same_pairs(a: &Vec<(&str, &DType)>, b: &Vec<(&str, &DType)>) -> (same: bool)
    ensures
        same == (borrowed_pairs(a@) == borrowed_pairs(b@)),
{
    if a.len() != b.len() {
        assert(borrowed_pairs(a@).len() != borrowed_pairs(b@).len());
        return false;
    }
    let mut i: usize = 0;
    while i < a.len()
        invariant
            i <= a@.len(),
            a@.len() == b@.len(),
            forall|j: int|
                0 <= j < i ==> (#[trigger] a@[j]).0@ == b@[j].0@ && *a@[j].1 == *b@[j].1,
        decreases a@.len() - i,
    {
        if !same_text(a[i].0, b[i].0) || !a[i].1.same(b[i].1) {
            assert(borrowed_pairs(a@)[i as int] != borrowed_pairs(b@)[i as int]);
            return false;
        }
        i += 1;
    }
    assert(borrowed_pairs(a@) =~= borrowed_pairs(b@));
    true
}

fn collect_pairs(pairs: &Vec<(&str, &DType)>) -> (table: Table<DType>)
    ensures
        table@ == table_of(borrowed_pairs(pairs@)),
{
    let ghost all = borrowed_pairs(pairs@);
    let mut table: Table<DType> = Table::new();
    let mut i: usize = 0;
    assert(all.take(0) =~= Seq::empty());
    while i < pairs.len()
        invariant
            i <= pairs@.len(),
            all == borrowed_pairs(pairs@),
            table@ == table_of(all.take(i as int)),
        decreases pairs@.len() - i,
    {
        table.insert(pairs[i].0.to_owned(), pairs[i].1.clone());
        assert(all.take(i + 1).drop_last() =~= all.take(i as int));
        i += 1;
    }
    assert(all.take(i as int) =~= all);
    table
}

/// One named array, as its dataset declares it: a name, an element type, and
/// the attribute keys with their types.
#[derive(Clone, Copy)]
pub struct ArrayMeta<'a> {
    view: SchemaView<'a>,
    position: usize,
}

/// What a declared array is.
pub struct ArrayModel {
    /// Its name.
    pub name: Seq<char>,
    /// Its element type.
    pub dtype: DType,
    /// Its place in the dataset's definition order.
    pub position: int,
    /// Its attribute keys with their types.
    pub attributes: Seq<(Seq<char>, DType)>,
}

/// The array at a position of what a dataset declares.
pub open spec fn array_model(d: Declared, i: int) -> ArrayModel {
    ArrayModel {
        name: d.arrays[i].0,
        dtype: d.arrays[i].1,
        position: i,
        attributes: annotated(d.array_attrs, i),
    }
}

/// Two arrays are the same when the name, the type, and the attribute keys are.
pub open spec fn same_array(a: ArrayModel, b: ArrayModel) -> bool {
    a.name == b.name && a.dtype == b.dtype && keys_of(a.attributes) == keys_of(b.attributes)
}

impl<'a> View for ArrayMeta<'a> {
    type V = ArrayModel;

    closed spec fn view(&self) -> ArrayModel {
        array_model(self.view@, self.position as int)
    }
}

impl<'a> ArrayMeta<'a> {
    #[verifier::type_invariant]
    spec fn declared(self) -> bool {
        self.position < self.view@.arrays.len()
    }

    /// The array's name.
    pub fn name(&self) -> (name: &'a str)
        ensures
            name@ == self@.name,
    {
        proof {
            use_type_invariant(self);
        }
        let schema = self.view.schema();
        assert(schema.arrays@[self.position as int].0 < self.view.footer@.strings.len());
        self.view.footer.string_pool[schema.arrays[self.position].0 as usize].as_str()
    }

    /// Element type.
    pub fn dtype(&self) -> (d: &'a DType)
        ensures
            *d == self@.dtype,
    {
        proof {
            use_type_invariant(self);
        }
        let schema = self.view.schema();
        assert(schema.arrays@[self.position as int].0 < self.view.footer@.strings.len());
        &self.view.footer.dtype_pool[schema.arrays[self.position].1 as usize]
    }

    /// Position in the dataset's definition order.
    pub fn position(&self) -> (position: usize)
        ensures
            position == self@.position,
    {
        self.position
    }

    /// This array's attribute keys, in the order somebody set them.
    pub fn attribute_names(&self) -> (list: Vec<&'a str>)
        ensures
            borrowed(list@) == keys_of(self@.attributes),
    {
        first_of(&self.attribute_pairs())
    }

    /// The type of one of this array's attributes. `None` for a key it does
    /// not carry.
    pub fn attribute_dtype(&self, key: &str) -> (d: Option<&'a DType>)
        ensures
            match d {
                Some(d) => exists|i: int| #[trigger]
                    key_at(self@.attributes, key@, i) && self@.attributes[i].1 == *d,
                None => no_key(self@.attributes, key@),
            },
    {
        let pairs = self.attribute_pairs();
        find_type(&pairs, key)
    }

    /// This array's attribute keys with their declared types.
    pub fn attribute_pairs(&self) -> (list: Vec<(&'a str, &'a DType)>)
        ensures
            borrowed_pairs(list@) == self@.attributes,
    {
        let footer = self.view.footer;
        let schema = self.view.schema();
        let ghost all = self.view@.array_attrs;
        let mut list: Vec<(&'a str, &'a DType)> = Vec::new();
        let mut i: usize = 0;
        assert(borrowed_pairs(list@) =~= Seq::empty());
        assert(all.take(0) =~= Seq::empty());
        while i < schema.array_attrs.len()
            invariant
                i <= schema.array_attrs@.len(),
                footer == self.view.footer,
                schema@ == footer@.schemas[self.view.index as int],
                schema_resolves(footer@, self.view.index as int),
                all == self.view@.array_attrs,
                borrowed_pairs(list@) == annotated(all.take(i as int), self.position as int),
            decreases schema.array_attrs@.len() - i,
        {
            let ghost before = borrowed_pairs(list@);
            proof {
                assert(schema@.array_attrs[i as int] == (
                    schema.array_attrs@[i as int].0,
                    schema.array_attrs@[i as int].1@,
                ));
                assert(attrs_resolve(footer@, schema.array_attrs@[i as int].1@));
                assert(all.take(i + 1).drop_last() =~= all.take(i as int));
                assert(all.take(i + 1).last() == all[i as int]);
            }
            if schema.array_attrs[i].0 as usize == self.position {
                let mut more = borrow_pairs(footer, &schema.array_attrs[i].1);
                let ghost added = borrowed_pairs(more@);
                list.append(&mut more);
                assert(borrowed_pairs(list@) =~= before + added);
            }
            i += 1;
        }
        assert(all.take(i as int) =~= all);
        list
    }

    /// Whether two arrays have the same name, type, and attribute keys.
    pub fn same(&self, other: &ArrayMeta<'_>) -> (same: bool)
        ensures
            same == same_array(self@, other@),
    {
        same_text(self.name(), other.name()) && self.dtype().same(other.dtype()) && same_borrowed(
            &self.attribute_names(),
            &other.attribute_names(),
        )
    }
}

/// An attribute is among those of the array at a position exactly where that
/// very position is annotated with it. What annotates another array does not
/// show.
pub proof fn law_annotations_belong_to_their_own_array<T>(
    list: Seq<(u32, Seq<T>)>,
    position: int,
    item: T,
)
    ensures
        annotated(list, position).contains(item) <==> exists|k: int|
            0 <= k < list.len() && (#[trigger] list[k]).0 == position && list[k].1.contains(item),
    decreases list.len(),
{
    if list.len() > 0 {
        let front = list.drop_last();
        let last = list.last();
        let before = annotated(front, position);
        let all = annotated(list, position);
        law_annotations_belong_to_their_own_array(front, position, item);
        if all.contains(item) {
            let i = choose|i: int| 0 <= i < all.len() && all[i] == item;
            if i < before.len() {
                assert(before[i] == item);
                let k = choose|k: int|
                    0 <= k < front.len() && (#[trigger] front[k]).0 == position
                        && front[k].1.contains(item);
                assert(list[k] == front[k]);
            } else {
                assert(last.1[i - before.len()] == item);
                assert(list[list.len() - 1].1.contains(item));
            }
        }
        if exists|k: int|
            0 <= k < list.len() && (#[trigger] list[k]).0 == position && list[k].1.contains(item) {
            let k = choose|k: int|
                0 <= k < list.len() && (#[trigger] list[k]).0 == position && list[k].1.contains(
                    item,
                );
            if k < front.len() {
                assert(front[k] == list[k]);
                let i = choose|i: int| 0 <= i < before.len() && before[i] == item;
                assert(all[i] == item);
            } else {
                let i = choose|i: int| 0 <= i < last.1.len() && last.1[i] == item;
                assert(all[before.len() + i] == item);
            }
        }
    }
}

/// An array that is annotated once has the attributes of that annotation, in
/// order. One that is not annotated has none.
pub proof fn law_an_annotation_reads_back<T>(list: Seq<(u32, Seq<T>)>, position: int)
    requires
        forall|i: int, j: int|
            0 <= i < j < list.len() ==> (#[trigger] list[i]).0 != (#[trigger] list[j]).0,
    ensures
        forall|k: int|
            0 <= k < list.len() && (#[trigger] list[k]).0 == position ==> annotated(list, position)
                == list[k].1,
        (forall|k: int| 0 <= k < list.len() ==> (#[trigger] list[k]).0 != position) ==> annotated(
            list,
            position,
        ).len() == 0,
    decreases list.len(),
{
    if list.len() > 0 {
        let front = list.drop_last();
        assert forall|i: int, j: int| 0 <= i < j < front.len() implies (#[trigger] front[i]).0 != (
        #[trigger] front[j]).0 by {
            assert(list[i].0 != list[j].0);
        }
        law_an_annotation_reads_back(front, position);
        assert forall|k: int| 0 <= k < list.len() && (#[trigger] list[k]).0 == position implies
            annotated(list, position) == list[k].1 by {
            if k < front.len() {
                assert(front[k] == list[k]);
                assert(list[k].0 != list[list.len() - 1].0);
            } else {
                assert forall|i: int| 0 <= i < front.len() implies (#[trigger] front[i]).0
                    != position by {
                    assert(list[i].0 != list[k].0);
                }
                assert(annotated(list, position) =~= list[k].1);
            }
        }
        if forall|k: int| 0 <= k < list.len() ==> (#[trigger] list[k]).0 != position {
            assert(list[list.len() - 1].0 != position);
            assert forall|k: int| 0 <= k < front.len() implies (#[trigger] front[k]).0
                != position by {
                assert(list[k].0 != position);
            }
        }
    }
}

/// The annotated arrays of a schema stand in the order the arrays are defined
/// in, each with its own attributes. Those without attributes are left out.
pub proof fn law_annotated_arrays_keep_their_order(d: Declared)
    ensures
        annotated_arrays(d) == Seq::new(
            d.arrays.len(),
            |i: int| (d.arrays[i].0, table_of(annotated(d.array_attrs, i))),
        ).filter(|e: (Seq<char>, Seq<(Seq<char>, DType)>)| e.1.len() > 0),
{
    lemma_annotated_below(d, d.arrays.len());
}

proof fn lemma_table_is_empty<V>(pairs: Seq<(Seq<char>, V)>)
    ensures
        table_of(pairs).len() == 0 <==> pairs.len() == 0,
{
}

proof fn lemma_annotated_below(d: Declared, n: nat)
    ensures
        annotated_below(d, n as int) == Seq::new(
            n,
            |i: int| (d.arrays[i].0, table_of(annotated(d.array_attrs, i))),
        ).filter(|e: (Seq<char>, Seq<(Seq<char>, DType)>)| e.1.len() > 0),
    decreases n,
{
    reveal(Seq::filter);
    let entry = |i: int| (d.arrays[i].0, table_of(annotated(d.array_attrs, i)));
    let all = Seq::new(n, entry);
    if n > 0 {
        let m = (n - 1) as nat;
        lemma_annotated_below(d, m);
        lemma_table_is_empty(annotated(d.array_attrs, n - 1));
        assert(all.drop_last() =~= Seq::new(m, entry));
        assert(all.last() == entry(n - 1));
    }
}

/// An array is the one its dataset declares at its place, with the attributes
/// that annotate that place.
pub proof fn law_an_array_is_the_one_at_its_place(d: Declared, i: int)
    ensures
        (array_model(d, i).name, array_model(d, i).dtype) == d.arrays[i],
        array_model(d, i).attributes == annotated(d.array_attrs, i),
        array_model(d, i).position == i,
{
}

/// Two schemas are the same exactly where they declare the same arrays and
/// attributes in the same order, and annotate each array alike.
pub proof fn law_same_schemas_declare_alike(a: Declared, b: Declared)
    ensures
        same_declared(a, b) <==> {
            &&& a.arrays == b.arrays
            &&& a.attrs == b.attrs
            &&& forall|i: int|
                0 <= i < a.arrays.len() ==> #[trigger] annotated(a.array_attrs, i) == annotated(
                    b.array_attrs,
                    i,
                )
        },
{
    if same_declared(a, b) {
        assert forall|i: int| 0 <= i < a.arrays.len() implies a.arrays[i] == b.arrays[i] && (
        #[trigger] annotated(a.array_attrs, i)) == annotated(b.array_attrs, i) by {
            assert(array_model(a, i) == array_model(b, i));
        }
        assert forall|i: int| 0 <= i < a.arrays.len() implies a.arrays[i] == b.arrays[i] by {
            assert(array_model(a, i) == array_model(b, i));
        }
        assert(a.arrays =~= b.arrays);
    }
}

/// Two arrays are the same exactly where they have one name and one type, and
/// their attributes have the same keys in the same order.
pub proof fn law_same_arrays_are_alike(a: ArrayModel, b: ArrayModel)
    ensures
        same_array(a, b) <==> {
            &&& a.name == b.name
            &&& a.dtype == b.dtype
            &&& a.attributes.len() == b.attributes.len()
            &&& forall|i: int|
                0 <= i < a.attributes.len() ==> (#[trigger] a.attributes[i]).0
                    == b.attributes[i].0
        },
{
    let (x, y) = (keys_of(a.attributes), keys_of(b.attributes));
    if x == y {
        assert(x.len() == a.attributes.len() && y.len() == b.attributes.len());
        assert forall|i: int| 0 <= i < a.attributes.len() implies (#[trigger] a.attributes[i]).0
            == b.attributes[i].0 by {
            assert(x[i] == a.attributes[i].0 && y[i] == b.attributes[i].0);
        }
    }
    if a.attributes.len() == b.attributes.len() && forall|i: int|
        0 <= i < a.attributes.len() ==> (#[trigger] a.attributes[i]).0 == b.attributes[i].0 {
        assert(x =~= y);
    }
}

/// A key is found at its first place, and not at all exactly where it does not
/// occur.
pub proof fn law_keys_are_found_at_their_first_place<V>(
    pairs: Seq<(Seq<char>, V)>,
    key: Seq<char>,
    i: int,
    j: int,
)
    ensures
        key_at(pairs, key, i) ==> 0 <= i < pairs.len() && pairs[i].0 == key,
        key_at(pairs, key, i) && 0 <= j < i ==> pairs[j].0 != key,
        no_key(pairs, key) ==> !key_at(pairs, key, i),
        no_key(pairs, key) && 0 <= j < pairs.len() ==> pairs[j].0 != key,
        (forall|k: int| 0 <= k < pairs.len() ==> (#[trigger] pairs[k]).0 != key) ==> no_key(
            pairs,
            key,
        ),
{
}

} // verus!
