//! What a whole collection declares.
//!
//! `SchemaView` answers for one dataset. A collection holds many, and they
//! need not agree on a name. This module merges them, so one call answers what
//! the container holds.

use crate::format::footer::{
    attrs_resolve, consistent, declared_by, pools_of, schema_resolves, CollectionFooter,
    FooterModel,
};
use crate::format::pool::{law_interning, pooled, resolved, Declared};
use crate::schema::dtype::DType;
use crate::table::{
    has_key, key_index, keys_distinct, law_get_after_set, lemma_key_index, value_of, with_entry,
    Table,
};
use vstd::prelude::*;

verus! {

/// Names with the types each takes.
pub type Types = Seq<(Seq<char>, Seq<DType>)>;

/// The entries of a table of lists.
pub open spec fn typed(entries: Seq<(Seq<char>, Vec<DType>)>) -> Types {
    Seq::new(entries.len(), |i: int| (entries[i].0, entries[i].1@))
}

/// The types of a name.
pub open spec fn types_of(entries: Types, name: Seq<char>) -> Seq<DType> {
    match value_of(entries, name) {
        Some(types) => types,
        None => Seq::empty(),
    }
}

/// The entries once a type is recorded under a name. A type the name already
/// has is dropped, and a new one goes to the end.
pub open spec fn recorded(entries: Types, name: Seq<char>, dtype: DType) -> Types {
    with_entry(entries, name, pooled(types_of(entries, name), dtype))
}

/// The entries once some names and types are recorded, in order.
pub open spec fn all_recorded(entries: Types, pairs: Seq<(Seq<char>, DType)>) -> Types
    decreases pairs.len(),
{
    if pairs.len() == 0 {
        entries
    } else {
        recorded(all_recorded(entries, pairs.drop_last()), pairs.last().0, pairs.last().1)
    }
}

/// The array types of the first `n` schemas of a footer.
pub open spec fn array_types(f: FooterModel, n: int) -> Types
    decreases n,
{
    if n <= 0 {
        Seq::empty()
    } else {
        all_recorded(array_types(f, n - 1), declared_by(f, n - 1).arrays)
    }
}

/// The attribute types of the first `n` schemas of a footer.
pub open spec fn attribute_types(f: FooterModel, n: int) -> Types
    decreases n,
{
    if n <= 0 {
        Seq::empty()
    } else {
        all_recorded(attribute_types(f, n - 1), declared_by(f, n - 1).attrs)
    }
}

/// The array attributes once those of some arrays of a schema are recorded. An
/// array without attributes gets no entry.
pub open spec fn notes_recorded(
    entries: Seq<(Seq<char>, Types)>,
    d: Declared,
    list: Seq<(u32, Seq<(Seq<char>, DType)>)>,
) -> Seq<(Seq<char>, Types)>
    decreases list.len(),
{
    if list.len() == 0 {
        entries
    } else {
        let before = notes_recorded(entries, d, list.drop_last());
        if list.last().1.len() == 0 {
            before
        } else {
            let name = d.arrays[list.last().0 as int].0;
            let keyed = match value_of(before, name) {
                Some(types) => types,
                None => Seq::empty(),
            };
            with_entry(before, name, all_recorded(keyed, list.last().1))
        }
    }
}

/// The array attribute types of the first `n` schemas of a footer.
pub open spec fn array_attribute_types(f: FooterModel, n: int) -> Seq<(Seq<char>, Types)>
    decreases n,
{
    if n <= 0 {
        Seq::empty()
    } else {
        let d = declared_by(f, n - 1);
        notes_recorded(array_attribute_types(f, n - 1), d, d.array_attrs)
    }
}

/// The entries of a table of tables of lists.
pub open spec fn typed_nested(entries: Seq<(Seq<char>, Table<Vec<DType>>)>) -> Seq<
    (Seq<char>, Types),
> {
    Seq::new(entries.len(), |i: int| (entries[i].0, typed(entries[i].1@)))
}

proof fn lemma_notes_are_not_empty(
    entries: Seq<(Seq<char>, Types)>,
    d: Declared,
    list: Seq<(u32, Seq<(Seq<char>, DType)>)>,
)
    requires
        forall|i: int| 0 <= i < entries.len() ==> (#[trigger] entries[i]).1.len() > 0,
    ensures
        forall|i: int|
            0 <= i < notes_recorded(entries, d, list).len() ==> (#[trigger] notes_recorded(
                entries,
                d,
                list,
            )[i]).1.len() > 0,
    decreases list.len(),
{
    if list.len() > 0 {
        lemma_notes_are_not_empty(entries, d, list.drop_last());
        let pairs = list.last().1;
        if pairs.len() > 0 {
            let before = notes_recorded(entries, d, list.drop_last());
            let name = d.arrays[list.last().0 as int].0;
            let keyed = match value_of(before, name) {
                Some(types) => types,
                None => Seq::empty(),
            };
            let more = all_recorded(keyed, pairs);
            assert(more == recorded(
                all_recorded(keyed, pairs.drop_last()),
                pairs.last().0,
                pairs.last().1,
            ));
            assert(more.len() > 0);
        }
    }
}

/// An array nobody annotated has no entry among the array attributes: every
/// entry holds a key.
pub proof fn law_only_annotated_arrays_have_an_entry(f: FooterModel, n: int)
    ensures
        forall|i: int|
            0 <= i < array_attribute_types(f, n).len() ==> (#[trigger] array_attribute_types(
                f,
                n,
            )[i]).1.len() > 0,
    decreases n,
{
    if n > 0 {
        law_only_annotated_arrays_have_an_entry(f, n - 1);
        let d = declared_by(f, n - 1);
        lemma_notes_are_not_empty(array_attribute_types(f, n - 1), d, d.array_attrs);
    }
}

/// Recording keeps every type that was there, and adds the one it was asked to.
pub proof fn law_recorded_types(
    entries: Types,
    pairs: Seq<(Seq<char>, DType)>,
    name: Seq<char>,
    dtype: DType,
)
    requires
        keys_distinct(entries),
    ensures
        keys_distinct(all_recorded(entries, pairs)),
        types_of(all_recorded(entries, pairs), name).contains(dtype) <==> (types_of(
            entries,
            name,
        ).contains(dtype) || pairs.contains((name, dtype))),
        types_of(entries, name).no_duplicates() ==> types_of(
            all_recorded(entries, pairs),
            name,
        ).no_duplicates(),
    decreases pairs.len(),
{
    if pairs.len() > 0 {
        let front = pairs.drop_last();
        let (key, d) = pairs.last();
        let before = all_recorded(entries, front);
        law_recorded_types(entries, front, name, dtype);
        let old_types = types_of(before, key);
        law_get_after_set(before, key, pooled(old_types, d), name);
        law_interning(old_types, d, d);
        assert(pairs =~= front.push((key, d)));
        if name == key {
            let new_types = pooled(old_types, d);
            if old_types.contains(dtype) {
                let i = choose|i: int| 0 <= i < old_types.len() && old_types[i] == dtype;
                assert(new_types[i] == dtype);
            }
            if new_types.contains(dtype) && dtype != d {
                let i = choose|i: int| 0 <= i < new_types.len() && new_types[i] == dtype;
                assert(old_types[i] == dtype);
            }
            if dtype == d {
                assert(new_types.contains(d));
                assert(pairs.last() == (name, dtype));
            }
        }
        if front.contains((name, dtype)) {
            let i = choose|i: int| 0 <= i < front.len() && front[i] == (name, dtype);
            assert(pairs[i] == (name, dtype));
        }
        if pairs.contains((name, dtype)) && (name, dtype) != pairs.last() {
            let i = choose|i: int| 0 <= i < pairs.len() && pairs[i] == (name, dtype);
            assert(front[i] == (name, dtype));
        }
    }
}

/// A collection's array types are just those its schemas declare, each once.
pub proof fn law_array_types(f: FooterModel, n: int, name: Seq<char>, dtype: DType)
    requires
        0 <= n <= f.schemas.len(),
    ensures
        keys_distinct(array_types(f, n)),
        types_of(array_types(f, n), name).no_duplicates(),
        types_of(array_types(f, n), name).contains(dtype) <==> exists|i: int|
            0 <= i < n && (#[trigger] declared_by(f, i)).arrays.contains((name, dtype)),
    decreases n,
{
    if n > 0 {
        law_array_types(f, n - 1, name, dtype);
        law_recorded_types(array_types(f, n - 1), declared_by(f, n - 1).arrays, name, dtype);
        if exists|i: int|
            0 <= i < n && (#[trigger] declared_by(f, i)).arrays.contains((name, dtype)) {
            let i = choose|i: int|
                0 <= i < n && (#[trigger] declared_by(f, i)).arrays.contains((name, dtype));
            if i < n - 1 {
                assert(0 <= i < n - 1 && declared_by(f, i).arrays.contains((name, dtype)));
            }
        }
    }
}

/// A collection's attribute types are just those its schemas declare, each
/// once.
pub proof fn law_attribute_types(f: FooterModel, n: int, name: Seq<char>, dtype: DType)
    requires
        0 <= n <= f.schemas.len(),
    ensures
        keys_distinct(attribute_types(f, n)),
        types_of(attribute_types(f, n), name).no_duplicates(),
        types_of(attribute_types(f, n), name).contains(dtype) <==> exists|i: int|
            0 <= i < n && (#[trigger] declared_by(f, i)).attrs.contains((name, dtype)),
    decreases n,
{
    if n > 0 {
        law_attribute_types(f, n - 1, name, dtype);
        law_recorded_types(attribute_types(f, n - 1), declared_by(f, n - 1).attrs, name, dtype);
        if exists|i: int|
            0 <= i < n && (#[trigger] declared_by(f, i)).attrs.contains((name, dtype)) {
            let i = choose|i: int|
                0 <= i < n && (#[trigger] declared_by(f, i)).attrs.contains((name, dtype));
            if i < n - 1 {
                assert(0 <= i < n - 1 && declared_by(f, i).attrs.contains((name, dtype)));
            }
        }
    }
}

proof fn lemma_typed_with_entry(
    entries: Seq<(Seq<char>, Vec<DType>)>,
    key: Seq<char>,
    value: Vec<DType>,
)
    requires
        keys_distinct(entries),
    ensures
        typed(with_entry(entries, key, value)) == with_entry(typed(entries), key, value@),
{
    let inner = typed(entries);
    if has_key(entries, key) {
        let i = key_index(entries, key);
        assert(inner[i].0 == key);
        assert(keys_distinct(inner));
        lemma_key_index(inner, i);
        lemma_key_index(entries, i);
    } else if has_key(inner, key) {
        let i = key_index(inner, key);
        assert(entries[i].0 == key);
    }
    assert(typed(with_entry(entries, key, value)) =~= with_entry(inner, key, value@));
}

proof fn lemma_typed_value(entries: Seq<(Seq<char>, Vec<DType>)>, key: Seq<char>)
    requires
        keys_distinct(entries),
    ensures
        value_of(entries, key) matches Some(v) ==> value_of(typed(entries), key) == Some(v@),
        value_of(entries, key) is None ==> value_of(typed(entries), key) is None,
{
    let inner = typed(entries);
    if has_key(entries, key) {
        let i = key_index(entries, key);
        assert(inner[i].0 == key);
        assert(keys_distinct(inner));
        lemma_key_index(inner, i);
    } else if has_key(inner, key) {
        let i = key_index(inner, key);
        assert(entries[i].0 == key);
    }
}

proof fn lemma_nested_with_entry(
    entries: Seq<(Seq<char>, Table<Vec<DType>>)>,
    key: Seq<char>,
    value: Table<Vec<DType>>,
)
    requires
        keys_distinct(entries),
    ensures
        typed_nested(with_entry(entries, key, value)) == with_entry(
            typed_nested(entries),
            key,
            typed(value@),
        ),
{
    let inner = typed_nested(entries);
    if has_key(entries, key) {
        let i = key_index(entries, key);
        assert(inner[i].0 == key);
        assert(keys_distinct(inner));
        lemma_key_index(inner, i);
        lemma_key_index(entries, i);
    } else if has_key(inner, key) {
        let i = key_index(inner, key);
        assert(entries[i].0 == key);
    }
    assert(typed_nested(with_entry(entries, key, value)) =~= with_entry(
        inner,
        key,
        typed(value@),
    ));
}

proof fn lemma_nested_value(entries: Seq<(Seq<char>, Table<Vec<DType>>)>, key: Seq<char>)
    requires
        keys_distinct(entries),
    ensures
        value_of(entries, key) matches Some(v) ==> value_of(typed_nested(entries), key) == Some(
            typed(v@),
        ),
        value_of(entries, key) is None ==> value_of(typed_nested(entries), key) is None,
{
    let inner = typed_nested(entries);
    if has_key(entries, key) {
        let i = key_index(entries, key);
        assert(inner[i].0 == key);
        assert(keys_distinct(inner));
        lemma_key_index(inner, i);
    } else if has_key(inner, key) {
        let i = key_index(inner, key);
        assert(entries[i].0 == key);
    }
}

fn holds(types: &Vec<DType>, dtype: &DType) -> (found: bool)
    ensures
        found == types@.contains(*dtype),
{
    let mut i: usize = 0;
    while i < types.len()
        invariant
            i <= types@.len(),
            forall|j: int| 0 <= j < i ==> types@[j] != *dtype,
        decreases types@.len() - i,
    {
        if types[i].same(dtype) {
            assert(types@[i as int] == *dtype);
            return true;
        }
        i += 1;
    }
    false
}

fn record(table: &mut Table<Vec<DType>>, name: &str, dtype: &DType)
    ensures
        typed(final(table)@) == recorded(typed(old(table)@), name@, *dtype),
{
    let ghost before = table@;
    match table.position(name) {
        Some(i) => {
            proof {
                lemma_typed_value(before, name@);
            }
            let mut types: Vec<DType> = table.replace_at(i, Vec::new());
            if !holds(&types, dtype) {
                types.push(dtype.clone());
            }
            table.replace_at(i, types);
            proof {
                lemma_typed_with_entry(before, name@, types);
                assert(table@ =~= with_entry(before, name@, types));
            }
        },
        None => {
            proof {
                lemma_typed_value(before, name@);
            }
            let mut types: Vec<DType> = Vec::new();
            types.push(dtype.clone());
            table.insert(name.to_owned(), types);
            proof {
                lemma_typed_with_entry(before, name@, types);
                assert(types@ =~= pooled(Seq::empty(), *dtype));
            }
        },
    }
}

fn record_all(table: &mut Table<Vec<DType>>, footer: &CollectionFooter, pairs: &Vec<(u32, u32)>)
    requires
        attrs_resolve(footer@, pairs@),
    ensures
        typed(final(table)@) == all_recorded(
            typed(old(table)@),
            resolved(pools_of(footer@), pairs@),
        ),
{
    let ghost before = typed(table@);
    let ghost all = resolved(pools_of(footer@), pairs@);
    let mut i: usize = 0;
    assert(all.take(0) =~= Seq::empty());
    while i < pairs.len()
        invariant
            i <= pairs@.len(),
            attrs_resolve(footer@, pairs@),
            all == resolved(pools_of(footer@), pairs@),
            typed(table@) == all_recorded(before, all.take(i as int)),
        decreases pairs@.len() - i,
    {
        assert(pairs@[i as int].0 < footer@.strings.len());
        record(
            table,
            footer.string_pool[pairs[i].0 as usize].as_str(),
            &footer.dtype_pool[pairs[i].1 as usize],
        );
        assert(all.take(i + 1).drop_last() =~= all.take(i as int));
        i += 1;
    }
    assert(all.take(i as int) =~= all);
}

fn record_notes(
    table: &mut Table<Table<Vec<DType>>>,
    footer: &CollectionFooter,
    name: &str,
    pairs: &Vec<(u32, u32)>,
)
    requires
        attrs_resolve(footer@, pairs@),
    ensures
        ({
            let before = typed_nested(old(table)@);
            let keyed = match value_of(before, name@) {
                Some(types) => types,
                None => Seq::empty(),
            };
            typed_nested(final(table)@) == with_entry(
                before,
                name@,
                all_recorded(keyed, resolved(pools_of(footer@), pairs@)),
            )
        }),
{
    let ghost before = table@;
    match table.position(name) {
        Some(i) => {
            proof {
                lemma_nested_value(before, name@);
            }
            let mut keyed: Table<Vec<DType>> = table.replace_at(i, Table::new());
            record_all(&mut keyed, footer, pairs);
            table.replace_at(i, keyed);
            proof {
                lemma_nested_with_entry(before, name@, keyed);
                assert(table@ =~= with_entry(before, name@, keyed));
            }
        },
        None => {
            proof {
                lemma_nested_value(before, name@);
            }
            let mut keyed: Table<Vec<DType>> = Table::new();
            assert(typed(keyed@) =~= Seq::empty());
            record_all(&mut keyed, footer, pairs);
            table.insert(name.to_owned(), keyed);
            proof {
                lemma_nested_with_entry(before, name@, keyed);
            }
        },
    }
}

/// Every name a collection declares, with every type it takes.
///
/// It reports every dataset in the container. The deletion mask hides none of
/// them.
#[derive(Debug)]
pub struct CollectionSchema {
    /// Array name to the element types it has.
    pub arrays: Table<Vec<DType>>,
    /// Dataset-level attribute key to the value types it has.
    pub attributes: Table<Vec<DType>>,
    /// Array name to that array's attribute keys, each with its value types.
    /// An array nobody annotated has no entry.
    pub array_attributes: Table<Table<Vec<DType>>>,
}

fn all_types(table: &Table<Vec<DType>>, name: &str) -> (types: Vec<DType>)
    ensures
        types@ == types_of(typed(table@), name@),
{
    let count: usize = table.len();
    proof {
        lemma_typed_value(table@, name@);
    }
    let mut out: Vec<DType> = Vec::new();
    match table.get(name) {
        Some(types) => {
            let mut i: usize = 0;
            while i < types.len()
                invariant
                    i <= types@.len(),
                    out@ == types@.take(i as int),
                decreases types@.len() - i,
            {
                out.push(types[i].clone());
                i += 1;
                assert(out@ =~= types@.take(i as int));
            }
            assert(types@.take(i as int) =~= types@);
        },
        None => {
            assert(out@ =~= Seq::<DType>::empty());
        },
    }
    out
}

impl CollectionSchema {
    /// Merges every schema in the footer's pool.
    ///
    /// The walk covers the pool, not the datasets. Datasets that declare the
    /// same things share one entry, so ten thousand files of one convention
    /// cost one pass over one schema.
    pub fn new(footer: &CollectionFooter) -> (schema: Self)
        requires
            consistent(footer@),
        ensures
            typed(schema.arrays@) == array_types(footer@, footer@.schemas.len() as int),
            typed(schema.attributes@) == attribute_types(footer@, footer@.schemas.len() as int),
            typed_nested(schema.array_attributes@) == array_attribute_types(
                footer@,
                footer@.schemas.len() as int,
            ),
    {
        let mut arrays: Table<Vec<DType>> = Table::new();
        let mut attributes: Table<Vec<DType>> = Table::new();
        let mut array_attributes: Table<Table<Vec<DType>>> = Table::new();
        assert(typed(arrays@) =~= Seq::empty());
        assert(typed(attributes@) =~= Seq::empty());
        assert(typed_nested(array_attributes@) =~= Seq::empty());
        let mut i: usize = 0;
        while i < footer.schema_pool.len()
            invariant
                i <= footer.schema_pool@.len(),
                consistent(footer@),
                typed(arrays@) == array_types(footer@, i as int),
                typed(attributes@) == attribute_types(footer@, i as int),
                typed_nested(array_attributes@) == array_attribute_types(footer@, i as int),
            decreases footer.schema_pool@.len() - i,
        {
            let schema = &footer.schema_pool[i];
            let ghost d = declared_by(footer@, i as int);
            proof {
                assert(footer@.schemas[i as int] == schema@);
                assert(schema_resolves(footer@, i as int));
                assert forall|k: int| 0 <= k < schema.arrays@.len() implies (
                #[trigger] schema.arrays@[k]).0 < footer@.strings.len() && schema.arrays@[k].1
                    < footer@.dtypes.len() by {
                    assert(schema@.arrays[k].0 < footer@.strings.len());
                }
            }
            record_all(&mut arrays, footer, &schema.arrays);
            record_all(&mut attributes, footer, &schema.attrs);
            let ghost start = typed_nested(array_attributes@);
            let mut k: usize = 0;
            assert(d.array_attrs.take(0) =~= Seq::empty());
            while k < schema.array_attrs.len()
                invariant
                    k <= schema.array_attrs@.len(),
                    i < footer.schema_pool@.len(),
                    footer@.schemas[i as int] == schema@,
                    schema_resolves(footer@, i as int),
                    d == declared_by(footer@, i as int),
                    typed_nested(array_attributes@) == notes_recorded(
                        start,
                        d,
                        d.array_attrs.take(k as int),
                    ),
                decreases schema.array_attrs@.len() - k,
            {
                proof {
                    assert(schema@.array_attrs[k as int] == (
                        schema.array_attrs@[k as int].0,
                        schema.array_attrs@[k as int].1@,
                    ));
                    assert(attrs_resolve(footer@, schema.array_attrs@[k as int].1@));
                    assert(d.array_attrs.take(k + 1).drop_last() =~= d.array_attrs.take(k as int));
                    assert(d.array_attrs.take(k + 1).last() == d.array_attrs[k as int]);
                }
                let position: usize = schema.array_attrs[k].0 as usize;
                assert(schema@.arrays[position as int].0 < footer@.strings.len());
                let name: u32 = schema.arrays[position].0;
                if schema.array_attrs[k].1.len() > 0 {
                    record_notes(
                        &mut array_attributes,
                        footer,
                        footer.string_pool[name as usize].as_str(),
                        &schema.array_attrs[k].1,
                    );
                }
                k += 1;
            }
            assert(d.array_attrs.take(k as int) =~= d.array_attrs);
            i += 1;
        }
        CollectionSchema { arrays, attributes, array_attributes }
    }

    /// The types of one array, over every dataset that declares it. Empty for
    /// a name the collection does not hold.
    pub fn array_dtypes(&self, array: &str) -> (types: Vec<DType>)
        ensures
            types@ == types_of(typed(self.arrays@), array@),
    {
        all_types(&self.arrays, array)
    }

    /// The types of one dataset-level attribute. Empty for a key no dataset
    /// carries.
    pub fn attribute_dtypes(&self, key: &str) -> (types: Vec<DType>)
        ensures
            types@ == types_of(typed(self.attributes@), key@),
    {
        all_types(&self.attributes, key)
    }

    /// The types of one array's attribute. Empty for a pair no dataset
    /// carries.
    pub fn array_attribute_dtypes(&self, array: &str, key: &str) -> (types: Vec<DType>)
        ensures
            match value_of(typed_nested(self.array_attributes@), array@) {
                Some(keyed) => types@ == types_of(keyed, key@),
                None => types@.len() == 0,
            },
    {
        let count: usize = self.array_attributes.len();
        proof {
            lemma_nested_value(self.array_attributes@, array@);
        }
        match self.array_attributes.get(array) {
            Some(keyed) => all_types(keyed, key),
            None => Vec::new(),
        }
    }
}

impl CollectionFooter {
    /// Everything the collection declares, over all its datasets.
    pub fn collection_schema(&self) -> (schema: CollectionSchema)
        requires
            consistent(self@),
        ensures
            typed(schema.arrays@) == array_types(self@, self@.schemas.len() as int),
            typed(schema.attributes@) == attribute_types(self@, self@.schemas.len() as int),
            typed_nested(schema.array_attributes@) == array_attribute_types(
                self@,
                self@.schemas.len() as int,
            ),
    {
        CollectionSchema::new(self)
    }
}

/// The types a collection has for a key of an array.
pub open spec fn note_types(
    entries: Seq<(Seq<char>, Types)>,
    array: Seq<char>,
    key: Seq<char>,
) -> Seq<DType> {
    match value_of(entries, array) {
        Some(types) => types_of(types, key),
        None => Seq::empty(),
    }
}

/// The tables of an array attribute table have distinct names at both levels.
spec fn distinct_notes(entries: Seq<(Seq<char>, Types)>) -> bool {
    &&& keys_distinct(entries)
    &&& forall|i: int| 0 <= i < entries.len() ==> keys_distinct((#[trigger] entries[i]).1)
}

proof fn lemma_notes_recorded(
    entries: Seq<(Seq<char>, Types)>,
    d: Declared,
    list: Seq<(u32, Seq<(Seq<char>, DType)>)>,
    array: Seq<char>,
    key: Seq<char>,
    dtype: DType,
)
    requires
        distinct_notes(entries),
    ensures
        distinct_notes(notes_recorded(entries, d, list)),
        note_types(notes_recorded(entries, d, list), array, key).contains(dtype) <==> {
            ||| note_types(entries, array, key).contains(dtype)
            ||| exists|k: int|
                0 <= k < list.len() && d.arrays[(#[trigger] list[k]).0 as int].0 == array
                    && list[k].1.contains((key, dtype))
        },
        note_types(entries, array, key).no_duplicates() ==> note_types(
            notes_recorded(entries, d, list),
            array,
            key,
        ).no_duplicates(),
    decreases list.len(),
{
    if list.len() > 0 {
        let front = list.drop_last();
        let last = list.last();
        lemma_notes_recorded(entries, d, front, array, key, dtype);
        let before = notes_recorded(entries, d, front);
        let after = notes_recorded(entries, d, list);
        if last.1.len() > 0 {
            let name = d.arrays[last.0 as int].0;
            let keyed = match value_of(before, name) {
                Some(types) => types,
                None => Seq::empty(),
            };
            if has_key(before, name) {
                assert(before[key_index(before, name)].0 == name);
            }
            assert(keys_distinct(keyed));
            law_recorded_types(keyed, last.1, key, dtype);
            law_get_after_set(before, name, all_recorded(keyed, last.1), array);
            assert(distinct_notes(after));
            if array == name && !has_key(before, name) {
                assert(types_of(keyed, key) =~= Seq::empty());
            }
        } else {
            assert(!last.1.contains((key, dtype)));
        }
        if exists|k: int|
            0 <= k < list.len() && d.arrays[(#[trigger] list[k]).0 as int].0 == array
                && list[k].1.contains((key, dtype)) {
            let k = choose|k: int|
                0 <= k < list.len() && d.arrays[(#[trigger] list[k]).0 as int].0 == array
                    && list[k].1.contains((key, dtype));
            if k < front.len() {
                assert(front[k] == list[k]);
            }
        }
        if exists|k: int|
            0 <= k < front.len() && d.arrays[(#[trigger] front[k]).0 as int].0 == array
                && front[k].1.contains((key, dtype)) {
            let k = choose|k: int|
                0 <= k < front.len() && d.arrays[(#[trigger] front[k]).0 as int].0 == array
                    && front[k].1.contains((key, dtype));
            assert(list[k] == front[k]);
        }
        assert(list[list.len() - 1] == last);
    }
}

/// A collection's array attribute types are just those with which its schemas
/// annotate an array of that name under that key, each once.
pub proof fn law_array_attribute_types(
    f: FooterModel,
    n: int,
    array: Seq<char>,
    key: Seq<char>,
    dtype: DType,
)
    requires
        0 <= n <= f.schemas.len(),
    ensures
        keys_distinct(array_attribute_types(f, n)),
        note_types(array_attribute_types(f, n), array, key).no_duplicates(),
        note_types(array_attribute_types(f, n), array, key).contains(dtype) <==> exists|
            i: int,
            k: int,
        |
            {
                &&& 0 <= i < n
                &&& 0 <= k < declared_by(f, i).array_attrs.len()
                &&& declared_by(f, i).arrays[(#[trigger] declared_by(f, i).array_attrs[k]).0
                    as int].0 == array
                &&& declared_by(f, i).array_attrs[k].1.contains((key, dtype))
            },
{
    lemma_array_attribute_types(f, n, array, key, dtype);
}

proof fn lemma_array_attribute_types(
    f: FooterModel,
    n: int,
    array: Seq<char>,
    key: Seq<char>,
    dtype: DType,
)
    requires
        0 <= n,
    ensures
        distinct_notes(array_attribute_types(f, n)),
        note_types(array_attribute_types(f, n), array, key).no_duplicates(),
        note_types(array_attribute_types(f, n), array, key).contains(dtype) <==> exists|
            i: int,
            k: int,
        |
            {
                &&& 0 <= i < n
                &&& 0 <= k < declared_by(f, i).array_attrs.len()
                &&& declared_by(f, i).arrays[(#[trigger] declared_by(f, i).array_attrs[k]).0
                    as int].0 == array
                &&& declared_by(f, i).array_attrs[k].1.contains((key, dtype))
            },
    decreases n,
{
    if n > 0 {
        lemma_array_attribute_types(f, n - 1, array, key, dtype);
        let d = declared_by(f, n - 1);
        lemma_notes_recorded(
            array_attribute_types(f, n - 1),
            d,
            d.array_attrs,
            array,
            key,
            dtype,
        );
    }
}

} // verus!
