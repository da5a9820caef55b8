//! A collection under construction, and the footer it finishes with.

use super::dataset::{coherent, declared, DatasetModel, DatasetWriter};
use crate::config::{Codec, WriterConfig};
use crate::error::{Error, Result};
use crate::format::footer::{
    consistent, declared_by, has_segment, law_accepted_footers_are_the_consistent_ones, pools_of,
    schema_resolves, CollectionFooter, FooterModel, VariableEntry,
};
use crate::format::pool::{
    declared_ids, declared_in, extends, grown, inside,
    law_interned_schema_stands_for_its_declarations, law_interning, lemma_inside_grown, nameable, place, pooled, resolved, with_declared, Declared, Interner,
    Pools, SchemaModel,
};
use crate::format::{DATASET_ATTRS_VARIABLE, FORMAT_VERSION, HEADER_SIZE};
use crate::names::{valid_name, validate_name};
use crate::reader::{opened, ordinal_of};
use crate::table::{has_key, key_index, keys_distinct, lemma_key_index, with_entry, Table};
use vstd::prelude::*;

verus! {

/// Every position a schema holds is inside the pools, and every array it
/// annotates is one it declares.
pub open spec fn schema_inside(p: Pools, s: SchemaModel) -> bool {
    &&& inside(p, s.arrays)
    &&& inside(p, s.attrs)
    &&& forall|k: int|
        0 <= k < s.array_attrs.len() ==> (#[trigger] s.array_attrs[k]).0 < s.arrays.len() && inside(
            p,
            s.array_attrs[k].1,
        )
}

/// A list of numbered declarations with one more, by increasing number.
pub open spec fn inserted(
    list: Seq<(u64, Declared)>,
    number: u64,
    d: Declared,
) -> Seq<(u64, Declared)>
    decreases list.len(),
{
    if list.len() == 0 || list.last().0 < number {
        list.push((number, d))
    } else {
        inserted(list.drop_last(), number, d).push(list.last())
    }
}

/// The variables once a dataset is committed: those of its arrays, and the
/// reserved one where it has attributes of its own.
pub open spec fn with_variables(variables: Seq<Seq<char>>, d: Declared) -> Seq<Seq<char>> {
    let all = with_names(variables, d.arrays);
    if d.attrs.len() == 0 {
        all
    } else {
        pooled(all, DATASET_ATTRS_VARIABLE@)
    }
}

/// The pools once a dataset is committed. Where it has attributes of its own,
/// the name of the reserved variable is among the strings.
pub open spec fn pools_with(p: Pools, d: Declared) -> Pools {
    let after = with_declared(p, d);
    if d.attrs.len() == 0 {
        after
    } else {
        Pools { strings: pooled(after.strings, DATASET_ATTRS_VARIABLE@), dtypes: after.dtypes }
    }
}

/// The variables once those of some arrays are added, each once.
pub open spec fn with_names<V>(variables: Seq<Seq<char>>, arrays: Seq<(Seq<char>, V)>) -> Seq<
    Seq<char>,
>
    decreases arrays.len(),
{
    if arrays.len() == 0 {
        variables
    } else {
        pooled(with_names(variables, arrays.drop_last()), arrays.last().0)
    }
}

/// The names of a table.
pub open spec fn names_of<V>(entries: Seq<(Seq<char>, V)>) -> Seq<Seq<char>> {
    Seq::new(entries.len(), |i: int| entries[i].0)
}

/// A dataset that the collection holds: the number of the call that began it,
/// and its schema.
#[derive(Debug, Clone, Copy)]
struct Committed {
    number: u64,
    schema: u32,
}

/// A collection under construction.
///
/// Several datasets may be under construction at once. Each enters the
/// collection when it is committed. Nothing is readable until the collection
/// finishes.
#[derive(Debug)]
pub struct AtlasWriter {
    config: WriterConfig,
    added: Table<()>,
    committed: Vec<Committed>,
    variables: Table<()>,
    interner: Interner,
}

/// What a collection under construction holds.
#[verifier::ext_equal]
pub struct WriterModel {
    /// The codec of its blocks.
    pub codec: Codec,
    /// The names of the datasets that were begun, by number.
    pub added: Seq<Seq<char>>,
    /// The datasets that were committed, by number, with what they declare.
    pub committed: Seq<(u64, Declared)>,
    /// The variables, in the order they were first seen.
    pub variables: Seq<Seq<char>>,
}

/// Where one variable's segment and its statistics lie in the container.
#[derive(Debug, Clone, Copy, PartialEq, Eq)]
pub struct Placed {
    /// Absolute offset of the segment.
    pub seg_offset: u64,
    /// Segment length in bytes.
    pub seg_len: u64,
    /// Absolute offset of the statistics sidecar.
    pub stats_offset: u64,
    /// Sidecar length in bytes.
    pub stats_len: u64,
}

/// The bytes of some segments together.
pub open spec fn total_size(sizes: Seq<u64>) -> nat
    decreases sizes.len(),
{
    if sizes.len() == 0 {
        0
    } else {
        total_size(sizes.drop_last()) + sizes.last() as nat
    }
}

/// Segments of these sizes lie behind the header, back to back and in order,
/// without sidecars.
pub open spec fn back_to_back(placed: Seq<Placed>, sizes: Seq<u64>) -> bool {
    &&& placed.len() == sizes.len()
    &&& forall|i: int|
        0 <= i < placed.len() ==> {
            &&& (#[trigger] placed[i]).seg_len == sizes[i]
            &&& placed[i].stats_offset == 0
            &&& placed[i].stats_len == 0
        }
    &&& placed.len() > 0 ==> placed[0].seg_offset == HEADER_SIZE
    &&& forall|i: int, j: int|
        #![trigger placed[i], placed[j]]
        0 <= i && j == i + 1 && j < placed.len() ==> placed[j].seg_offset == placed[i].seg_offset
            + placed[i].seg_len
}

proof fn lemma_total_size_grows(sizes: Seq<u64>, n: int)
    requires
        0 <= n <= sizes.len(),
    ensures
        total_size(sizes.take(n)) <= total_size(sizes),
    decreases sizes.len() - n,
{
    if n == sizes.len() {
        assert(sizes.take(n) =~= sizes);
    } else {
        lemma_total_size_grows(sizes, n + 1);
        assert(sizes.take(n + 1).drop_last() =~= sizes.take(n));
    }
}

proof fn lemma_offset(placed: Seq<Placed>, sizes: Seq<u64>, i: int)
    requires
        back_to_back(placed, sizes),
        0 <= i < placed.len(),
    ensures
        placed[i].seg_offset == HEADER_SIZE + total_size(sizes.take(i)),
    decreases i,
{
    if i == 0 {
        assert(sizes.take(0) =~= Seq::empty());
    } else {
        lemma_offset(placed, sizes, i - 1);
        assert(placed[i - 1].seg_len == sizes[i - 1]);
        assert(sizes.take(i).drop_last() =~= sizes.take(i - 1));
    }
}

/// Placed segments lie behind the header, none overlaps a later one, and the
/// last ends where the sizes say that the footer begins.
pub proof fn law_placed_segments_do_not_overlap(
    placed: Seq<Placed>,
    sizes: Seq<u64>,
    i: int,
    j: int,
)
    requires
        back_to_back(placed, sizes),
        0 <= i < j < placed.len(),
    ensures
        HEADER_SIZE <= placed[i].seg_offset,
        placed[i].seg_offset + placed[i].seg_len <= placed[j].seg_offset,
        placed.last().seg_offset + placed.last().seg_len == HEADER_SIZE + total_size(sizes),
{
    lemma_offset(placed, sizes, i);
    lemma_offset(placed, sizes, j);
    assert(placed[i].seg_len == sizes[i]);
    assert(sizes.take(i + 1).drop_last() =~= sizes.take(i));
    let before = sizes.take(j);
    assert(before.take(i + 1) =~= sizes.take(i + 1));
    lemma_total_size_grows(before, i + 1);
    let last = placed.len() - 1;
    lemma_offset(placed, sizes, last);
    assert(placed[last].seg_len == sizes[last]);
    assert(sizes.drop_last() =~= sizes.take(last));
}

/// Where segments of these sizes lie in a container: behind the header, back to
/// back and in order. `None` where an offset would pass 64 bits.
pub fn place_segments(sizes: &Vec<u64>) -> (placed: Option<Vec<Placed>>)
    ensures
        match placed {
            Some(list) => HEADER_SIZE + total_size(sizes@) <= u64::MAX && back_to_back(
                list@,
                sizes@,
            ),
            None => HEADER_SIZE + total_size(sizes@) > u64::MAX,
        },
{
    let mut placed: Vec<Placed> = Vec::new();
    let mut offset: u64 = HEADER_SIZE;
    let mut i: usize = 0;
    assert(sizes@.take(0) =~= Seq::empty());
    while i < sizes.len()
        invariant
            i <= sizes@.len(),
            offset == HEADER_SIZE + total_size(sizes@.take(i as int)),
            back_to_back(placed@, sizes@.take(i as int)),
            i > 0 ==> offset == placed@[i - 1].seg_offset + placed@[i - 1].seg_len,
        decreases sizes@.len() - i,
    {
        let size: u64 = sizes[i];
        proof {
            lemma_total_size_grows(sizes@, i + 1);
            assert(sizes@.take(i + 1).drop_last() =~= sizes@.take(i as int));
        }
        match offset.checked_add(size) {
            Some(end) => {
                placed.push(
                    Placed { seg_offset: offset, seg_len: size, stats_offset: 0, stats_len: 0 },
                );
                offset = end;
            },
            None => {
                return None;
            },
        }
        i += 1;
    }
    assert(sizes@.take(i as int) =~= sizes@);
    Some(placed)
}

impl View for AtlasWriter {
    type V = WriterModel;

    closed spec fn view(&self) -> WriterModel {
        WriterModel {
            codec: self.config.codec,
            added: names_of(self.added@),
            committed: Seq::new(
                self.committed@.len(),
                |i: int|
                    (
                        self.committed@[i].number,
                        declared_in(
                            self.interner.pools(),
                            self.interner.schemas()[self.committed@[i].schema as int],
                        ),
                    ),
            ),
            variables: names_of(self.variables@),
        }
    }
}

/// A dataset that this collection began, and that it does not hold yet.
pub open spec fn pending(w: WriterModel, d: DatasetModel) -> bool {
    &&& d.number < w.added.len()
    &&& w.added[d.number as int] == d.name
    &&& forall|i: int| 0 <= i < w.committed.len() ==> (#[trigger] w.committed[i]).0 != d.number
}

/// A writer once a dataset is committed.
pub open spec fn with_dataset(w: WriterModel, d: DatasetModel) -> WriterModel {
    WriterModel {
        committed: inserted(w.committed, d.number, declared(d)),
        variables: with_variables(w.variables, declared(d)),
        ..w
    }
}

/// The pools keep what they hold, and every schema resolves in them.
spec fn sound_pools(p: Pools, schemas: Seq<SchemaModel>) -> bool {
    &&& nameable(p)
    &&& p.strings.no_duplicates()
    &&& schemas.len() <= 0x1_0000_0000
    &&& forall|i: int| 0 <= i < schemas.len() ==> schema_inside(p, #[trigger] schemas[i])
}

/// Every array of every schema has a variable, and every variable has a string.
spec fn covered(p: Pools, schemas: Seq<SchemaModel>, variables: Seq<Seq<char>>) -> bool {
    &&& forall|i: int, k: int|
        0 <= i < schemas.len() && 0 <= k < schemas[i].arrays.len() ==> variables.contains(
            p.strings[(#[trigger] schemas[i].arrays[k]).0 as int],
        )
    &&& forall|j: int| 0 <= j < variables.len() ==> p.strings.contains(#[trigger] variables[j])
}

/// The datasets stand by increasing number.
spec fn ordered(committed: Seq<Committed>, added: nat, schemas: nat) -> bool {
    &&& forall|i: int|
        0 <= i < committed.len() ==> (#[trigger] committed[i]).number < added
            && committed[i].schema < schemas
    &&& forall|i: int, j: int|
        0 <= i < j < committed.len() ==> (#[trigger] committed[i]).number < (
        #[trigger] committed[j]).number
}

proof fn lemma_growth_keeps(p: Pools, q: Pools, s: SchemaModel)
    requires
        grown(p, q),
        schema_inside(p, s),
    ensures
        schema_inside(q, s),
        declared_in(q, s) == declared_in(p, s),
{
    lemma_inside_grown(p, q, s.arrays);
    lemma_inside_grown(p, q, s.attrs);
    assert forall|k: int| 0 <= k < s.array_attrs.len() implies inside(
        q,
        (#[trigger] s.array_attrs[k]).1,
    ) && resolved(q, s.array_attrs[k].1) == resolved(p, s.array_attrs[k].1) by {
        lemma_inside_grown(p, q, s.array_attrs[k].1);
    }
    assert(declared_in(q, s).array_attrs =~= declared_in(p, s).array_attrs);
}

proof fn lemma_grown_trans(p: Pools, q: Pools, r: Pools)
    requires
        grown(p, q),
        grown(q, r),
    ensures
        grown(p, r),
{
    assert(r.strings.take(p.strings.len() as int) =~= q.strings.take(p.strings.len() as int));
    assert(r.dtypes.take(p.dtypes.len() as int) =~= q.dtypes.take(p.dtypes.len() as int));
}

proof fn lemma_grown_contains(p: Pools, q: Pools, name: Seq<char>)
    requires
        grown(p, q),
        p.strings.contains(name),
    ensures
        q.strings.contains(name),
{
    let i = choose|i: int| 0 <= i < p.strings.len() && p.strings[i] == name;
    assert(q.strings.take(p.strings.len() as int)[i] == q.strings[i]);
}

proof fn lemma_with_names_contains<V>(
    variables: Seq<Seq<char>>,
    arrays: Seq<(Seq<char>, V)>,
    name: Seq<char>,
)
    ensures
        variables.contains(name) ==> with_names(variables, arrays).contains(name),
        names_of(arrays).contains(name) ==> with_names(variables, arrays).contains(name),
        with_names(variables, arrays).contains(name) ==> variables.contains(name) || names_of(
            arrays,
        ).contains(name),
    decreases arrays.len(),
{
    if arrays.len() > 0 {
        let front = arrays.drop_last();
        let mid = with_names(variables, front);
        let after = with_names(variables, arrays);
        lemma_with_names_contains(variables, front, name);
        law_interning(mid, arrays.last().0, name);
        assert(after[place(mid, arrays.last().0)] == arrays.last().0);
        if mid.contains(name) {
            let i = choose|i: int| 0 <= i < mid.len() && mid[i] == name;
            assert(after.take(mid.len() as int)[i] == after[i]);
        }
        if names_of(arrays).contains(name) {
            let i = choose|i: int| 0 <= i < arrays.len() && names_of(arrays)[i] == name;
            if i < front.len() {
                assert(names_of(front)[i] == name);
            }
        }
        if after.contains(name) && !mid.contains(name) {
            let i = choose|i: int| 0 <= i < after.len() && after[i] == name;
            assert(names_of(arrays)[arrays.len() - 1] == arrays.last().0);
            if i < mid.len() {
                assert(mid[i] == name);
            }
        }
        if names_of(front).contains(name) {
            let i = choose|i: int| 0 <= i < front.len() && names_of(front)[i] == name;
            assert(names_of(arrays)[i] == name);
        }
    }
}

/// Adding a name to a table of names interns it.
proof fn lemma_named_entry(entries: Seq<(Seq<char>, ())>, name: Seq<char>)
    requires
        keys_distinct(entries),
    ensures
        names_of(with_entry(entries, name, ())) == pooled(names_of(entries), name),
{
    let names = names_of(entries);
    if has_key(entries, name) {
        let i = key_index(entries, name);
        assert(names[i] == name);
        assert(names.contains(name));
        assert(names_of(with_entry(entries, name, ())) =~= names);
    } else {
        if names.contains(name) {
            let i = choose|i: int| 0 <= i < names.len() && names[i] == name;
            assert(entries[i].0 == name);
        }
        assert(names_of(with_entry(entries, name, ())) =~= names.push(name));
    }
}

proof fn lemma_inserted_at(list: Seq<(u64, Declared)>, number: u64, d: Declared, at: int)
    requires
        0 <= at <= list.len(),
        forall|i: int| 0 <= i < at ==> (#[trigger] list[i]).0 < number,
        forall|i: int| at <= i < list.len() ==> (#[trigger] list[i]).0 > number,
    ensures
        inserted(list, number, d) == list.insert(at, (number, d)),
    decreases list.len(),
{
    if at < list.len() {
        let front = list.drop_last();
        assert(list[list.len() - 1].0 > number);
        lemma_inserted_at(front, number, d, at);
        assert(list.insert(at, (number, d)) =~= front.insert(at, (number, d)).push(list.last()));
    } else {
        assert(list.insert(at, (number, d)) =~= list.push((number, d)));
    }
}

/// Interning a dataset keeps every schema, and adds one that stands for it.
proof fn lemma_schema_of_dataset(p: Pools, schemas: Seq<SchemaModel>, model: DatasetModel)
    requires
        coherent(model),
        nameable(with_declared(p, declared(model))),
        forall|i: int| 0 <= i < schemas.len() ==> schema_inside(p, #[trigger] schemas[i]),
    ensures
        ({
            let d = declared(model);
            let q = with_declared(p, d);
            let schema = declared_ids(p, d);
            let all = pooled(schemas, schema);
            &&& grown(p, q)
            &&& schema_inside(q, schema)
            &&& declared_in(q, schema) == d
            &&& extends(schemas, all)
            &&& 0 <= place(schemas, schema) < all.len()
            &&& all[place(schemas, schema)] == schema
            &&& forall|i: int| 0 <= i < all.len() ==> schema_inside(q, #[trigger] all[i])
        }),
{
    let d = declared(model);
    let q = with_declared(p, d);
    let schema = declared_ids(p, d);
    let all = pooled(schemas, schema);
    law_interned_schema_stands_for_its_declarations(p, d);
    law_interning(schemas, schema, schema);
    assert(schema.arrays.len() == resolved(q, schema.arrays).len());
    assert forall|k: int| 0 <= k < schema.array_attrs.len() implies (
    #[trigger] schema.array_attrs[k]).0 < schema.arrays.len() && inside(
        q,
        schema.array_attrs[k].1,
    ) by {
        assert(d.array_attrs[k].0 == model.array_attrs[k].0);
        assert(model.array_attrs[k].0 < model.arrays.len());
    }
    assert(declared_in(q, schema).array_attrs =~= d.array_attrs);
    assert forall|i: int| 0 <= i < all.len() implies schema_inside(q, #[trigger] all[i]) by {
        if i < schemas.len() {
            assert(all.take(schemas.len() as int)[i] == all[i]);
            lemma_growth_keeps(p, q, schemas[i]);
        }
    }
}

/// What a list of committed datasets stands for stays when the pools and the
/// schemas grow.
proof fn lemma_committed_keeps(
    p: Pools,
    r: Pools,
    schemas: Seq<SchemaModel>,
    all: Seq<SchemaModel>,
    list: Seq<Committed>,
)
    requires
        grown(p, r),
        extends(schemas, all),
        forall|i: int| 0 <= i < schemas.len() ==> schema_inside(p, #[trigger] schemas[i]),
        forall|i: int| 0 <= i < list.len() ==> (#[trigger] list[i]).schema < schemas.len(),
    ensures
        forall|i: int|
            0 <= i < list.len() ==> declared_in(r, all[(#[trigger] list[i]).schema as int])
                == declared_in(p, schemas[list[i].schema as int]),
{
    assert forall|i: int| 0 <= i < list.len() implies declared_in(
        r,
        all[(#[trigger] list[i]).schema as int],
    ) == declared_in(p, schemas[list[i].schema as int]) by {
        let n = list[i].schema as int;
        assert(all.take(schemas.len() as int)[n] == all[n]);
        assert(schema_inside(p, schemas[n]));
        lemma_growth_keeps(p, r, schemas[n]);
    }
}

/// The variables of a dataset and of those before it cover every schema, once
/// the dataset is interned.
proof fn lemma_variables_cover(
    p: Pools,
    q: Pools,
    r: Pools,
    schemas: Seq<SchemaModel>,
    d: Declared,
    seen: Seq<Seq<char>>,
)
    requires
        nameable(q),
        q == with_declared(p, d),
        grown(p, q),
        grown(q, r),
        d.attrs.len() != 0 ==> r.strings.contains(DATASET_ATTRS_VARIABLE@),
        forall|i: int| 0 <= i < schemas.len() ==> schema_inside(p, #[trigger] schemas[i]),
        schema_inside(q, declared_ids(p, d)),
        resolved(q, declared_ids(p, d).arrays) == d.arrays,
        covered(p, schemas, seen),
    ensures
        covered(r, pooled(schemas, declared_ids(p, d)), with_variables(seen, d)),
{
    let schema = declared_ids(p, d);
    let all = pooled(schemas, schema);
    let mid = with_names(seen, d.arrays);
    let names = with_variables(seen, d);
    law_interning(schemas, schema, schema);
    law_interning(mid, DATASET_ATTRS_VARIABLE@, DATASET_ATTRS_VARIABLE@);
    assert forall|i: int, k: int|
        0 <= i < all.len() && 0 <= k < all[i].arrays.len() implies names.contains(
        r.strings[(#[trigger] all[i].arrays[k]).0 as int],
    ) by {
        assert(schema_inside(q, all[i]));
        let name = q.strings[all[i].arrays[k].0 as int];
        assert(r.strings.take(q.strings.len() as int)[all[i].arrays[k].0 as int] == name);
        if i < schemas.len() {
            assert(all.take(schemas.len() as int)[i] == all[i]);
            assert(schema_inside(p, schemas[i]));
            assert(q.strings.take(p.strings.len() as int)[all[i].arrays[k].0 as int]
                == name);
            assert(seen.contains(
                p.strings[(schemas[i].arrays[k]).0 as int],
            ));
        } else {
            assert(all[i] == schema);
            assert(resolved(q, schema.arrays)[k] == d.arrays[k]);
            assert(names_of(d.arrays)[k] == name);
        }
        lemma_with_names_contains(seen, d.arrays, name);
        assert(mid.contains(name));
        let j = choose|j: int| 0 <= j < mid.len() && mid[j] == name;
        if d.attrs.len() != 0 {
            assert(names.take(mid.len() as int)[j] == names[j]);
        }
        assert(names[j] == name);
    }
    assert forall|j: int| 0 <= j < names.len() implies r.strings.contains(
        #[trigger] names[j],
    ) by {
        let name = names[j];
        lemma_with_names_contains(seen, d.arrays, name);
        if j < mid.len() {
            if d.attrs.len() != 0 {
                assert(names.take(mid.len() as int)[j] == names[j]);
            }
            assert(mid[j] == name);
            assert(mid.contains(name));
            if seen.contains(name) {
                let n = choose|n: int| 0 <= n < seen.len() && seen[n] == name;
                assert(p.strings.contains(seen[n]));
                lemma_grown_contains(p, q, name);
            } else {
                let n = choose|n: int|
                    0 <= n < d.arrays.len() && names_of(d.arrays)[n] == name;
                assert(resolved(q, schema.arrays)[n] == d.arrays[n]);
                assert(q.strings[schema.arrays[n].0 as int] == name);
            }
            lemma_grown_contains(q, r, name);
        } else {
            assert(name == DATASET_ATTRS_VARIABLE@);
        }
    }
}

impl AtlasWriter {
    #[verifier::type_invariant]
    spec fn inv(self) -> bool {
        &&& keys_distinct(self.added@)
        &&& keys_distinct(self.variables@)
        &&& sound_pools(self.interner.pools(), self.interner.schemas())
        &&& covered(self.interner.pools(), self.interner.schemas(), names_of(self.variables@))
        &&& ordered(self.committed@, self.added@.len(), self.interner.schemas().len())
    }

    /// The string pool and the type pool.
    pub closed spec fn pools(&self) -> Pools {
        self.interner.pools()
    }

    /// The schema pool.
    pub closed spec fn schemas(&self) -> Seq<SchemaModel> {
        self.interner.schemas()
    }

    /// The pools have room for what a dataset declares: their positions fit 32
    /// bits.
    pub open spec fn fits(&self, d: DatasetModel) -> bool {
        &&& nameable(with_declared(self.pools(), declared(d)))
        &&& nameable(pools_with(self.pools(), declared(d)))
        &&& self.schemas().len() < 0x1_0000_0000
    }

    /// A collection that holds nothing yet.
    pub fn new(config: WriterConfig) -> (writer: Self)
        ensures
            writer@ == (WriterModel {
                codec: config.codec,
                added: Seq::empty(),
                committed: Seq::empty(),
                variables: Seq::empty(),
            }),
            writer.pools().strings.len() == 0,
            writer.pools().dtypes.len() == 0,
            writer.schemas().len() == 0,
    {
        let added: Table<()> = Table::new();
        let variables: Table<()> = Table::new();
        let committed: Vec<Committed> = Vec::new();
        let interner: Interner = Interner::new();
        let writer = AtlasWriter { config, added, committed, variables, interner };
        assert(writer@.added =~= Seq::empty());
        assert(writer@.committed =~= Seq::empty());
        assert(writer@.variables =~= Seq::empty());
        writer
    }

    /// The codec of its blocks.
    pub fn codec(&self) -> (codec: Codec)
        ensures
            codec == self@.codec,
    {
        self.config.codec
    }

    /// How many datasets the collection holds so far.
    pub fn dataset_count(&self) -> (count: usize)
        ensures
            count == self@.committed.len(),
    {
        self.committed.len()
    }

    /// The variables, in the order they were first seen.
    pub fn list_variables(&self) -> (names: Vec<String>)
        ensures
            names@.len() == self@.variables.len(),
            forall|i: int| 0 <= i < names@.len() ==> (#[trigger] names@[i])@ == self@.variables[i],
    {
        let mut names: Vec<String> = Vec::new();
        let count: usize = self.variables.len();
        let mut i: usize = 0;
        while i < count
            invariant
                count == self.variables@.len(),
                i <= count,
                names@.len() == i,
                forall|j: int| 0 <= j < i ==> (#[trigger] names@[j])@ == self.variables@[j].0,
            decreases count - i,
        {
            names.push(self.variables.name_at(i).to_owned());
            i += 1;
        }
        names
    }

    /// Begins a dataset. Its name must be new to the collection.
    pub fn add_dataset(&mut self, name: &str) -> (dataset: Result<DatasetWriter>)
        ensures
            match dataset {
                Ok(d) => {
                    &&& valid_name(name@)
                    &&& !old(self)@.added.contains(name@)
                    &&& d@ == (DatasetModel {
                        name: name@,
                        number: old(self)@.added.len() as u64,
                        arrays: Seq::empty(),
                        attrs: Seq::empty(),
                        array_attrs: Seq::empty(),
                    })
                    &&& final(self)@ == (WriterModel {
                        added: old(self)@.added.push(name@),
                        ..old(self)@
                    })
                    &&& pending(final(self)@, d@)
                },
                Err(e) => {
                    &&& final(self)@ == old(self)@
                    &&& if valid_name(name@) {
                        old(self)@.added.contains(name@) && e@ == Error::DatasetAlreadyExists(name@)
                    } else {
                        e@ == Error::InvalidName(name@)
                    }
                },
            },
            final(self).pools() == old(self).pools(),
            final(self).schemas() == old(self).schemas(),
    {
        match validate_name(name) {
            Ok(()) => {},
            Err(e) => {
                return Err(e);
            },
        }
        if self.added.contains(name) {
            proof {
                let i = key_index(self.added@, name@);
                assert(self@.added[i] == name@);
            }
            return Err(Error::DatasetAlreadyExists(name.to_owned()));
        }
        proof {
            use_type_invariant(&*self);
            if self@.added.contains(name@) {
                let i = choose|i: int| 0 <= i < self@.added.len() && self@.added[i] == name@;
                assert(self.added@[i].0 == name@);
            }
        }
        let number: u64 = self.added.len() as u64;
        let ghost before = self@;
        let mut whole = AtlasWriter::new(WriterConfig::default());
        std::mem::swap(self, &mut whole);
        let AtlasWriter { config, mut added, committed, variables, interner } = whole;
        let ghost entries = added@;
        let _ = added.insert(name.to_owned(), ());
        proof {
            assert(added@ == entries.push((name@, ())));
            assert(names_of(added@) =~= before.added.push(name@));
        }
        *self = AtlasWriter { config, added, committed, variables, interner };
        assert(self@.committed =~= before.committed);
        proof {
            assert forall|i: int| 0 <= i < self@.committed.len() implies (
            #[trigger] self@.committed[i]).0 != number by {
                assert(committed@[i].number < entries.len());
            }
        }
        Ok(DatasetWriter::new(name.to_owned(), number))
    }

    /// Commits a dataset. Its place follows from its number, whatever order the
    /// datasets are committed in.
    #[verifier::spinoff_prover]
    #[verifier::rlimit(40)]
    pub fn commit(&mut self, dataset: DatasetWriter)
        requires
            pending(old(self)@, dataset@),
            old(self).fits(dataset@),
        ensures
            final(self)@ == with_dataset(old(self)@, dataset@),
            final(self).pools() == pools_with(old(self).pools(), declared(dataset@)),
            final(self).schemas() == pooled(
                old(self).schemas(),
                declared_ids(old(self).pools(), declared(dataset@)),
            ),
    {
        proof {
            use_type_invariant(&*self);
        }
        let ghost before = self@;
        let ghost model = dataset@;
        let ghost d = declared(model);
        let mut whole = AtlasWriter::new(WriterConfig::default());
        std::mem::swap(self, &mut whole);
        let AtlasWriter { config, added, mut committed, mut variables, mut interner } = whole;
        let (number, arrays, attrs, array_attrs) = dataset.into_parts();
        let ghost p = interner.pools();
        let ghost schemas = interner.schemas();
        let ghost q = with_declared(p, d);
        let ghost schema = declared_ids(p, d);
        let position: u32 = interner.intern_schema(&arrays, &attrs, &array_attrs);
        let ghost all = interner.schemas();
        proof {
            lemma_schema_of_dataset(p, schemas, model);
        }
        let ghost seen = names_of(variables@);
        let count: usize = arrays.len();
        let mut i: usize = 0;
        while i < count
            invariant
                count == arrays@.len(),
                i <= count,
                keys_distinct(variables@),
                names_of(variables@) == with_names(seen, arrays@.take(i as int)),
            decreases count - i,
        {
            proof {
                lemma_named_entry(variables@, arrays@[i as int].0);
                assert(arrays@.take(i + 1).drop_last() =~= arrays@.take(i as int));
            }
            let _ = variables.insert(arrays.name_at(i).to_owned(), ());
            i += 1;
        }
        assert(arrays@.take(i as int) =~= arrays@);
        if attrs.len() != 0 {
            let _ = interner.intern_string(DATASET_ATTRS_VARIABLE);
            proof {
                lemma_named_entry(variables@, DATASET_ATTRS_VARIABLE@);
            }
            let _ = variables.insert(DATASET_ATTRS_VARIABLE.to_owned(), ());
        }
        let _strings: usize = interner.string_count();
        let ghost r = interner.pools();
        let ghost names = names_of(variables@);
        proof {
            law_interning(q.strings, DATASET_ATTRS_VARIABLE@, DATASET_ATTRS_VARIABLE@);
            assert(q.strings.take(q.strings.len() as int) =~= q.strings);
            assert(q.dtypes.take(q.dtypes.len() as int) =~= q.dtypes);
            assert(grown(q, r));
            lemma_grown_trans(p, q, r);
            assert(names == with_variables(seen, d));
            assert(r =~= pools_with(p, d));
            assert forall|i: int| 0 <= i < all.len() implies schema_inside(
                r,
                #[trigger] all[i],
            ) by {
                lemma_growth_keeps(q, r, all[i]);
            }
            if d.attrs.len() != 0 {
                assert(r.strings[place(q.strings, DATASET_ATTRS_VARIABLE@)]
                    == DATASET_ATTRS_VARIABLE@);
            }
            lemma_variables_cover(p, q, r, schemas, d, seen);
        }
        let ghost list = committed@;
        let mut at: usize = 0;
        while at < committed.len() && committed[at].number < number
            invariant
                at <= committed@.len(),
                forall|j: int| 0 <= j < at ==> (#[trigger] committed@[j]).number < number,
            ensures
                at <= committed@.len(),
                forall|j: int| 0 <= j < at ==> (#[trigger] committed@[j]).number < number,
                at < committed@.len() ==> committed@[at as int].number >= number,
            decreases committed@.len() - at,
        {
            at += 1;
        }
        committed.insert(at, Committed { number, schema: position });
        proof {
            assert(list == old(self).committed@);
            assert forall|j: int| 0 <= j < list.len() implies (#[trigger] list[j]).number
                != number by {
                assert(before.committed[j].0 == list[j].number);
            }
            assert forall|j: int| at <= j < list.len() implies (#[trigger] list[j]).number
                > number by {
                if j > at {
                    assert(list[at as int].number < list[j].number);
                }
            }
            assert(ordered(committed@, added@.len(), all.len()));
        }
        *self = AtlasWriter { config, added, committed, variables, interner };
        proof {
            lemma_committed_keeps(p, r, schemas, all, list);
            assert(schema_inside(q, schema));
            lemma_growth_keeps(q, r, schema);
            assert(all[position as int] == schema);
            assert forall|j: int| 0 <= j < before.committed.len() implies (
            #[trigger] before.committed[j]).0 == list[j].number by {}
            lemma_inserted_at(before.committed, number, d, at as int);
            assert(self@.committed =~= before.committed.insert(at as int, (number, d)));
            assert(self@.added =~= before.added);
            assert(self@.variables =~= with_variables(before.variables, d));
        }
    }

    /// Finishes the collection: the footer of a container whose segments lie
    /// where `segments` says, one for each variable, in order.
    pub fn finish(
        self,
        segment_format: u32,
        created_unix_ms: i64,
        segments: &Vec<Placed>,
    ) -> (footer: CollectionFooter)
        requires
            segments@.len() == self@.variables.len(),
        ensures
            footer.version == FORMAT_VERSION,
            footer.segment_format == segment_format,
            footer.codec == self@.codec,
            footer.created_unix_ms == created_unix_ms,
            pools_of(footer@) == self.pools(),
            footer@.schemas == self.schemas(),
            is_finished(self@, segments@, footer@),
    {
        proof {
            use_type_invariant(&self);
        }
        let ghost model = self@;
        let ghost p = self.interner.pools();
        let ghost schemas = self.interner.schemas();
        let AtlasWriter { config, added, committed, variables, mut interner } = self;
        let mut entries: Vec<VariableEntry> = Vec::new();
        let count: usize = variables.len();
        let mut i: usize = 0;
        while i < count
            invariant
                count == variables@.len(),
                count == segments@.len(),
                i <= count,
                names_of(variables@) == model.variables,
                keys_distinct(variables@),
                sound_pools(p, schemas),
                covered(p, schemas, model.variables),
                interner.pools() == p,
                interner.schemas() == schemas,
                entries@.len() == i,
                forall|j: int|
                    0 <= j < i ==> placed_as(p, model.variables, segments@, j, #[trigger] entries@[j]),
            decreases count - i,
        {
            let ghost name = variables@[i as int].0;
            proof {
                assert(model.variables[i as int] == name);
                assert(p.strings.contains(name));
                law_interning(p.strings, name, name);
            }
            let id: u32 = interner.intern_string(variables.name_at(i));
            let placed: &Placed = &segments[i];
            entries.push(
                VariableEntry {
                    name: id,
                    seg_offset: placed.seg_offset,
                    seg_len: placed.seg_len,
                    stats_offset: placed.stats_offset,
                    stats_len: placed.stats_len,
                },
            );
            assert(interner.pools() =~= p);
            i += 1;
        }
        let mut datasets: Table<u32> = Table::new();
        let total: usize = added.len();
        let mut k: usize = 0;
        while k < committed.len()
            invariant
                k <= committed@.len(),
                total == added@.len(),
                keys_distinct(added@),
                ordered(committed@, added@.len(), schemas.len()),
                datasets@.len() == k,
                forall|j: int|
                    0 <= j < k ==> #[trigger] datasets@[j] == (
                        added@[committed@[j].number as int].0,
                        committed@[j].schema,
                    ),
            decreases committed@.len() - k,
        {
            let one: Committed = committed[k];
            let name: String = added.name_at(one.number as usize).to_owned();
            proof {
                if has_key(datasets@, name@) {
                    let j = key_index(datasets@, name@);
                    assert(datasets@[j].0 == name@);
                    assert(committed@[j].number < committed@[k as int].number);
                }
            }
            let _ = datasets.insert(name, one.schema);
            k += 1;
        }
        let (string_pool, dtype_pool, schema_pool) = interner.into_pools();
        let footer = CollectionFooter {
            version: FORMAT_VERSION,
            segment_format,
            codec: config.codec,
            created_unix_ms,
            string_pool,
            dtype_pool,
            schema_pool,
            variables: entries,
            datasets,
        };
        proof {
            let f = footer@;
            assert(pools_of(f) =~= p);
            assert forall|i: int| 0 <= i < f.datasets.len() implies listed_as(
                model,
                f,
                i,
                #[trigger] f.datasets[i],
            ) by {
                let s = committed@[i].schema as int;
                assert(model.committed[i] == (committed@[i].number, declared_in(p, schemas[s])));
                assert(declared_by(f, s).array_attrs =~= declared_in(p, schemas[s]).array_attrs);
                assert(model.added[committed@[i].number as int]
                    == added@[committed@[i].number as int].0);
            }
            assert forall|i: int| 0 <= i < f.variables.len() implies placed_as(
                pools_of(f),
                model.variables,
                segments@,
                i,
                #[trigger] f.variables[i],
            ) by {}
            if forall|i: int| 0 <= i < segments@.len() ==> (#[trigger] segments@[i]).seg_len > 0 {
                lemma_finished_is_consistent(model, segments@, f, schemas);
            }
        }
        footer
    }
}

/// An entry stands for a variable, and gives the place of its segment.
pub open spec fn placed_as(
    p: Pools,
    variables: Seq<Seq<char>>,
    segments: Seq<Placed>,
    i: int,
    entry: VariableEntry,
) -> bool {
    &&& entry.name < p.strings.len()
    &&& p.strings[entry.name as int] == variables[i]
    &&& entry.seg_offset == segments[i].seg_offset
    &&& entry.seg_len == segments[i].seg_len
    &&& entry.stats_offset == segments[i].stats_offset
    &&& entry.stats_len == segments[i].stats_len
}

/// A dataset of a footer stands for the one that was committed: it has its
/// name, and it declares what that declared.
pub open spec fn listed_as(
    w: WriterModel,
    f: FooterModel,
    i: int,
    dataset: (Seq<char>, u32),
) -> bool {
    &&& dataset.0 == w.added[w.committed[i].0 as int]
    &&& dataset.1 < f.schemas.len()
    &&& declared_by(f, dataset.1 as int) == w.committed[i].1
}

/// The footer of a finished collection: its datasets, by number, declare what
/// they were committed with, each variable has its segment, and the footer
/// agrees with itself where no segment is empty.
pub open spec fn is_finished(w: WriterModel, segments: Seq<Placed>, f: FooterModel) -> bool {
    &&& f.datasets.len() == w.committed.len()
    &&& forall|i: int| 0 <= i < f.datasets.len() ==> listed_as(w, f, i, #[trigger] f.datasets[i])
    &&& f.variables.len() == w.variables.len()
    &&& forall|i: int|
        0 <= i < f.variables.len() ==> placed_as(
            pools_of(f),
            w.variables,
            segments,
            i,
            #[trigger] f.variables[i],
        )
    &&& (forall|i: int| 0 <= i < segments.len() ==> (#[trigger] segments[i]).seg_len > 0)
        ==> consistent(f)
}

proof fn lemma_finished_is_consistent(
    w: WriterModel,
    segments: Seq<Placed>,
    f: FooterModel,
    schemas: Seq<SchemaModel>,
)
    requires
        f.version == FORMAT_VERSION,
        f.schemas == schemas,
        sound_pools(pools_of(f), schemas),
        covered(pools_of(f), schemas, w.variables),
        f.variables.len() == w.variables.len(),
        segments.len() == w.variables.len(),
        w.variables.no_duplicates(),
        forall|i: int|
            0 <= i < f.variables.len() ==> placed_as(
                pools_of(f),
                w.variables,
                segments,
                i,
                #[trigger] f.variables[i],
            ),
        forall|i: int| 0 <= i < f.datasets.len() ==> (#[trigger] f.datasets[i]).1 < f.schemas.len(),
        forall|i: int| 0 <= i < segments.len() ==> (#[trigger] segments[i]).seg_len > 0,
    ensures
        consistent(f),
{
    let p = pools_of(f);
    assert forall|i: int| 0 <= i < f.variables.len() implies (#[trigger] f.variables[i]).name
        < f.strings.len() && f.variables[i].seg_len > 0 by {
        assert(segments[i].seg_len > 0);
    }
    assert forall|i: int, j: int| 0 <= i < j < f.variables.len() implies (
    #[trigger] f.variables[i]).name != (#[trigger] f.variables[j]).name by {
        assert(w.variables[i] != w.variables[j]);
    }
    assert forall|i: int| 0 <= i < f.schemas.len() implies #[trigger] schema_resolves(f, i) by {
        let s = f.schemas[i];
        assert(schema_inside(p, s));
        assert forall|k: int| 0 <= k < s.arrays.len() implies has_segment(
            f,
            (#[trigger] s.arrays[k]).0,
        ) by {
            let name = p.strings[schemas[i].arrays[k].0 as int];
            assert(w.variables.contains(name));
            let j = choose|j: int| 0 <= j < w.variables.len() && w.variables[j] == name;
            let v = f.variables[j];
            assert(p.strings[v.name as int] == name);
            assert(v.name == s.arrays[k].0);
        }
    }
}

proof fn lemma_insertions_commute(
    list: Seq<(u64, Declared)>,
    a: (u64, Declared),
    b: (u64, Declared),
)
    requires
        a.0 < b.0,
    ensures
        inserted(inserted(list, a.0, a.1), b.0, b.1) == inserted(
            inserted(list, b.0, b.1),
            a.0,
            a.1,
        ),
    decreases list.len(),
{
    let one = inserted(list, a.0, a.1);
    let two = inserted(list, b.0, b.1);
    if list.len() == 0 {
        assert(two.drop_last() =~= list);
    } else if list.last().0 < a.0 {
        assert(two.drop_last() =~= list);
    } else if list.last().0 < b.0 {
        assert(two.drop_last() =~= list);
    } else {
        let front = list.drop_last();
        lemma_insertions_commute(front, a, b);
        assert(one.drop_last() =~= inserted(front, a.0, a.1));
        assert(two.drop_last() =~= inserted(front, b.0, b.1));
    }
}

/// The order in which two datasets are committed moves neither: each stands by
/// its number.
pub proof fn law_commit_order_moves_no_dataset(w: WriterModel, a: DatasetModel, b: DatasetModel)
    requires
        a.number != b.number,
    ensures
        with_dataset(with_dataset(w, a), b).committed == with_dataset(
            with_dataset(w, b),
            a,
        ).committed,
{
    if a.number < b.number {
        lemma_insertions_commute(w.committed, (a.number, declared(a)), (b.number, declared(b)));
    } else {
        lemma_insertions_commute(w.committed, (b.number, declared(b)), (a.number, declared(a)));
    }
}

proof fn lemma_inserted_holds(list: Seq<(u64, Declared)>, number: u64, d: Declared)
    ensures
        inserted(list, number, d).len() == list.len() + 1,
        inserted(list, number, d).contains((number, d)),
    decreases list.len(),
{
    let after = inserted(list, number, d);
    if list.len() == 0 || list.last().0 < number {
        assert(after[list.len() as int] == (number, d));
    } else {
        let front = inserted(list.drop_last(), number, d);
        lemma_inserted_holds(list.drop_last(), number, d);
        let i = choose|i: int| 0 <= i < front.len() && front[i] == (number, d);
        assert(after[i] == (number, d));
    }
}

/// What a dataset declared when it was committed is what the footer of the
/// finished collection says of it, under its name.
pub proof fn law_finished_collections_hold_what_was_committed(
    w: WriterModel,
    d: DatasetModel,
    segments: Seq<Placed>,
    f: FooterModel,
)
    requires
        pending(w, d),
        is_finished(with_dataset(w, d), segments, f),
    ensures
        exists|i: int|
            {
                &&& 0 <= i < f.datasets.len()
                &&& (#[trigger] f.datasets[i]).0 == d.name
                &&& declared_by(f, f.datasets[i].1 as int) == declared(d)
            },
{
    let after = with_dataset(w, d);
    lemma_inserted_holds(w.committed, d.number, declared(d));
    let i = choose|i: int|
        0 <= i < after.committed.len() && after.committed[i] == (d.number, declared(d));
    assert(listed_as(after, f, i, f.datasets[i]));
}

/// A finished collection opens with nothing deleted, and a dataset's ordinal is
/// its place among the committed ones, by number.
pub proof fn law_finished_collections_open(
    w: WriterModel,
    segments: Seq<Placed>,
    f: FooterModel,
    i: int,
)
    requires
        is_finished(w, segments, f),
        forall|k: int| 0 <= k < segments.len() ==> (#[trigger] segments[k]).seg_len > 0,
        keys_distinct(f.datasets),
        0 <= i < w.committed.len(),
    ensures
        opened(f, None) == Ok::<Set<u32>, Error<Seq<char>>>(Set::empty()),
        ordinal_of(f, Set::empty(), w.added[w.committed[i].0 as int]) == Some(i as u32),
{
    law_accepted_footers_are_the_consistent_ones(f);
    lemma_key_index(f.datasets, i);
    assert(listed_as(w, f, i, f.datasets[i]));
}

/// The committed datasets stand by increasing number, whatever order they are
/// committed in, and a commit adds one and drops none.
pub proof fn law_datasets_stand_by_number(
    list: Seq<(u64, Declared)>,
    number: u64,
    d: Declared,
    other: (u64, Declared),
)
    requires
        forall|i: int, j: int|
            0 <= i < j < list.len() ==> (#[trigger] list[i]).0 < (#[trigger] list[j]).0,
        forall|i: int| 0 <= i < list.len() ==> (#[trigger] list[i]).0 != number,
    ensures
        inserted(list, number, d).len() == list.len() + 1,
        forall|i: int, j: int|
            0 <= i < j < inserted(list, number, d).len() ==> (#[trigger] inserted(
                list,
                number,
                d,
            )[i]).0 < (#[trigger] inserted(list, number, d)[j]).0,
        inserted(list, number, d).contains(other) <==> other == (number, d) || list.contains(other),
    decreases list.len(),
{
    let after = inserted(list, number, d);
    if list.len() == 0 || list.last().0 < number {
        assert(after[list.len() as int] == (number, d));
        assert forall|i: int, j: int| 0 <= i < j < after.len() implies (#[trigger] after[i]).0 < (
        #[trigger] after[j]).0 by {
            if j == list.len() && i < list.len() - 1 {
                assert(list[i].0 < list[list.len() - 1].0);
            }
        }
        if list.contains(other) {
            let i = choose|i: int| 0 <= i < list.len() && list[i] == other;
            assert(after[i] == other);
        }
        if after.contains(other) && other != (number, d) {
            let i = choose|i: int| 0 <= i < after.len() && after[i] == other;
            assert(list[i] == other);
        }
    } else {
        let front = list.drop_last();
        let last = list.last();
        assert forall|i: int, j: int| 0 <= i < j < front.len() implies (#[trigger] front[i]).0 < (
        #[trigger] front[j]).0 by {
            assert(list[i].0 < list[j].0);
        }
        assert forall|i: int| 0 <= i < front.len() implies (#[trigger] front[i]).0 != number by {
            assert(list[i].0 != number);
        }
        assert(list[list.len() - 1].0 != number);
        law_datasets_stand_by_number(front, number, d, other);
        let mid = inserted(front, number, d);
        assert forall|i: int, j: int| 0 <= i < j < after.len() implies (#[trigger] after[i]).0 < (
        #[trigger] after[j]).0 by {
            if j < mid.len() {
                assert(mid[i].0 < mid[j].0);
            } else {
                law_datasets_stand_by_number(front, number, d, mid[i]);
                assert(mid.contains(mid[i]));
                if mid[i] != (number, d) {
                    let k = choose|k: int| 0 <= k < front.len() && front[k] == mid[i];
                    assert(list[k].0 < list[list.len() - 1].0);
                }
            }
        }
        if list.contains(other) {
            let i = choose|i: int| 0 <= i < list.len() && list[i] == other;
            if i < front.len() {
                assert(front[i] == other);
                let k = choose|k: int| 0 <= k < mid.len() && mid[k] == other;
                assert(after[k] == other);
            } else {
                assert(after[mid.len() as int] == other);
            }
        }
        if mid.contains(other) {
            let k = choose|k: int| 0 <= k < mid.len() && mid[k] == other;
            assert(after[k] == other);
        }
        if after.contains(other) && !mid.contains(other) {
            let k = choose|k: int| 0 <= k < after.len() && after[k] == other;
            if k < mid.len() {
                assert(mid[k] == other);
            }
            assert(list[list.len() - 1] == other);
        }
        if front.contains(other) {
            let k = choose|k: int| 0 <= k < front.len() && front[k] == other;
            assert(list[k] == other);
        }
    }
}

/// A commit gives every array of the dataset a variable of its name, and the
/// reserved one where the dataset has attributes of its own. It adds no other,
/// and those that were there keep their places.
pub proof fn law_variables_follow_the_arrays(
    w: WriterModel,
    d: DatasetModel,
    name: Seq<char>,
)
    ensures
        ({
            let after = with_dataset(w, d).variables;
            &&& after.contains(name) <==> {
                ||| w.variables.contains(name)
                ||| exists|i: int| 0 <= i < d.arrays.len() && (#[trigger] d.arrays[i]).0 == name
                ||| d.attrs.len() > 0 && name == DATASET_ATTRS_VARIABLE@
            }
            &&& forall|i: int| 0 <= i < w.variables.len() ==> #[trigger] after[i] == w.variables[i]
            &&& after.len() >= w.variables.len()
        }),
{
    let all = with_names(w.variables, d.arrays);
    lemma_with_names_contains(w.variables, d.arrays, name);
    lemma_with_names_extends(w.variables, d.arrays);
    let names = names_of(d.arrays);
    if names.contains(name) {
        let i = choose|i: int| 0 <= i < names.len() && names[i] == name;
        assert(d.arrays[i].0 == name);
    }
    if exists|i: int| 0 <= i < d.arrays.len() && (#[trigger] d.arrays[i]).0 == name {
        let i = choose|i: int| 0 <= i < d.arrays.len() && (#[trigger] d.arrays[i]).0 == name;
        assert(names[i] == name);
    }
    let reserved = DATASET_ATTRS_VARIABLE@;
    if d.attrs.len() > 0 && !all.contains(reserved) {
        let after = all.push(reserved);
        assert(after[all.len() as int] == reserved);
        if all.contains(name) {
            let i = choose|i: int| 0 <= i < all.len() && all[i] == name;
            assert(after[i] == name);
        }
    }
}

proof fn lemma_with_names_extends<V>(variables: Seq<Seq<char>>, arrays: Seq<(Seq<char>, V)>)
    ensures
        with_names(variables, arrays).len() >= variables.len(),
        forall|i: int|
            0 <= i < variables.len() ==> #[trigger] with_names(variables, arrays)[i]
                == variables[i],
    decreases arrays.len(),
{
    if arrays.len() > 0 {
        lemma_with_names_extends(variables, arrays.drop_last());
    }
}

} // verus!
