//! [`StoreMeta`]: the metadata of a whole store.
//!
//! It holds the dataset list, tombstones included and addressed by position,
//! the liveness of each, the type index, and a pool of shared schemas. Every
//! change goes through a `record_*` or `unrecord_*` method, so these stay in
//! step; enumeration goes through the `live_*` methods, so tombstones never
//! leak out.

use crate::config::Codec;
use crate::meta::model::{
    compacted, current, declares, deleted, index_array_attrs, index_arrays, index_dataset,
    index_globals, index_notes, law_index_decides_as_a_scan, lemma_array_attr_only,
    lemma_array_only, lemma_global_only, lemma_index_array_attrs, lemma_index_arrays,
    lemma_index_globals, lemma_index_notes, lemma_live_entries, lemma_owner_contributes,
    lemma_placed_new, lemma_rebuilt, lemma_recorded, lemma_reindexed, lemma_types_bound,
    lemma_with_schema, live_entries, live_rows, other_type, placed, rebuilt, recorded, reindexed,
    scan_of, sound, type_in, with_schema, accepts, StoreModel,
};
use crate::meta::schema::{
    compute_merged, distinct_names, hash_of, merged_of, models_of, no_schema, schema_hash,
    with_array_attr, ArraySchema, DatasetModel, DatasetSchema, MergedSchema,
};
use crate::meta::type_index::{
    answer_of, codec_of, distinct_entries, entry_of, no_index, Constraint, TypeIndex,
};
use crate::pruning::ColumnKey;
use crate::schema::dtype::{widen_dtype, DType};
use crate::table::{
    has_key, key_index, keys_distinct, law_get_after_set, lemma_key_index, lemma_viewed, value_of,
    with_entry, without_entry, Table,
};
use crate::text::{same_text, texts};
use vstd::prelude::*;

verus! {

/// The store format version that is written and read.
pub const STORE_FORMAT_VERSION: u32 = 3;

/// The schema of one dataset: its own, or one of the shared ones.
#[derive(Debug)]
enum Slot {
    /// A schema of its own.
    Own(DatasetSchema),
    /// The shared schema at this place of the pool.
    Shared(usize),
}

/// A schema that datasets share, with its content hash.
#[derive(Debug)]
struct Pooled {
    hash: u64,
    schema: DatasetSchema,
}

/// The metadata of a store.
#[derive(Debug)]
pub struct StoreMeta {
    version: u32,
    codec: Codec,
    /// A counter that grows with every save.
    meta_epoch: u64,
    /// Dataset name to schema. A position here is the dataset's permanent
    /// ordinal, so a delete marks the entry and does not remove it.
    datasets: Table<Slot>,
    /// Whether each entry of `datasets` is live.
    live: Vec<bool>,
    /// What type each key holds over the live datasets.
    index: TypeIndex,
    /// The distinct schemas of the sealed datasets.
    pool: Vec<Pooled>,
}

spec fn slot_model(slot: Slot, pool: Seq<Pooled>) -> DatasetModel {
    match slot {
        Slot::Own(schema) => schema@,
        Slot::Shared(i) => pool[i as int].schema@,
    }
}

spec fn slot_models(slots: Seq<(Seq<char>, Slot)>, pool: Seq<Pooled>) -> Seq<
    (Seq<char>, DatasetModel),
> {
    Seq::new(slots.len(), |i: int| (slots[i].0, slot_model(slots[i].1, pool)))
}

spec fn slots_resolve(slots: Seq<(Seq<char>, Slot)>, pool: Seq<Pooled>) -> bool {
    forall|i: int|
        0 <= i < slots.len() ==> (#[trigger] slots[i].1 matches Slot::Shared(at) ==> at
            < pool.len())
}

spec fn shares(slots: Seq<(Seq<char>, Slot)>, name: Seq<char>) -> bool {
    value_of(slots, name) matches Some(Slot::Shared(_))
}

/// A dataset with a shared schema is among the datasets.
proof fn lemma_shares(slots: Seq<(Seq<char>, Slot)>, pool: Seq<Pooled>)
    requires
        keys_distinct(slots),
    ensures
        forall|name: Seq<char>| #[trigger]
            shares(slots, name) ==> has_key(slot_models(slots, pool), name),
{
    assert forall|name: Seq<char>| #[trigger] shares(slots, name) implies has_key(
        slot_models(slots, pool),
        name,
    ) by {
        lemma_slot_keys(slots, pool, name);
    }
}

spec fn pool_is_sound(pool: Seq<Pooled>) -> bool {
    &&& forall|i: int|
        0 <= i < pool.len() ==> (#[trigger] pool[i]).hash == hash_of(pool[i].schema@)
            && distinct_names(pool[i].schema@)
    &&& forall|i: int, j: int|
        0 <= i < j < pool.len() ==> (#[trigger] pool[i]).schema@ != (#[trigger] pool[j]).schema@
}

impl View for StoreMeta {
    type V = StoreModel;

    closed spec fn view(&self) -> StoreModel {
        StoreModel {
            version: self.version,
            codec: self.codec,
            meta_epoch: self.meta_epoch,
            datasets: slot_models(self.datasets@, self.pool@),
            live: self.live@,
            index: self.index@,
        }
    }
}

fn schema_in<'a>(slots: &'a Table<Slot>, pool: &'a Vec<Pooled>, i: usize) -> (schema:
    &'a DatasetSchema)
    requires
        i < slots@.len(),
        slots_resolve(slots@, pool@),
    ensures
        schema@ == slot_models(slots@, pool@)[i as int].1,
        distinct_names(schema@),
{
    let schema = match slots.value_at(i) {
        Slot::Own(schema) => schema,
        Slot::Shared(at) => &pool[*at].schema,
    };
    proof {
        use_type_invariant(schema);
    }
    schema
}

proof fn lemma_slot_keys(slots: Seq<(Seq<char>, Slot)>, pool: Seq<Pooled>, name: Seq<char>)
    requires
        keys_distinct(slots),
    ensures
        keys_distinct(slot_models(slots, pool)),
        has_key(slot_models(slots, pool), name) == has_key(slots, name),
        has_key(slots, name) ==> key_index(slot_models(slots, pool), name) == key_index(
            slots,
            name,
        ),
{
    let models = slot_models(slots, pool);
    assert forall|i: int, j: int| 0 <= i < j < models.len() implies #[trigger] models[i].0
        != #[trigger] models[j].0 by {
        assert(slots[i].0 != slots[j].0);
    }
    if has_key(slots, name) {
        let i = key_index(slots, name);
        assert(slots[i].0 == name);
        assert(models[i].0 == name);
        lemma_key_index(models, i);
    } else if has_key(models, name) {
        let i = key_index(models, name);
        assert(models[i].0 == name);
        assert(slots[i].0 == name);
    }
}

fn index_one(index: TypeIndex, schema: &DatasetSchema) -> (out: TypeIndex)
    requires
        forall|key: ColumnKey<Seq<char>>|
            (#[trigger] entry_of(index@, key)) matches Some(m) ==> m.contributors < usize::MAX,
    ensures
        out@ == index_dataset(index@, schema@),
{
    proof {
        use_type_invariant(&index);
        use_type_invariant(schema);
    }
    let ghost start = index@;
    let ghost m = schema@;
    let mut out = index;
    let arrays = schema.arrays();
    let count: usize = arrays.len();
    let mut i: usize = 0;
    while i < count
        invariant
            i <= count,
            count == arrays@.len(),
            m == schema@,
            crate::table::viewed(arrays@) == m.arrays,
            distinct_names(m),
            distinct_entries(start),
            forall|key: ColumnKey<Seq<char>>|
                (#[trigger] entry_of(start, key)) matches Some(m) ==> m.contributors < usize::MAX,
            out@ == index_arrays(start, m, i as int),
        decreases count - i,
    {
        let name = arrays.name_at(i);
        let array = arrays.value_at(i);
        proof {
            let key = ColumnKey::Array(name@);
            assert(m.arrays[i as int] == (name@, array@));
            lemma_index_arrays(start, m, i as int, key);
            lemma_not_yet(m.arrays, i as int);
            assert(entry_of(out@, key) == entry_of(start, key));
        }
        out.record_array(name, &array.dtype, array.codec);
        i += 1;
    }
    let ghost arrays_in = out@;
    let globals = schema.global_attrs();
    let global_count: usize = globals.len();
    let mut g: usize = 0;
    proof {
        assert forall|key: ColumnKey<Seq<char>>|
            !(key is Array) && (#[trigger] entry_of(arrays_in, key)) is Some implies entry_of(
            arrays_in,
            key,
        )->Some_0.contributors < usize::MAX by {
            lemma_index_arrays(start, m, count as int, key);
        }
        lemma_index_arrays(start, m, count as int, ColumnKey::Array(Seq::empty()));
    }
    while g < global_count
        invariant
            g <= global_count,
            global_count == globals@.len(),
            m == schema@,
            globals@ == m.global_attrs,
            distinct_names(m),
            distinct_entries(arrays_in),
            forall|key: ColumnKey<Seq<char>>|
                !(key is Array) && (#[trigger] entry_of(arrays_in, key)) is Some ==> entry_of(
                    arrays_in,
                    key,
                )->Some_0.contributors < usize::MAX,
            out@ == index_globals(arrays_in, m, g as int),
        decreases global_count - g,
    {
        let name = globals.name_at(g);
        proof {
            let key = ColumnKey::GlobalAttr(name@);
            lemma_index_globals(arrays_in, m, g as int, key);
            lemma_not_yet(m.global_attrs, g as int);
            assert(entry_of(out@, key) == entry_of(arrays_in, key));
        }
        out.record_global_attr(name, globals.value_at(g));
        g += 1;
    }
    let ghost globals_in = out@;
    let notes = schema.array_attrs();
    let note_count: usize = notes.len();
    let mut k: usize = 0;
    proof {
        assert forall|key: ColumnKey<Seq<char>>|
            key is ArrayAttr && (#[trigger] entry_of(globals_in, key)) is Some implies entry_of(
            globals_in,
            key,
        )->Some_0.contributors < usize::MAX by {
            lemma_index_globals(arrays_in, m, global_count as int, key);
            assert(entry_of(arrays_in, key) is Some);
        }
        lemma_index_globals(arrays_in, m, global_count as int, ColumnKey::Array(Seq::empty()));
    }
    while k < note_count
        invariant
            k <= note_count,
            note_count == notes@.len(),
            m == schema@,
            crate::table::viewed(notes@) == m.array_attrs,
            distinct_names(m),
            distinct_entries(globals_in),
            forall|key: ColumnKey<Seq<char>>|
                key is ArrayAttr && (#[trigger] entry_of(globals_in, key)) is Some ==> entry_of(
                    globals_in,
                    key,
                )->Some_0.contributors < usize::MAX,
            out@ == index_array_attrs(globals_in, m, k as int),
        decreases note_count - k,
    {
        let array = notes.name_at(k);
        let attrs = notes.value_at(k);
        let ghost before = out@;
        proof {
            assert(m.array_attrs[k as int] == (array@, attrs@));
            assert(keys_distinct(m.array_attrs[k as int].1));
            lemma_index_array_attrs(globals_in, m, k as int, ColumnKey::Array(Seq::empty()));
            lemma_not_yet(m.array_attrs, k as int);
        }
        let attr_count: usize = attrs.len();
        let mut j: usize = 0;
        while j < attr_count
            invariant
                j <= attr_count,
                attr_count == attrs@.len(),
                k < m.array_attrs.len(),
                m.array_attrs[k as int] == (array@, attrs@),
                keys_distinct(attrs@),
                distinct_names(m),
                distinct_entries(globals_in),
                distinct_entries(before),
                before == index_array_attrs(globals_in, m, k as int),
                value_of(m.array_attrs.take(k as int), array@) is None,
                forall|key: ColumnKey<Seq<char>>|
                    key is ArrayAttr && (#[trigger] entry_of(globals_in, key)) is Some ==> entry_of(
                        globals_in,
                        key,
                    )->Some_0.contributors < usize::MAX,
                out@ == index_notes(before, array@, attrs@, j as int),
            decreases attr_count - j,
        {
            let name = attrs.name_at(j);
            proof {
                let key = ColumnKey::ArrayAttr(array@, name@);
                lemma_index_notes(before, array@, attrs@, j as int, key);
                lemma_index_array_attrs(globals_in, m, k as int, key);
                lemma_not_yet(attrs@, j as int);
                assert(entry_of(out@, key) == entry_of(globals_in, key));
            }
            out.record_array_attr(array, name, attrs.value_at(j));
            j += 1;
        }
        k += 1;
    }
    out
}

/// A name does not occur in front of its place.
proof fn lemma_not_yet<V>(entries: Seq<(Seq<char>, V)>, n: int)
    requires
        keys_distinct(entries),
        0 <= n < entries.len(),
    ensures
        value_of(entries.take(n), entries[n].0) is None,
{
    let front = entries.take(n);
    if has_key(front, entries[n].0) {
        let i = key_index(front, entries[n].0);
        assert(front[i].0 == entries[n].0);
        assert(entries[i].0 != entries[n].0);
    }
}

fn rebuild(slots: &Table<Slot>, live: &Vec<bool>, pool: &Vec<Pooled>) -> (index: TypeIndex)
    requires
        live@.len() == slots@.len(),
        slots_resolve(slots@, pool@),
        forall|i: int|
            0 <= i < slots@.len() ==> distinct_names(
                (#[trigger] slot_models(slots@, pool@)[i]).1,
            ),
    ensures
        index@ == rebuilt(slot_models(slots@, pool@), live@, slots@.len() as int),
{
    let ghost datasets = slot_models(slots@, pool@);
    let count: usize = slots.len();
    let mut index = TypeIndex::new();
    let mut i: usize = 0;
    while i < count
        invariant
            i <= count,
            count == slots@.len(),
            live@.len() == slots@.len(),
            slots_resolve(slots@, pool@),
            datasets == slot_models(slots@, pool@),
            forall|i: int|
                0 <= i < datasets.len() ==> distinct_names((#[trigger] datasets[i]).1),
            index@ == rebuilt(datasets, live@, i as int),
        decreases count - i,
    {
        if live[i] {
            proof {
                assert forall|key: ColumnKey<Seq<char>>| (#[trigger] entry_of(
                    index@,
                    key,
                )) matches Some(m) implies entry_of(index@, key)->Some_0.contributors
                    < usize::MAX by {
                    lemma_rebuilt(datasets, live@, i as int, key);
                    lemma_types_bound(datasets, live@, key, i as int);
                }
            }
            index = index_one(index, schema_in(slots, pool, i));
        }
        i += 1;
    }
    index
}

/// Takes a dataset's schema out, to be changed and put back. A shared schema is
/// copied, so that the other datasets keep it as it is.
fn take_schema(slots: &mut Table<Slot>, pool: &Vec<Pooled>, name: &str) -> (schema: DatasetSchema)
    requires
        slots_resolve(old(slots)@, pool@),
    ensures
        keys_distinct(old(slots)@),
        schema@ == (match value_of(slot_models(old(slots)@, pool@), name@) {
            Some(m) => m,
            None => no_schema(),
        }),
        has_key(old(slots)@, name@) ==> exists|slot: Slot|
            final(slots)@ == #[trigger] old(slots)@.update(
                key_index(old(slots)@, name@),
                (name@, slot),
            ),
        !has_key(old(slots)@, name@) ==> final(slots)@ == old(slots)@,
{
    let ghost before = slots@;
    let place = slots.position(name);
    proof {
        lemma_slot_keys(before, pool@, name@);
    }
    match place {
        Some(i) => {
            let blank = Slot::Own(DatasetSchema::new());
            let ghost given = blank;
            let taken = slots.replace_at(i, blank);
            assert(slots@ == before.update(i as int, (name@, given)));
            match taken {
                Slot::Own(schema) => schema,
                Slot::Shared(at) => {
                    assert(before[i as int].1 == taken);
                    pool[at].schema.clone()
                },
            }
        },
        None => DatasetSchema::new(),
    }
}

/// Puts a dataset's schema in place. A new name goes to the end, and is live.
fn put_schema(slots: &mut Table<Slot>, live: &mut Vec<bool>, name: &str, schema: DatasetSchema)
    ensures
        final(slots)@ == with_entry(old(slots)@, name@, Slot::Own(schema)),
        final(live)@ == (if has_key(old(slots)@, name@) {
            old(live)@
        } else {
            old(live)@.push(true)
        }),
{
    let slot = Slot::Own(schema);
    match slots.position(name) {
        Some(i) => {
            let ghost before = slots@;
            slots.replace_at(i, slot);
            assert(slots@ =~= with_entry(before, name@, slot));
        },
        None => {
            slots.insert(name.to_owned(), slot);
            live.push(true);
        },
    }
}

/// What a change of one dataset's schema does to all of them.
proof fn lemma_put_back(
    before: Seq<(Seq<char>, Slot)>,
    between: Seq<(Seq<char>, Slot)>,
    pool: Seq<Pooled>,
    name: Seq<char>,
    schema: DatasetSchema,
)
    requires
        keys_distinct(before),
        slots_resolve(before, pool),
        has_key(before, name) ==> exists|slot: Slot|
            between == #[trigger] before.update(key_index(before, name), (name, slot)),
        !has_key(before, name) ==> between == before,
    ensures
        ({
            let after = with_entry(between, name, Slot::Own(schema));
            &&& has_key(between, name) == has_key(before, name)
            &&& slot_models(after, pool) == with_entry(
                slot_models(before, pool),
                name,
                schema@,
            )
            &&& slots_resolve(after, pool)
            &&& !shares(after, name)
            &&& forall|other: Seq<char>|
                other != name ==> #[trigger] shares(after, other) == shares(before, other)
        }),
{
    let after = with_entry(between, name, Slot::Own(schema));
    lemma_slot_keys(before, pool, name);
    if has_key(before, name) {
        let i = key_index(before, name);
        assert(before[i].0 == name);
        let slot = choose|slot: Slot| between == #[trigger] before.update(i, (name, slot));
        assert(between =~= with_entry(before, name, slot));
        law_get_after_set(before, name, slot, name);
    }
    law_get_after_set(between, name, Slot::Own(schema), name);
    assert forall|other: Seq<char>| other != name implies #[trigger] shares(after, other) == shares(
        before,
        other,
    ) by {
        if has_key(before, name) {
            let i = key_index(before, name);
            assert(before[i].0 == name);
            let slot = choose|slot: Slot| between == #[trigger] before.update(i, (name, slot));
            assert(between =~= with_entry(before, name, slot));
            law_get_after_set(before, name, slot, other);
            law_get_after_set(between, name, Slot::Own(schema), other);
        } else {
            law_get_after_set(before, name, Slot::Own(schema), other);
        }
    }
    if has_key(before, name) {
        let i = key_index(before, name);
        assert(before[i].0 == name);
        let slot = choose|slot: Slot| between == #[trigger] before.update(i, (name, slot));
        assert(between[i].0 == name);
        assert forall|a: int, b: int| 0 <= a < b < between.len() implies #[trigger] between[a].0
            != #[trigger] between[b].0 by {
            assert(before[a].0 != before[b].0);
        }
        lemma_key_index(between, i);
        assert(after =~= before.update(i, (name, Slot::Own(schema))));
    }
    assert(slot_models(after, pool) =~= with_entry(slot_models(before, pool), name, schema@));
    assert forall|i: int| 0 <= i < after.len() implies (#[trigger] after[i].1 matches Slot::Shared(
        at,
    ) ==> at < pool.len()) by {
        if i < before.len() && after[i] == before[i] {
            assert(before[i].1 matches Slot::Shared(at) ==> at < pool.len());
        }
    }
}

impl Default for StoreMeta {
    fn default() -> (meta: Self)
        ensures
            meta@ == (StoreModel {
                version: 0,
                codec: Codec::Zstd,
                meta_epoch: 0,
                datasets: Seq::empty(),
                live: Seq::empty(),
                index: no_index(),
            }),
    {
        StoreMeta::blank(0, Codec::Zstd)
    }
}

/// There is room for one more dataset, or the name is not new.
pub open spec fn has_room(m: StoreModel, dataset: Seq<char>) -> bool {
    has_key(m.datasets, dataset) || m.datasets.len() < usize::MAX
}

impl StoreMeta {
    #[verifier::type_invariant]
    spec fn well_formed(self) -> bool {
        &&& sound(self@)
        &&& slots_resolve(self.datasets@, self.pool@)
        &&& pool_is_sound(self.pool@)
    }

    fn blank(version: u32, codec: Codec) -> (meta: Self)
        ensures
            meta@ == (StoreModel {
                version,
                codec,
                meta_epoch: 0,
                datasets: Seq::empty(),
                live: Seq::empty(),
                index: no_index(),
            }),
            meta.pool@.len() == 0,
    {
        let datasets: Table<Slot> = Table::new();
        let live: Vec<bool> = Vec::new();
        let pool: Vec<Pooled> = Vec::new();
        proof {
            assert(slot_models(datasets@, pool@) =~= Seq::empty());
            let empty = StoreModel {
                version,
                codec,
                meta_epoch: 0,
                datasets: Seq::empty(),
                live: Seq::empty(),
                index: no_index(),
            };
            lemma_reindexed(empty);
        }
        StoreMeta {
            version,
            codec,
            meta_epoch: 0,
            datasets,
            live,
            index: TypeIndex::new(),
            pool,
        }
    }

    /// An empty store's metadata at the current format version.
    pub fn new(codec: Codec) -> (meta: Self)
        ensures
            meta@ == (StoreModel {
                version: STORE_FORMAT_VERSION,
                codec,
                meta_epoch: 0,
                datasets: Seq::empty(),
                live: Seq::empty(),
                index: no_index(),
            }),
            meta.pooled_schemas().len() == 0,
    {
        StoreMeta::blank(STORE_FORMAT_VERSION, codec)
    }

    /// The schemas of the pool.
    pub closed spec fn pooled_schemas(&self) -> Seq<DatasetModel> {
        Seq::new(self.pool@.len(), |i: int| self.pool@[i].schema@)
    }

    /// Whether a dataset uses a schema of the pool.
    pub closed spec fn is_pooled(&self, dataset: Seq<char>) -> bool {
        shares(self.datasets@, dataset)
    }

    /// Every dataset but one uses a schema of the pool where it did before.
    pub open spec fn shares_as(&self, before: &StoreMeta, but: Seq<char>) -> bool {
        forall|other: Seq<char>|
            #![trigger self.is_pooled(other)]
            #![trigger before.is_pooled(other)]
            other != but ==> self.is_pooled(other) == before.is_pooled(other)
    }

    /// Whether every dataset uses a schema of the pool, so that datasets whose
    /// schemas say the same share one, and the pool holds no other schema.
    pub open spec fn is_shared_throughout(&self) -> bool {
        &&& forall|name: Seq<char>| #[trigger]
            self.is_pooled(name) <==> has_key(self@.datasets, name)
        &&& forall|n: int|
            0 <= n < self.pooled_schemas().len() ==> in_use(
                self@.datasets,
                #[trigger] self.pooled_schemas()[n],
            )
    }

    /// Declares `array` in `dataset`, and folds its type into the index.
    pub fn record_array(&mut self, dataset: &str, array: &str, schema: ArraySchema)
        requires
            has_room(old(self)@, dataset@),
        ensures
            final(self)@ == recorded(
                old(self)@,
                dataset@,
                (DatasetModel {
                    arrays: with_entry(current(old(self)@, dataset@).arrays, array@, schema@),
                    ..current(old(self)@, dataset@)
                }),
                ColumnKey::Array(array@),
                schema.dtype,
                schema.codec,
            ),
            sound(final(self)@),
            final(self).pooled_schemas() == old(self).pooled_schemas(),
            final(self).shares_as(old(self), dataset@),
            !final(self).is_pooled(dataset@),
    {
        let ghost start = self@;
        let dtype = schema.dtype.clone();
        let codec = schema.codec;
        let mut whole = StoreMeta::blank(0, codec);
        std::mem::swap(self, &mut whole);
        proof {
            use_type_invariant(&whole);
        }
        let StoreMeta {
            version,
            codec: default_codec,
            meta_epoch,
            mut datasets,
            mut live,
            mut index,
            pool,
        } = whole;
        let ghost before = datasets@;
        let ghost key = ColumnKey::Array(array@);
        let writable = match datasets.position(dataset) {
            Some(i) => live[i],
            None => true,
        };
        let count: usize = datasets.len();
        assert(start.datasets.len() == count);
        let mut edited = take_schema(&mut datasets, &pool, dataset);
        let ghost between = datasets@;
        let ghost earlier = edited@;
        proof {
            lemma_slot_keys(before, pool@, dataset@);
            use_type_invariant(&edited);
        }
        let ghost given = schema@;
        let previous = edited.register_array(array, schema);
        let ghost now = edited@;
        let ghost held = edited;
        proof {
            lemma_array_only(earlier, array@, given);
            lemma_put_back(before, between, pool@, dataset@, held);
            lemma_recorded(start, dataset@, now, key, dtype, codec);
        }
        put_schema(&mut datasets, &mut live, dataset, edited);
        match previous {
            Some(p) => {
                if !p.same(&dtype) {
                    proof {
                        lemma_with_schema(start, dataset@, now);
                    }
                    index = rebuild(&datasets, &live, &pool);
                }
            },
            None => {
                if writable {
                    index.record_array(array, &dtype, codec);
                }
            },
        }
        *self = StoreMeta {
            version,
            codec: default_codec,
            meta_epoch,
            datasets,
            live,
            index,
            pool,
        };
    }

    /// Records a dataset-level attribute key, or its new type.
    pub fn record_global_attr(&mut self, dataset: &str, key: &str, ty: DType)
        requires
            has_room(old(self)@, dataset@),
        ensures
            final(self)@ == recorded(
                old(self)@,
                dataset@,
                (DatasetModel {
                    global_attrs: with_entry(
                        current(old(self)@, dataset@).global_attrs,
                        key@,
                        ty,
                    ),
                    ..current(old(self)@, dataset@)
                }),
                ColumnKey::GlobalAttr(key@),
                ty,
                Codec::Zstd,
            ),
            sound(final(self)@),
            final(self).pooled_schemas() == old(self).pooled_schemas(),
            final(self).shares_as(old(self), dataset@),
            !final(self).is_pooled(dataset@),
    {
        let ghost start = self@;
        let mut whole = StoreMeta::blank(0, Codec::Zstd);
        std::mem::swap(self, &mut whole);
        proof {
            use_type_invariant(&whole);
        }
        let StoreMeta { version, codec, meta_epoch, mut datasets, mut live, mut index, pool } =
            whole;
        let ghost before = datasets@;
        let ghost column = ColumnKey::GlobalAttr(key@);
        let writable = match datasets.position(dataset) {
            Some(i) => live[i],
            None => true,
        };
        let count: usize = datasets.len();
        assert(start.datasets.len() == count);
        let mut edited = take_schema(&mut datasets, &pool, dataset);
        let ghost between = datasets@;
        let ghost earlier = edited@;
        proof {
            lemma_slot_keys(before, pool@, dataset@);
            use_type_invariant(&edited);
        }
        let previous = edited.register_global_attr(key, ty.clone());
        let ghost now = edited@;
        let ghost held = edited;
        proof {
            lemma_global_only(earlier, key@, ty);
            lemma_put_back(before, between, pool@, dataset@, held);
            lemma_recorded(start, dataset@, now, column, ty, Codec::Zstd);
        }
        put_schema(&mut datasets, &mut live, dataset, edited);
        match previous {
            Some(p) => {
                if !p.same(&ty) {
                    proof {
                        lemma_with_schema(start, dataset@, now);
                    }
                    index = rebuild(&datasets, &live, &pool);
                }
            },
            None => {
                if writable {
                    index.record_global_attr(key, &ty);
                }
            },
        }
        *self = StoreMeta { version, codec, meta_epoch, datasets, live, index, pool };
    }

    /// Records an attribute key of an array, or its new type.
    pub fn record_array_attr(&mut self, dataset: &str, array: &str, key: &str, ty: DType)
        requires
            has_room(old(self)@, dataset@),
        ensures
            final(self)@ == recorded(
                old(self)@,
                dataset@,
                with_array_attr(current(old(self)@, dataset@), array@, key@, ty),
                ColumnKey::ArrayAttr(array@, key@),
                ty,
                Codec::Zstd,
            ),
            sound(final(self)@),
            final(self).pooled_schemas() == old(self).pooled_schemas(),
            final(self).shares_as(old(self), dataset@),
            !final(self).is_pooled(dataset@),
    {
        let ghost start = self@;
        let mut whole = StoreMeta::blank(0, Codec::Zstd);
        std::mem::swap(self, &mut whole);
        proof {
            use_type_invariant(&whole);
        }
        let StoreMeta { version, codec, meta_epoch, mut datasets, mut live, mut index, pool } =
            whole;
        let ghost before = datasets@;
        let ghost column = ColumnKey::ArrayAttr(array@, key@);
        let writable = match datasets.position(dataset) {
            Some(i) => live[i],
            None => true,
        };
        let count: usize = datasets.len();
        assert(start.datasets.len() == count);
        let mut edited = take_schema(&mut datasets, &pool, dataset);
        let ghost between = datasets@;
        let ghost earlier = edited@;
        proof {
            lemma_slot_keys(before, pool@, dataset@);
            use_type_invariant(&edited);
        }
        let previous = edited.register_array_attr(array, key, ty.clone());
        let ghost now = edited@;
        let ghost held = edited;
        proof {
            lemma_array_attr_only(earlier, array@, key@, ty);
            lemma_put_back(before, between, pool@, dataset@, held);
            lemma_recorded(start, dataset@, now, column, ty, Codec::Zstd);
        }
        put_schema(&mut datasets, &mut live, dataset, edited);
        match previous {
            Some(p) => {
                if !p.same(&ty) {
                    proof {
                        lemma_with_schema(start, dataset@, now);
                    }
                    index = rebuild(&datasets, &live, &pool);
                }
            },
            None => {
                if writable {
                    index.record_array_attr(array, key, &ty);
                }
            },
        }
        *self = StoreMeta { version, codec, meta_epoch, datasets, live, index, pool };
    }
}

/// The type a dataset gives a key.
fn pick(schema: &DatasetSchema, key: &ColumnKey<&str>) -> (ty: Option<DType>)
    ensures
        ty == type_in(schema@, key_model(*key)),
{
    match key {
        ColumnKey::Array(array) => {
            let arrays = schema.arrays();
            let found = arrays.get(array);
            proof {
                lemma_viewed(arrays@, array@);
            }
            match found {
                Some(a) => Some(a.dtype.clone()),
                None => None,
            }
        },
        ColumnKey::GlobalAttr(k) => match schema.global_attrs().get(k) {
            Some(ty) => Some(ty.clone()),
            None => None,
        },
        ColumnKey::ArrayAttr(array, k) => {
            let annotated = schema.array_attrs();
            let found = annotated.get(array);
            proof {
                lemma_viewed(annotated@, array@);
                assert(value_of(Seq::<(Seq<char>, DType)>::empty(), k@) is None);
            }
            match found {
                Some(attrs) => match attrs.get(k) {
                    Some(ty) => Some(ty.clone()),
                    None => None,
                },
                None => None,
            }
        },
    }
}

/// What a borrowed key names.
pub open spec fn key_model(key: ColumnKey<&str>) -> ColumnKey<Seq<char>> {
    match key {
        ColumnKey::Array(a) => ColumnKey::Array(a@),
        ColumnKey::GlobalAttr(k) => ColumnKey::GlobalAttr(k@),
        ColumnKey::ArrayAttr(a, k) => ColumnKey::ArrayAttr(a@, k@),
    }
}

/// A live dataset: its ordinal, its name and its schema.
#[derive(Debug)]
pub struct LiveDataset<'a> {
    /// The position of the dataset, and its row in the pruning index.
    pub ordinal: usize,
    /// Its name.
    pub name: &'a str,
    /// What it holds.
    pub schema: &'a DatasetSchema,
}

/// What some live datasets are.
pub open spec fn live_models(list: Seq<LiveDataset<'_>>) -> Seq<(Seq<char>, DatasetModel)> {
    Seq::new(list.len(), |i: int| (list[i].name@, list[i].schema@))
}

/// The ordinals of some live datasets.
pub open spec fn ordinals(list: Seq<LiveDataset<'_>>) -> Seq<int> {
    Seq::new(list.len(), |i: int| list[i].ordinal as int)
}

/// The schemas of some entries.
pub open spec fn schemas_of(entries: Seq<(Seq<char>, DatasetModel)>) -> Seq<DatasetModel> {
    Seq::new(entries.len(), |i: int| entries[i].1)
}

/// The names of some entries.
pub open spec fn names_of(entries: Seq<(Seq<char>, DatasetModel)>) -> Seq<Seq<char>> {
    Seq::new(entries.len(), |i: int| entries[i].0)
}

/// How many of the first `n` are live.
pub open spec fn count_live(live: Seq<bool>, n: int) -> nat {
    live_rows(live, n).len()
}

impl StoreMeta {
    /// Store format version.
    pub fn version(&self) -> (version: u32)
        ensures
            version == self@.version,
    {
        self.version
    }

    /// Codec used when new arrays are defined in this store.
    pub fn codec(&self) -> (codec: Codec)
        ensures
            codec == self@.codec,
    {
        self.codec
    }

    /// The counter that grows with every save. The pruning index carries the
    /// same number; where the two differ, the index is stale.
    pub fn meta_epoch(&self) -> (epoch: u64)
        ensures
            epoch == self@.meta_epoch,
    {
        self.meta_epoch
    }

    /// Sets the counter.
    pub fn set_meta_epoch(&mut self, epoch: u64)
        ensures
            final(self)@ == (StoreModel { meta_epoch: epoch, ..old(self)@ }),
            final(self).pooled_schemas() == old(self).pooled_schemas(),
            forall|name: Seq<char>| #[trigger]
                final(self).is_pooled(name) == old(self).is_pooled(name),
    {
        proof {
            use_type_invariant(&*self);
        }
        self.meta_epoch = epoch;
    }

    /// Number of row slots, live and tombstoned.
    pub fn row_slots(&self) -> (slots: usize)
        ensures
            slots == self@.datasets.len(),
            sound(self@),
    {
        proof {
            use_type_invariant(self);
        }
        self.datasets.len()
    }

    fn is_live_index(&self, i: usize) -> (live: bool)
        ensures
            live == (i < self@.live.len() && self@.live[i as int]),
    {
        i < self.live.len() && self.live[i]
    }

    /// Live datasets in ordinal order.
    pub fn live_datasets(&self) -> (list: Vec<LiveDataset<'_>>)
        ensures
            ordinals(list@) == live_rows(self@.live, self@.live.len() as int),
            live_models(list@) == live_entries(
                self@.datasets,
                self@.live,
                self@.datasets.len() as int,
            ),
    {
        proof {
            use_type_invariant(self);
        }
        let count: usize = self.datasets.len();
        let mut list: Vec<LiveDataset<'_>> = Vec::new();
        let mut i: usize = 0;
        assert(ordinals(list@) =~= Seq::empty());
        assert(live_models(list@) =~= Seq::empty());
        while i < count
            invariant
                i <= count,
                count == self.datasets@.len(),
                self.live@.len() == count,
                slots_resolve(self.datasets@, self.pool@),
                ordinals(list@) == live_rows(self.live@, i as int),
                live_models(list@) == live_entries(self@.datasets, self.live@, i as int),
            decreases count - i,
        {
            if self.live[i] {
                let ghost rows = ordinals(list@);
                let ghost models = live_models(list@);
                let item = LiveDataset {
                    ordinal: i,
                    name: self.datasets.name_at(i),
                    schema: schema_in(&self.datasets, &self.pool, i),
                };
                list.push(item);
                assert(ordinals(list@) =~= rows.push(i as int));
                assert(live_models(list@) =~= models.push(self@.datasets[i as int]));
            }
            i += 1;
        }
        list
    }

    /// Live schemas only, in ordinal order.
    pub fn live_schemas(&self) -> (list: Vec<&DatasetSchema>)
        ensures
            models_of(list@) == schemas_of(
                live_entries(self@.datasets, self@.live, self@.datasets.len() as int),
            ),
    {
        let datasets = self.live_datasets();
        let ghost all = live_models(datasets@);
        let mut list: Vec<&DatasetSchema> = Vec::new();
        let mut i: usize = 0;
        while i < datasets.len()
            invariant
                i <= datasets@.len(),
                all == live_models(datasets@),
                list@.len() == i,
                forall|j: int| 0 <= j < i ==> (#[trigger] list@[j])@ == all[j].1,
            decreases datasets@.len() - i,
        {
            list.push(datasets[i].schema);
            i += 1;
        }
        assert(models_of(list@) =~= schemas_of(all));
        list
    }

    /// Names of the live datasets, in ordinal order.
    pub fn live_names(&self) -> (names: Vec<String>)
        ensures
            texts(names@) == names_of(
                live_entries(self@.datasets, self@.live, self@.datasets.len() as int),
            ),
    {
        let datasets = self.live_datasets();
        let ghost all = live_models(datasets@);
        let mut names: Vec<String> = Vec::new();
        let mut i: usize = 0;
        while i < datasets.len()
            invariant
                i <= datasets@.len(),
                all == live_models(datasets@),
                names@.len() == i,
                forall|j: int| 0 <= j < i ==> (#[trigger] names@[j])@ == all[j].0,
            decreases datasets@.len() - i,
        {
            names.push(datasets[i].name.to_owned());
            i += 1;
        }
        assert(texts(names@) =~= names_of(all));
        names
    }

    /// How many datasets exist, tombstones excluded.
    pub fn live_count(&self) -> (count: usize)
        ensures
            count == count_live(self@.live, self@.live.len() as int),
    {
        let list = self.live_datasets();
        assert(ordinals(list@).len() == list@.len());
        list.len()
    }

    /// Ordinal of `name` if it is live.
    pub fn live_ordinal(&self, name: &str) -> (ordinal: Option<usize>)
        ensures
            match ordinal {
                Some(i) => {
                    &&& has_key(self@.datasets, name@)
                    &&& i == key_index(self@.datasets, name@)
                    &&& self@.live[i as int]
                },
                None => has_key(self@.datasets, name@) ==> !self@.live[key_index(
                    self@.datasets,
                    name@,
                )],
            },
    {
        proof {
            use_type_invariant(self);
        }
        let place = self.datasets.position(name);
        proof {
            lemma_slot_keys(self.datasets@, self.pool@, name@);
        }
        match place {
            Some(i) => {
                if self.is_live_index(i) {
                    Some(i)
                } else {
                    None
                }
            },
            None => None,
        }
    }

    /// Whether `name` exists and is not a tombstone.
    pub fn is_live(&self, name: &str) -> (live: bool)
        ensures
            live == (has_key(self@.datasets, name@) && self@.live[key_index(
                self@.datasets,
                name@,
            )]),
    {
        self.live_ordinal(name).is_some()
    }

    /// Schema of `name`, or `None` if it is absent or a tombstone.
    pub fn live_schema(&self, name: &str) -> (schema: Option<&DatasetSchema>)
        ensures
            match schema {
                Some(s) => {
                    &&& has_key(self@.datasets, name@)
                    &&& self@.live[key_index(self@.datasets, name@)]
                    &&& s@ == self@.datasets[key_index(self@.datasets, name@)].1
                },
                None => has_key(self@.datasets, name@) ==> !self@.live[key_index(
                    self@.datasets,
                    name@,
                )],
            },
    {
        proof {
            use_type_invariant(self);
        }
        match self.live_ordinal(name) {
            Some(i) => {
                assert(self@.datasets[i as int].0 == name@);
                Some(schema_in(&self.datasets, &self.pool, i))
            },
            None => None,
        }
    }

    /// The liveness of each row slot.
    pub fn live_mask(&self) -> (mask: Vec<bool>)
        ensures
            mask@ == self@.live,
    {
        let mut mask: Vec<bool> = Vec::new();
        let mut i: usize = 0;
        while i < self.live.len()
            invariant
                i <= self.live@.len(),
                mask@ == self.live@.take(i as int),
            decreases self.live@.len() - i,
        {
            mask.push(self.live[i]);
            assert(mask@ =~= self.live@.take(i + 1));
            i += 1;
        }
        assert(self.live@.take(i as int) =~= self.live@);
        mask
    }

    /// The name of the dataset at a row slot, live or not.
    pub fn name_at(&self, row: usize) -> (name: &str)
        requires
            row < self@.datasets.len(),
        ensures
            name@ == self@.datasets[row as int].0,
    {
        self.datasets.name_at(row)
    }

    /// The schema of the dataset at a row slot, live or not.
    pub fn schema_at(&self, row: usize) -> (schema: &DatasetSchema)
        requires
            row < self@.datasets.len(),
        ensures
            schema@ == self@.datasets[row as int].1,
    {
        proof {
            use_type_invariant(self);
        }
        schema_in(&self.datasets, &self.pool, row)
    }

    /// Dataset name per row slot; `None` for tombstones.
    pub fn names_by_row(&self) -> (names: Vec<Option<String>>)
        ensures
            names@.len() == self@.datasets.len(),
            forall|i: int|
                0 <= i < names@.len() ==> (match #[trigger] names@[i] {
                    Some(name) => self@.live[i] && name@ == self@.datasets[i].0,
                    None => !self@.live[i],
                }),
    {
        proof {
            use_type_invariant(self);
        }
        let count: usize = self.datasets.len();
        let mut names: Vec<Option<String>> = Vec::new();
        let mut i: usize = 0;
        while i < count
            invariant
                i <= count,
                count == self.datasets@.len(),
                self.live@.len() == count,
                names@.len() == i,
                forall|j: int|
                    0 <= j < i ==> (match #[trigger] names@[j] {
                        Some(name) => self.live@[j] && name@ == self@.datasets[j].0,
                        None => !self.live@[j],
                    }),
            decreases count - i,
        {
            if self.live[i] {
                names.push(Some(self.datasets.name_at(i).to_owned()));
            } else {
                names.push(None);
            }
            i += 1;
        }
        names
    }

    /// Ordinals of the tombstones, in order.
    pub fn deleted_ordinals(&self) -> (list: Vec<u32>)
        requires
            self@.live.len() <= 0x1_0000_0000,
        ensures
            list@ == dead_rows(self@.live, self@.live.len() as int),
    {
        let mut list: Vec<u32> = Vec::new();
        let mut i: usize = 0;
        assert(list@ =~= Seq::empty());
        while i < self.live.len()
            invariant
                i <= self.live@.len(),
                self.live@.len() <= 0x1_0000_0000,
                list@ == dead_rows(self.live@, i as int),
            decreases self.live@.len() - i,
        {
            if !self.live[i] {
                list.push(i as u32);
            }
            i += 1;
        }
        list
    }

    /// The merged type of a key over every live dataset but one, by looking at
    /// each of them.
    fn scan_other(&self, exclude: &str, key: &ColumnKey<&str>) -> (found: Option<DType>)
        ensures
            found == scan_of(
                self@.datasets,
                self@.live,
                exclude@,
                key_model(*key),
                self@.datasets.len() as int,
            ),
    {
        proof {
            use_type_invariant(self);
        }
        let count: usize = self.datasets.len();
        let mut found: Option<DType> = None;
        let mut i: usize = 0;
        while i < count
            invariant
                i <= count,
                count == self.datasets@.len(),
                self.live@.len() == count,
                slots_resolve(self.datasets@, self.pool@),
                found == scan_of(
                    self@.datasets,
                    self.live@,
                    exclude@,
                    key_model(*key),
                    i as int,
                ),
            decreases count - i,
        {
            if self.live[i] && !same_text(self.datasets.name_at(i), exclude) {
                match pick(schema_in(&self.datasets, &self.pool, i), key) {
                    Some(ty) => {
                        found = Some(
                            match found {
                                Some(a) => match widen_dtype(&a, &ty) {
                                    Some(w) => w,
                                    None => a,
                                },
                                None => ty,
                            },
                        );
                    },
                    None => {},
                }
            }
            i += 1;
        }
        found
    }

    fn resolve(&self, constraint: Option<Constraint>, exclude: &str, key: &ColumnKey<&str>) -> (ty:
        Option<DType>)
        requires
            constraint == answer_of(
                self@.index,
                key_model(*key),
                declares(self@, exclude@, key_model(*key)),
            ),
        ensures
            ty == other_type(self@, exclude@, key_model(*key)),
    {
        match constraint {
            None => None,
            Some(Constraint::Unconstrained) => None,
            Some(Constraint::Type(d)) => Some(d),
            Some(Constraint::NeedsScan) => self.scan_other(exclude, key),
        }
    }

    fn owner_declares(&self, exclude: &str, key: &ColumnKey<&str>) -> (found: bool)
        ensures
            found == declares(self@, exclude@, key_model(*key)),
            found ==> (entry_of(self@.index, key_model(*key)) matches Some(e) && e.contributors
                >= 1),
    {
        proof {
            use_type_invariant(self);
        }
        let found = match self.live_schema(exclude) {
            Some(schema) => pick(schema, key).is_some(),
            None => false,
        };
        proof {
            if found {
                lemma_owner_contributes(self@, exclude@, key_model(*key));
            }
        }
        found
    }

    /// The type that an array write from `exclude` must merge with, or `None`
    /// if no other live dataset declares the array. A type is accepted against
    /// it exactly when it is accepted against the merged type of all other
    /// live datasets.
    pub fn other_array_dtype(&self, exclude: &str, array: &str) -> (ty: Option<DType>)
        ensures
            ty == other_type(self@, exclude@, ColumnKey::Array(array@)),
            forall|new: DType| #[trigger]
                accepts(ty, new) == accepts(
                    scan_of(
                        self@.datasets,
                        self@.live,
                        exclude@,
                        ColumnKey::Array(array@),
                        self@.datasets.len() as int,
                    ),
                    new,
                ),
    {
        let key: ColumnKey<&str> = ColumnKey::Array(array);
        let owner = self.owner_declares(exclude, &key);
        let ty = self.resolve(self.index.array_constraint(array, owner), exclude, &key);
        proof {
            use_type_invariant(self);
            assert forall|new: DType| #[trigger] accepts(ty, new) == accepts(
                scan_of(
                    self@.datasets,
                    self@.live,
                    exclude@,
                    ColumnKey::Array(array@),
                    self@.datasets.len() as int,
                ),
                new,
            ) by {
                law_index_decides_as_a_scan(self@, exclude@, key_model(key), new);
            }
        }
        ty
    }

    /// As [`other_array_dtype`](Self::other_array_dtype), for a dataset-level
    /// attribute key.
    pub fn other_global_attr_dtype(&self, exclude: &str, key: &str) -> (ty: Option<DType>)
        ensures
            ty == other_type(self@, exclude@, ColumnKey::GlobalAttr(key@)),
            forall|new: DType| #[trigger]
                accepts(ty, new) == accepts(
                    scan_of(
                        self@.datasets,
                        self@.live,
                        exclude@,
                        ColumnKey::GlobalAttr(key@),
                        self@.datasets.len() as int,
                    ),
                    new,
                ),
    {
        let column: ColumnKey<&str> = ColumnKey::GlobalAttr(key);
        let owner = self.owner_declares(exclude, &column);
        let ty = self.resolve(self.index.global_attr_constraint(key, owner), exclude, &column);
        proof {
            use_type_invariant(self);
            assert forall|new: DType| #[trigger] accepts(ty, new) == accepts(
                scan_of(
                    self@.datasets,
                    self@.live,
                    exclude@,
                    ColumnKey::GlobalAttr(key@),
                    self@.datasets.len() as int,
                ),
                new,
            ) by {
                law_index_decides_as_a_scan(self@, exclude@, key_model(column), new);
            }
        }
        ty
    }

    /// As [`other_array_dtype`](Self::other_array_dtype), for an attribute key
    /// of an array.
    pub fn other_array_attr_dtype(&self, exclude: &str, array: &str, key: &str) -> (ty: Option<
        DType,
    >)
        ensures
            ty == other_type(self@, exclude@, ColumnKey::ArrayAttr(array@, key@)),
            forall|new: DType| #[trigger]
                accepts(ty, new) == accepts(
                    scan_of(
                        self@.datasets,
                        self@.live,
                        exclude@,
                        ColumnKey::ArrayAttr(array@, key@),
                        self@.datasets.len() as int,
                    ),
                    new,
                ),
    {
        let column: ColumnKey<&str> = ColumnKey::ArrayAttr(array, key);
        let owner = self.owner_declares(exclude, &column);
        let ty = self.resolve(
            self.index.array_attr_constraint(array, key, owner),
            exclude,
            &column,
        );
        proof {
            use_type_invariant(self);
            assert forall|new: DType| #[trigger] accepts(ty, new) == accepts(
                scan_of(
                    self@.datasets,
                    self@.live,
                    exclude@,
                    ColumnKey::ArrayAttr(array@, key@),
                    self@.datasets.len() as int,
                ),
                new,
            ) by {
                law_index_decides_as_a_scan(self@, exclude@, key_model(column), new);
            }
        }
        ty
    }

    /// Codec of the file that backs `array`, from the first declaration of the
    /// name.
    pub fn array_file_codec(&self, array: &str) -> (codec: Option<Codec>)
        ensures
            codec == codec_of(self@.index, array@),
    {
        self.index.array_codec(array)
    }

    /// Whether an array holds types that do not merge.
    pub fn array_is_conflicted(&self, array: &str) -> (conflicted: bool)
        ensures
            conflicted == (entry_of(self@.index, ColumnKey::Array(array@)) matches Some(m)
                && m.conflicted),
    {
        self.index.array_is_conflicted(array)
    }

    /// The collection-wide merged schema over the live datasets.
    pub fn merged_schema(&self) -> (merged: MergedSchema)
        ensures
            merged@ == merged_of(
                schemas_of(live_entries(self@.datasets, self@.live, self@.datasets.len() as int)),
            ),
    {
        compute_merged(&self.live_schemas())
    }
}

/// The ordinals of the tombstones among the first `n`.
pub open spec fn dead_rows(live: Seq<bool>, n: int) -> Seq<u32>
    decreases n,
{
    if n <= 0 {
        Seq::empty()
    } else if live[n - 1] {
        dead_rows(live, n - 1)
    } else {
        dead_rows(live, n - 1).push((n - 1) as u32)
    }
}

/// A pool with more schemas at its end gives the slots what they had.
proof fn lemma_longer_pool(
    slots: Seq<(Seq<char>, Slot)>,
    pool: Seq<Pooled>,
    longer: Seq<Pooled>,
)
    requires
        slots_resolve(slots, pool),
        pool.len() <= longer.len(),
        forall|i: int| 0 <= i < pool.len() ==> (#[trigger] longer[i]) == pool[i],
    ensures
        slots_resolve(slots, longer),
        slot_models(slots, longer) == slot_models(slots, pool),
{
    assert forall|i: int| 0 <= i < slots.len() implies (#[trigger] slots[i].1 matches Slot::Shared(
        at,
    ) ==> at < longer.len()) by {
        assert(slots[i].1 matches Slot::Shared(at) ==> at < pool.len());
    }
    assert forall|i: int| 0 <= i < slots.len() implies slot_model(
        (#[trigger] slots[i]).1,
        longer,
    ) == slot_model(slots[i].1, pool) by {
        assert(slots[i].1 matches Slot::Shared(at) ==> at < pool.len());
    }
    assert(slot_models(slots, longer) =~= slot_models(slots, pool));
}

/// The place of a schema in the pool. One that says the same is shared;
/// otherwise the schema joins the pool.
fn intern(pool: &mut Vec<Pooled>, schema: DatasetSchema) -> (place: usize)
    requires
        pool_is_sound(old(pool)@),
    ensures
        pool_is_sound(final(pool)@),
        place < final(pool)@.len(),
        final(pool)@[place as int].schema@ == schema@,
        (exists|i: int| 0 <= i < old(pool)@.len() && (#[trigger] old(pool)@[i]).schema@ == schema@)
            ==> final(pool)@ == old(pool)@,
        !(exists|i: int|
            0 <= i < old(pool)@.len() && (#[trigger] old(pool)@[i]).schema@ == schema@)
            ==> final(pool)@.len() == old(pool)@.len() + 1 && place == old(pool)@.len(),
        old(pool)@.len() <= final(pool)@.len(),
        forall|i: int| 0 <= i < old(pool)@.len() ==> (#[trigger] final(pool)@[i]) == old(pool)@[i],
{
    let hash: u64 = schema_hash(&schema);
    let mut i: usize = 0;
    while i < pool.len()
        invariant
            i <= pool@.len(),
            pool@ == old(pool)@,
            pool_is_sound(pool@),
            hash == hash_of(schema@),
            forall|j: int| 0 <= j < i ==> (#[trigger] pool@[j]).schema@ != schema@,
        decreases pool@.len() - i,
    {
        if pool[i].hash == hash && pool[i].schema.same(&schema) {
            return i;
        }
        i += 1;
    }
    proof {
        use_type_invariant(&schema);
    }
    pool.push(Pooled { hash, schema });
    i
}

impl StoreMeta {
    /// Registers `name` as a live dataset, and returns its ordinal. A name
    /// that is already there keeps its slot and starts from an empty schema;
    /// a new one goes to the end.
    pub fn add_dataset(&mut self, name: &str) -> (ordinal: usize)
        requires
            has_room(old(self)@, name@),
        ensures
            final(self)@ == (if has_key(old(self)@.datasets, name@) {
                reindexed(placed(old(self)@, name@, no_schema()))
            } else {
                placed(old(self)@, name@, no_schema())
            }),
            ordinal == (if has_key(old(self)@.datasets, name@) {
                key_index(old(self)@.datasets, name@)
            } else {
                old(self)@.datasets.len() as int
            }),
            final(self).pooled_schemas() == old(self).pooled_schemas(),
            final(self).shares_as(old(self), name@),
            !final(self).is_pooled(name@),
    {
        let ghost start = self@;
        let count: usize = self.row_slots();
        match self.place_of(name) {
            Some(i) => {
                self.insert_dataset(name, DatasetSchema::new());
                i
            },
            None => {
                let mut whole = StoreMeta::blank(0, Codec::Zstd);
                std::mem::swap(self, &mut whole);
                proof {
                    use_type_invariant(&whole);
                    lemma_placed_new(start, name@);
                }
                let StoreMeta {
                    version,
                    codec,
                    meta_epoch,
                    mut datasets,
                    mut live,
                    index,
                    pool,
                } = whole;
                let ghost before = datasets@;
                let schema = DatasetSchema::new();
                let ghost held = schema;
                put_schema(&mut datasets, &mut live, name, schema);
                proof {
                    lemma_slots_distinct(before, pool@, start);
                    lemma_slot_keys(before, pool@, name@);
                    lemma_put_back(before, before, pool@, name@, held);
                }
                *self = StoreMeta { version, codec, meta_epoch, datasets, live, index, pool };
                count
            },
        }
    }

    /// The ordinal of a name, live or not.
    fn place_of(&self, name: &str) -> (place: Option<usize>)
        ensures
            match place {
                Some(i) => has_key(self@.datasets, name@) && i == key_index(self@.datasets, name@),
                None => !has_key(self@.datasets, name@),
            },
    {
        let place = self.datasets.position(name);
        proof {
            lemma_slot_keys(self.datasets@, self.pool@, name@);
        }
        place
    }

    /// Puts a dataset with this schema in place, live.
    pub fn insert_dataset(&mut self, name: &str, schema: DatasetSchema)
        requires
            has_room(old(self)@, name@),
        ensures
            final(self)@ == reindexed(placed(old(self)@, name@, schema@)),
            final(self).pooled_schemas() == old(self).pooled_schemas(),
            final(self).shares_as(old(self), name@),
            !final(self).is_pooled(name@),
    {
        let ghost start = self@;
        let mut whole = StoreMeta::blank(0, Codec::Zstd);
        std::mem::swap(self, &mut whole);
        proof {
            use_type_invariant(&whole);
            use_type_invariant(&schema);
        }
        let StoreMeta { version, codec, meta_epoch, mut datasets, mut live, index: _, pool } =
            whole;
        let ghost before = datasets@;
        let place = datasets.position(name);
        let ghost held = schema;
        put_schema(&mut datasets, &mut live, name, schema);
        proof {
            lemma_slot_keys(before, pool@, name@);
            if has_key(before, name@) {
                let i = key_index(before, name@);
                assert(before[i].0 == name@);
                assert(before == before.update(i, (name@, before[i].1)));
            }
            lemma_put_back(before, before, pool@, name@, held);
            lemma_with_schema(start, name@, held@);
        }
        match place {
            Some(i) => {
                live.set(i, true);
            },
            None => {},
        }
        proof {
            let after = placed(start, name@, held@);
            assert(slot_models(datasets@, pool@) == after.datasets);
            assert(live@ =~= after.live);
            assert(after.datasets.len() == datasets@.len());
        }
        let total: usize = datasets.len();
        let index = rebuild(&datasets, &live, &pool);
        proof {
            lemma_reindexed(placed(start, name@, held@));
        }
        *self = StoreMeta { version, codec, meta_epoch, datasets, live, index, pool };
    }

    /// Drops `array` and its attribute keys from `dataset`.
    pub fn unrecord_array(&mut self, dataset: &str, array: &str)
        ensures
            final(self)@ == (if has_key(old(self)@.datasets, dataset@) {
                let schema = current(old(self)@, dataset@);
                reindexed(
                    with_schema(
                        old(self)@,
                        dataset@,
                        DatasetModel {
                            arrays: without_entry(schema.arrays, array@),
                            array_attrs: without_entry(schema.array_attrs, array@),
                            ..schema
                        },
                    ),
                )
            } else {
                reindexed(old(self)@)
            }),
            final(self).pooled_schemas() == old(self).pooled_schemas(),
            final(self).shares_as(old(self), dataset@),
            !final(self).is_pooled(dataset@),
    {
        let ghost start = self@;
        let mut whole = StoreMeta::blank(0, Codec::Zstd);
        std::mem::swap(self, &mut whole);
        proof {
            use_type_invariant(&whole);
        }
        let StoreMeta { version, codec, meta_epoch, mut datasets, mut live, index: _, pool } =
            whole;
        let ghost before = datasets@;
        let count: usize = datasets.len();
        let known = datasets.contains(dataset);
        proof {
            lemma_slot_keys(before, pool@, dataset@);
        }
        if known {
            let mut edited = take_schema(&mut datasets, &pool, dataset);
            let ghost between = datasets@;
            edited.unregister_array(array);
            let ghost held = edited;
            proof {
                use_type_invariant(&edited);
                lemma_put_back(before, between, pool@, dataset@, held);
                lemma_with_schema(start, dataset@, held@);
            }
            put_schema(&mut datasets, &mut live, dataset, edited);
        }
        let total: usize = datasets.len();
        let index = rebuild(&datasets, &live, &pool);
        proof {
            let after = StoreModel {
                datasets: slot_models(datasets@, pool@),
                live: live@,
                ..start
            };
            lemma_reindexed(after);
        }
        *self = StoreMeta { version, codec, meta_epoch, datasets, live, index, pool };
    }

    /// Marks `dataset` as deleted, and returns its schema. The entry keeps its
    /// slot, so every later dataset keeps its ordinal. `None` if the dataset
    /// is absent or already deleted.
    pub fn unrecord_dataset(&mut self, dataset: &str) -> (schema: Option<DatasetSchema>)
        ensures
            match schema {
                Some(s) => {
                    &&& has_key(old(self)@.datasets, dataset@)
                    &&& old(self)@.live[key_index(old(self)@.datasets, dataset@)]
                    &&& s@ == old(self)@.datasets[key_index(old(self)@.datasets, dataset@)].1
                    &&& final(self)@ == deleted(old(self)@, dataset@)
                },
                None => {
                    &&& has_key(old(self)@.datasets, dataset@) ==> !old(self)@.live[key_index(
                        old(self)@.datasets,
                        dataset@,
                    )]
                    &&& final(self)@ == old(self)@
                },
            },
            final(self).pooled_schemas() == old(self).pooled_schemas(),
            forall|name: Seq<char>| #[trigger]
                final(self).is_pooled(name) == old(self).is_pooled(name),
    {
        let ghost start = self@;
        match self.live_ordinal(dataset) {
            None => None,
            Some(i) => {
                assert(start.datasets[i as int].0 == dataset@);
                let schema = self.schema_at(i).clone();
                let mut whole = StoreMeta::blank(0, Codec::Zstd);
                std::mem::swap(self, &mut whole);
                proof {
                    use_type_invariant(&whole);
                }
                let StoreMeta {
                    version,
                    codec,
                    meta_epoch,
                    datasets,
                    mut live,
                    index: _,
                    pool,
                } = whole;
                live.set(i, false);
                let total: usize = datasets.len();
                let index = rebuild(&datasets, &live, &pool);
                proof {
                    lemma_reindexed(StoreModel { live: live@, ..start });
                }
                *self = StoreMeta { version, codec, meta_epoch, datasets, live, index, pool };
                Some(schema)
            },
        }
    }

    /// Gives `dataset` a shared schema: one of the pool that says the same, or
    /// its own, which then joins the pool.
    pub fn seal_dataset(&mut self, dataset: &str)
        ensures
            final(self)@ == old(self)@,
            has_key(old(self)@.datasets, dataset@) ==> final(self).is_pooled(dataset@),
            has_key(old(self)@.datasets, dataset@) && !old(self).is_pooled(dataset@) ==> ({
                let schema = current(old(self)@, dataset@);
                if old(self).pooled_schemas().contains(schema) {
                    final(self).pooled_schemas() == old(self).pooled_schemas()
                } else {
                    final(self).pooled_schemas() == old(self).pooled_schemas().push(schema)
                }
            }),
            !has_key(old(self)@.datasets, dataset@) || old(self).is_pooled(dataset@)
                ==> final(self).pooled_schemas() == old(self).pooled_schemas(),
            final(self).shares_as(old(self), dataset@),
    {
        let ghost start = self@;
        let ghost initial = *self;
        let place = self.datasets.position(dataset);
        proof {
            lemma_slot_keys(self.datasets@, self.pool@, dataset@);
        }
        match place {
            None => {},
            Some(i) => {
                let own = match self.datasets.value_at(i) {
                    Slot::Own(_) => true,
                    Slot::Shared(_) => false,
                };
                if own {
                    let mut whole = StoreMeta::blank(0, Codec::Zstd);
                    std::mem::swap(self, &mut whole);
                    proof {
                        use_type_invariant(&whole);
                    }
                    let StoreMeta {
                        version,
                        codec,
                        meta_epoch,
                        mut datasets,
                        live,
                        index,
                        mut pool,
                    } = whole;
                    let ghost before = datasets@;
                    let ghost old_pool = pool@;
                    match datasets.replace_at(i, Slot::Shared(0)) {
                        Slot::Own(schema) => {
                            let ghost model = schema@;
                            let at: usize = intern(&mut pool, schema);
                            datasets.replace_at(i, Slot::Shared(at));
                            proof {
                                lemma_longer_pool(before, old_pool, pool@);
                                assert(datasets@ =~= before.update(
                                    i as int,
                                    (dataset@, Slot::Shared(at)),
                                ));
                                assert(slot_models(datasets@, pool@) =~= slot_models(
                                    before,
                                    pool@,
                                ));
                                assert forall|k: int| 0 <= k < datasets@.len() implies (
                                #[trigger] datasets@[k].1 matches Slot::Shared(p) ==> p
                                    < pool@.len()) by {
                                    assert(before[k].1 matches Slot::Shared(p) ==> p
                                        < pool@.len());
                                }
                                lemma_key_index(datasets@, i as int);
                                let known = initial.pooled_schemas();
                                assert(model == current(start, dataset@));
                                if known.contains(model) {
                                    let k = known.index_of(model);
                                    assert(old_pool[k].schema@ == model);
                                    assert(Seq::new(
                                        pool@.len(),
                                        |n: int| pool@[n].schema@,
                                    ) =~= known);
                                } else {
                                    assert forall|k: int| 0 <= k < old_pool.len() implies (
                                    #[trigger] old_pool[k]).schema@ != model by {
                                        assert(known[k] == old_pool[k].schema@);
                                    }
                                    assert(Seq::new(
                                        pool@.len(),
                                        |n: int| pool@[n].schema@,
                                    ) =~= known.push(model));
                                }
                                assert forall|other: Seq<char>| #[trigger]
                                    initial.is_pooled(other) implies value_of(
                                    datasets@,
                                    other,
                                ) matches Some(Slot::Shared(_)) by {
                                    let k = key_index(before, other);
                                    assert(before[k].0 == other);
                                    assert(datasets@[k].0 == other);
                                    lemma_key_index(datasets@, k);
                                }
                            }
                        },
                        Slot::Shared(_) => {},
                    }
                    *self = StoreMeta { version, codec, meta_epoch, datasets, live, index, pool };
                }
            },
        }
    }

    /// How many distinct schemas the sealed datasets share.
    pub fn pool_len(&self) -> (len: usize)
        ensures
            len == self.pooled_schemas().len(),
            self.pooled_schemas().no_duplicates(),
    {
        proof {
            use_type_invariant(self);
            assert forall|i: int, j: int|
                0 <= i < self.pooled_schemas().len() && 0 <= j < self.pooled_schemas().len() && i
                    != j implies self.pooled_schemas()[i] != self.pooled_schemas()[j] by {
                if i < j {
                    assert(self.pool@[i].schema@ != self.pool@[j].schema@);
                } else {
                    assert(self.pool@[j].schema@ != self.pool@[i].schema@);
                }
            }
        }
        self.pool.len()
    }

    /// Whether two datasets share one schema of the pool. Sealed datasets do
    /// exactly when their schemas say the same.
    pub fn shares_schema(&self, a: &str, b: &str) -> (shared: bool)
        ensures
            shared == (self.is_pooled(a@) && self.is_pooled(b@) && current(self@, a@) == current(
                self@,
                b@,
            )),
    {
        proof {
            use_type_invariant(self);
        }
        let first = self.datasets.get(a);
        let second = self.datasets.get(b);
        proof {
            lemma_slot_keys(self.datasets@, self.pool@, a@);
            lemma_slot_keys(self.datasets@, self.pool@, b@);
        }
        match (first, second) {
            (Some(Slot::Shared(i)), Some(Slot::Shared(j))) => {
                proof {
                    let p = key_index(self.datasets@, a@);
                    let q = key_index(self.datasets@, b@);
                    assert(self.datasets@[p].1 matches Slot::Shared(at) ==> at < self.pool@.len());
                    assert(self.datasets@[q].1 matches Slot::Shared(at) ==> at < self.pool@.len());
                    if *i < *j {
                        assert(self.pool@[*i as int].schema@ != self.pool@[*j as int].schema@);
                    } else if *j < *i {
                        assert(self.pool@[*j as int].schema@ != self.pool@[*i as int].schema@);
                    }
                }
                *i == *j
            },
            _ => false,
        }
    }
}

/// Slots have distinct names where the datasets have.
proof fn lemma_slots_distinct(slots: Seq<(Seq<char>, Slot)>, pool: Seq<Pooled>, m: StoreModel)
    requires
        keys_distinct(m.datasets),
        slot_models(slots, pool) == m.datasets,
    ensures
        keys_distinct(slots),
{
    assert forall|i: int, j: int| 0 <= i < j < slots.len() implies #[trigger] slots[i].0
        != #[trigger] slots[j].0 by {
        assert(m.datasets[i].0 == slots[i].0);
        assert(m.datasets[j].0 == slots[j].0);
        assert(m.datasets[i].0 != m.datasets[j].0);
    }
}

/// The schemas in use, gathered anew: `places[old]` is the new place of an old
/// pool position, where it is in use.
spec fn renumbered(places: Seq<Option<usize>>, old_pool: Seq<Pooled>, pool: Seq<Pooled>) -> bool {
    &&& places.len() == old_pool.len()
    &&& pool_is_sound(pool)
    &&& forall|i: int|
        0 <= i < places.len() ==> (#[trigger] places[i] matches Some(at) ==> at < pool.len()
            && pool[at as int].schema@ == old_pool[i].schema@)
}

/// Some dataset has this schema.
pub open spec fn in_use(entries: Seq<(Seq<char>, DatasetModel)>, schema: DatasetModel) -> bool {
    exists|k: int| 0 <= k < entries.len() && (#[trigger] entries[k]).1 == schema
}

fn all_set(live: &Vec<bool>) -> (all: bool)
    ensures
        all == (forall|i: int| 0 <= i < live@.len() ==> #[trigger] live@[i]),
{
    let mut i: usize = 0;
    while i < live.len()
        invariant
            i <= live@.len(),
            forall|j: int| 0 <= j < i ==> #[trigger] live@[j],
        decreases live@.len() - i,
    {
        if !live[i] {
            return false;
        }
        i += 1;
    }
    true
}

impl StoreMeta {
    /// Drops every tombstone, and closes the gaps. This is the only operation
    /// that gives a dataset another ordinal. Schemas of the pool that no
    /// dataset uses any more go too.
    pub fn drop_tombstones(&mut self)
        ensures
            final(self)@ == (if forall|i: int|
                0 <= i < old(self)@.live.len() ==> #[trigger] old(self)@.live[i] {
                old(self)@
            } else {
                reindexed(compacted(old(self)@))
            }),
            !(forall|i: int| 0 <= i < old(self)@.live.len() ==> #[trigger] old(self)@.live[i])
                ==> forall|n: int|
                0 <= n < final(self).pooled_schemas().len() ==> in_use(
                    final(self)@.datasets,
                    #[trigger] final(self).pooled_schemas()[n],
                ),
            forall|name: Seq<char>| #[trigger]
                final(self).is_pooled(name) <==> old(self).is_pooled(name) && has_key(
                    final(self)@.datasets,
                    name,
                ),
    {
        let ghost start = self@;
        let ghost initial = *self;
        if all_set(&self.live) {
            let _count: usize = self.datasets.len();
            proof {
                lemma_shares(self.datasets@, self.pool@);
                assert forall|name: Seq<char>| #[trigger] self.is_pooled(name) implies has_key(
                    self@.datasets,
                    name,
                ) by {
                    assert(shares(self.datasets@, name));
                }
            }
            return;
        }
        let mut whole = StoreMeta::blank(0, Codec::Zstd);
        std::mem::swap(self, &mut whole);
        proof {
            use_type_invariant(&whole);
        }
        let StoreMeta {
            version,
            codec,
            meta_epoch,
            mut datasets,
            live,
            index: _,
            pool: old_pool,
        } = whole;
        let ghost before = datasets@;
        let count: usize = datasets.len();
        let mut kept: Table<Slot> = Table::new();
        let mut kept_live: Vec<bool> = Vec::new();
        let mut pool: Vec<Pooled> = Vec::new();
        let mut places: Vec<Option<usize>> = Vec::new();
        let mut n: usize = 0;
        while n < old_pool.len()
            invariant
                n <= old_pool@.len(),
                places@.len() == n,
                forall|i: int| 0 <= i < n ==> #[trigger] places@[i] is None,
            decreases old_pool@.len() - n,
        {
            places.push(None);
            n += 1;
        }
        let mut i: usize = 0;
        assert(slot_models(kept@, pool@) =~= Seq::empty());
        while i < count
            invariant
                i <= count,
                count == before.len(),
                count == start.datasets.len(),
                live@ == start.live,
                sound(start),
                start.datasets == slot_models(before, old_pool@),
                slots_resolve(before, old_pool@),
                pool_is_sound(old_pool@),
                datasets@.len() == count,
                forall|k: int| 0 <= k < count ==> (#[trigger] datasets@[k]).0 == before[k].0,
                forall|k: int| i <= k < count ==> (#[trigger] datasets@[k]) == before[k],
                renumbered(places@, old_pool@, pool@),
                slots_resolve(kept@, pool@),
                kept_live@.len() == kept@.len(),
                forall|k: int| 0 <= k < kept_live@.len() ==> #[trigger] kept_live@[k],
                slot_models(kept@, pool@) == live_entries(start.datasets, start.live, i as int),
                keys_distinct(before),
                forall|k: int|
                    0 <= k < kept@.len() ==> shares(before, (#[trigger] kept@[k]).0) == (
                    kept@[k].1 is Shared),
                forall|n: int|
                    0 <= n < pool@.len() ==> in_use(
                        live_entries(start.datasets, start.live, i as int),
                        (#[trigger] pool@[n]).schema@,
                    ),
            decreases count - i,
        {
            if live[i] {
                let ghost entries = live_entries(start.datasets, start.live, i as int);
                let ghost kept_before = kept@;
                let ghost pool_before = pool@;
                let ghost name = before[i as int].0;
                let ghost model = start.datasets[i as int].1;
                let blank = Slot::Own(DatasetSchema::new());
                let slot = datasets.replace_at(i, blank);
                assert(slot == before[i as int].1);
                let moved = match slot {
                    Slot::Own(schema) => Slot::Own(schema),
                    Slot::Shared(at) => {
                        assert(before[i as int].1 matches Slot::Shared(p) ==> p < old_pool@.len());
                        match places[at] {
                            Some(place) => Slot::Shared(place),
                            None => {
                                let place: usize = intern(&mut pool, old_pool[at].schema.clone());
                                proof {
                                    lemma_renumbered(
                                        places@,
                                        old_pool@,
                                        pool_before,
                                        pool@,
                                        at as int,
                                        place,
                                    );
                                }
                                places.set(at, Some(place));
                                Slot::Shared(place)
                            },
                        }
                    },
                };
                let ghost given = moved;
                proof {
                    lemma_longer_pool(kept_before, pool_before, pool@);
                    assert(slot_model(given, pool@) == model);
                    lemma_live_entries(start, i + 1);
                    assert(live_entries(start.datasets, start.live, i + 1) == entries.push(
                        (name, model),
                    ));
                    if has_key(kept_before, name) {
                        let k = key_index(kept_before, name);
                        assert(kept_before[k].0 == name);
                        assert(slot_models(kept_before, pool@)[k].0 == name);
                        let longer = entries.push((name, model));
                        assert(longer[k].0 == longer[entries.len() as int].0);
                    }
                }
                kept.insert(datasets.name_at(i).to_owned(), moved);
                kept_live.push(true);
                proof {
                    assert(kept@ == kept_before.push((name, given)));
                    lemma_key_index(before, i as int);
                    assert forall|k: int| 0 <= k < kept@.len() implies shares(
                        before,
                        (#[trigger] kept@[k]).0,
                    ) == (kept@[k].1 is Shared) by {
                        if k < kept_before.len() {
                            assert(kept@[k] == kept_before[k]);
                        }
                    }
                    assert(slot_models(kept@, pool@) =~= entries.push((name, model)));
                    assert forall|n: int| 0 <= n < pool@.len() implies in_use(
                        entries.push((name, model)),
                        (#[trigger] pool@[n]).schema@,
                    ) by {
                        let longer = entries.push((name, model));
                        if n < pool_before.len() {
                            assert(pool@[n] == pool_before[n]);
                            let k = choose|k: int|
                                0 <= k < entries.len() && (#[trigger] entries[k]).1
                                    == pool_before[n].schema@;
                            assert(longer[k].1 == pool@[n].schema@);
                        } else {
                            assert(longer[entries.len() as int].1 == pool@[n].schema@);
                        }
                    }
                    assert forall|k: int| 0 <= k < kept@.len() implies (
                    #[trigger] kept@[k].1 matches Slot::Shared(p) ==> p < pool@.len()) by {
                        if k < kept_before.len() {
                            assert(kept_before[k].1 matches Slot::Shared(p) ==> p < pool@.len());
                        }
                    }
                }
            }
            i += 1;
        }
        proof {
            crate::meta::model::law_compacted_stores_hold_the_live_datasets(start);
            lemma_live_entries(start, start.datasets.len() as int);
            assert(kept_live@ =~= compacted(start).live);
        }
        let _kept: usize = kept.len();
        proof {
            lemma_shares(kept@, pool@);
            assert forall|name: Seq<char>| #[trigger]
                shares(kept@, name) <==> initial.is_pooled(name) && has_key(
                    slot_models(kept@, pool@),
                    name,
                ) by {
                lemma_slot_keys(kept@, pool@, name);
                if has_key(kept@, name) {
                    let k = key_index(kept@, name);
                    assert(kept@[k].0 == name);
                }
            }
        }
        let index = rebuild(&kept, &kept_live, &pool);
        *self = StoreMeta {
            version,
            codec,
            meta_epoch,
            datasets: kept,
            live: kept_live,
            index,
            pool,
        };
    }

    /// The metadata out of its stored parts: the name of each dataset with the
    /// position of its schema, and which datasets are live. Datasets whose
    /// schemas say the same share one.
    pub fn from_loaded(
        version: u32,
        codec: Codec,
        meta_epoch: u64,
        names: &Table<usize>,
        schemas: &Vec<DatasetSchema>,
        live: Vec<bool>,
    ) -> (meta: Self)
        requires
            live@.len() == names@.len(),
            forall|i: int| 0 <= i < names@.len() ==> (#[trigger] names@[i]).1 < schemas@.len(),
        ensures
            meta@ == reindexed(
                StoreModel {
                    version,
                    codec,
                    meta_epoch,
                    datasets: Seq::new(
                        names@.len(),
                        |i: int| (names@[i].0, schemas@[names@[i].1 as int]@),
                    ),
                    live: live@,
                    index: no_index(),
                },
            ),
            meta.is_shared_throughout(),
    {
        let ghost want = Seq::new(
            names@.len(),
            |i: int| (names@[i].0, schemas@[names@[i].1 as int]@),
        );
        let count: usize = names.len();
        let mut datasets: Table<Slot> = Table::new();
        let mut pool: Vec<Pooled> = Vec::new();
        let mut i: usize = 0;
        assert(slot_models(datasets@, pool@) =~= want.take(0));
        while i < count
            invariant
                i <= count,
                count == names@.len(),
                keys_distinct(names@),
                forall|i: int| 0 <= i < names@.len() ==> (#[trigger] names@[i]).1 < schemas@.len(),
                want == Seq::new(
                    names@.len(),
                    |i: int| (names@[i].0, schemas@[names@[i].1 as int]@),
                ),
                pool_is_sound(pool@),
                slots_resolve(datasets@, pool@),
                datasets@.len() == i,
                forall|k: int| 0 <= k < i ==> (#[trigger] datasets@[k]).0 == names@[k].0,
                slot_models(datasets@, pool@) == want.take(i as int),
                forall|k: int| 0 <= k < i ==> distinct_names((#[trigger] want[k]).1),
                forall|k: int| 0 <= k < i ==> (#[trigger] datasets@[k]).1 is Shared,
                forall|n: int|
                    0 <= n < pool@.len() ==> in_use(
                        want.take(i as int),
                        (#[trigger] pool@[n]).schema@,
                    ),
            decreases count - i,
        {
            let ghost before = datasets@;
            let ghost pool_before = pool@;
            let ghost name = names@[i as int].0;
            let schema = schemas[*names.value_at(i)].clone();
            proof {
                use_type_invariant(&schema);
                assert(want[i as int] == (name, schema@));
            }
            let at: usize = intern(&mut pool, schema);
            proof {
                lemma_longer_pool(before, pool_before, pool@);
                if has_key(before, name) {
                    let k = key_index(before, name);
                    assert(before[k].0 == name);
                    assert(names@[k].0 != names@[i as int].0);
                }
            }
            datasets.insert(names.name_at(i).to_owned(), Slot::Shared(at));
            proof {
                assert(datasets@ == before.push((name, Slot::Shared(at))));
                assert(slot_models(datasets@, pool@) =~= want.take(i + 1));
                assert forall|n: int| 0 <= n < pool@.len() implies in_use(
                    want.take(i + 1),
                    (#[trigger] pool@[n]).schema@,
                ) by {
                    if n < pool_before.len() {
                        assert(pool@[n] == pool_before[n]);
                        let k = choose|k: int|
                            0 <= k < i && (#[trigger] want.take(i as int)[k]).1
                                == pool_before[n].schema@;
                        assert(want.take(i + 1)[k].1 == pool@[n].schema@);
                    } else {
                        assert(want.take(i + 1)[i as int].1 == pool@[n].schema@);
                    }
                }
                assert forall|k: int| 0 <= k < datasets@.len() implies (
                #[trigger] datasets@[k].1 matches Slot::Shared(p) ==> p < pool@.len()) by {
                    if k < before.len() {
                        assert(before[k].1 matches Slot::Shared(p) ==> p < pool@.len());
                    }
                }
            }
            i += 1;
        }
        proof {
            assert(want.take(i as int) =~= want);
            assert(keys_distinct(want)) by {
                assert forall|a: int, b: int| 0 <= a < b < want.len() implies #[trigger] want[a].0
                    != #[trigger] want[b].0 by {
                    assert(names@[a].0 != names@[b].0);
                }
            }
        }
        let index = rebuild(&datasets, &live, &pool);
        proof {
            lemma_reindexed(
                StoreModel {
                    version,
                    codec,
                    meta_epoch,
                    datasets: want,
                    live: live@,
                    index: no_index(),
                },
            );
        }
        let meta = StoreMeta { version, codec, meta_epoch, datasets, live, index, pool };
        let _total: usize = meta.datasets.len();
        proof {
            assert forall|name: Seq<char>| #[trigger]
                meta.is_pooled(name) <==> has_key(meta@.datasets, name) by {
                lemma_slot_keys(meta.datasets@, meta.pool@, name);
                if has_key(meta.datasets@, name) {
                    let k = key_index(meta.datasets@, name);
                    assert(meta.datasets@[k].0 == name);
                }
            }
        }
        meta
    }
}

proof fn lemma_renumbered(
    places: Seq<Option<usize>>,
    old_pool: Seq<Pooled>,
    before: Seq<Pooled>,
    pool: Seq<Pooled>,
    at: int,
    place: usize,
)
    requires
        renumbered(places, old_pool, before),
        pool_is_sound(pool),
        0 <= at < places.len(),
        places[at] is None,
        place < pool.len(),
        pool[place as int].schema@ == old_pool[at].schema@,
        before.len() <= pool.len(),
        forall|i: int| 0 <= i < before.len() ==> (#[trigger] pool[i]) == before[i],
    ensures
        renumbered(places.update(at, Some(place)), old_pool, pool),
{
    let after = places.update(at, Some(place));
    assert forall|i: int| 0 <= i < after.len() implies (#[trigger] after[i] matches Some(p) ==> p
        < pool.len() && pool[p as int].schema@ == old_pool[i].schema@) by {
        if i != at {
            assert(places[i] matches Some(p) ==> p < before.len());
        }
    }
}

/// The tombstones are listed by increasing ordinal, each once.
pub proof fn law_tombstones_keep_their_order(live: Seq<bool>, n: nat)
    requires
        n <= 0x1_0000_0000,
    ensures
        dead_rows(live, n as int) == Seq::new(n, |i: int| i as u32).filter(
            |row: u32| !live[row as int],
        ),
    decreases n,
{
    reveal(Seq::filter);
    let row = |i: int| i as u32;
    let all = Seq::new(n, row);
    if n > 0 {
        let m = (n - 1) as nat;
        law_tombstones_keep_their_order(live, m);
        assert(all.drop_last() =~= Seq::new(m, row));
        assert(all.last() == (n - 1) as u32);
    }
}

} // verus!
