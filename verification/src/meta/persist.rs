//! The form in which store metadata is written, and which file holds it.
//!
//! Datasets whose schemas say the same are **interned**: each distinct schema
//! is written once, and a dataset names it by position. A homogeneous
//! collection writes its schema once however many datasets share it. Schemas
//! that list the same in another order are distinct, since every dataset reads
//! back in the order in which its arrays and attributes were added.

use crate::choice::{either, first, lemma_first, lemma_first_none};
use crate::config::{all_meta_variants, meta_file, meta_variants, Codec, MetaFormat};
use crate::error::{Error, Result};
use crate::format::pool::{law_interning, pooled};
use crate::meta::model::{live_entries, reindexed, sound, StoreModel};
use crate::meta::schema::{merged_of, DatasetModel, DatasetSchema, MergedSchema};
use crate::meta::store_meta::{dead_rows, schemas_of, StoreMeta, STORE_FORMAT_VERSION};
use crate::meta::type_index::no_index;
use crate::table::{has_key, Table};
use crate::text::{decimal, decimal_text, same_text, texts};
use vstd::prelude::*;

verus! {

/// The forms whose files are present, by priority.
pub open spec fn present_variants(files: Seq<Seq<char>>, n: int) -> Seq<(MetaFormat, Codec)>
    decreases n,
{
    if n <= 0 {
        Seq::empty()
    } else {
        let (format, compression) = meta_variants()[n - 1];
        if files.contains(meta_file(format, compression)) {
            present_variants(files, n - 1).push((format, compression))
        } else {
            present_variants(files, n - 1)
        }
    }
}

fn holds(files: &Vec<String>, name: &str) -> (found: bool)
    ensures
        found == texts(files@).contains(name@),
{
    let mut i: usize = 0;
    while i < files.len()
        invariant
            i <= files@.len(),
            forall|j: int| 0 <= j < i ==> texts(files@)[j] != name@,
        decreases files@.len() - i,
    {
        if same_text(files[i].as_str(), name) {
            assert(texts(files@)[i as int] == name@);
            return true;
        }
        i += 1;
    }
    false
}

/// The forms whose metadata files are among `files`, by priority. A load takes
/// the first; none at all means a fresh store.
pub fn detect_variants(files: &Vec<String>) -> (found: Vec<(MetaFormat, Codec)>)
    ensures
        found@ == present_variants(texts(files@), 6),
{
    let all = all_meta_variants();
    let mut found: Vec<(MetaFormat, Codec)> = Vec::new();
    let mut i: usize = 0;
    assert(found@ =~= Seq::empty());
    while i < 6
        invariant
            i <= 6,
            all@ == meta_variants(),
            found@ == present_variants(texts(files@), i as int),
        decreases 6 - i,
    {
        let (format, compression) = all[i];
        if holds(files, format.filename(compression)) {
            found.push((format, compression));
        }
        i += 1;
    }
    found
}

/// What the load of a store's metadata reads: a file of this encoding and
/// compression, or nothing for a fresh store, whose first save writes
/// uncompressed JSON.
#[derive(Debug, Clone, Copy, PartialEq, Eq)]
pub struct MetaSource {
    /// Whether there is a file to read.
    pub present: bool,
    /// Its encoding.
    pub format: MetaFormat,
    /// Its compression.
    pub compression: Codec,
}

/// Chooses the metadata file to load.
pub fn choose_source(files: &Vec<String>) -> (source: MetaSource)
    ensures
        ({
            let found = present_variants(texts(files@), 6);
            if found.len() == 0 {
                !source.present && source.format == MetaFormat::Json && source.compression
                    == Codec::Uncompressed
            } else {
                source.present && (source.format, source.compression) == found[0]
            }
        }),
{
    let found = detect_variants(files);
    if found.len() == 0 {
        MetaSource {
            present: false,
            format: MetaFormat::Json,
            compression: Codec::Uncompressed,
        }
    } else {
        let (format, compression) = found[0];
        MetaSource { present: true, format, compression }
    }
}

/// Rejects metadata of another store format. The version is read first, so
/// that a store of another format fails with a clear message.
pub fn check_store_version(found: u32) -> (verdict: Result<()>)
    ensures
        verdict is Ok <==> found == STORE_FORMAT_VERSION,
        verdict matches Err(e) ==> e@ == (Error::<Seq<char>>::UnsupportedVersion {
            found,
            expected: STORE_FORMAT_VERSION,
        }),
{
    if found != STORE_FORMAT_VERSION {
        return Err(Error::UnsupportedVersion { found, expected: STORE_FORMAT_VERSION });
    }
    Ok(())
}

/// The written form of a store's metadata.
#[derive(Debug)]
pub struct StoreMetaWire {
    /// Store format version.
    pub version: u32,
    /// Codec used when new arrays are defined.
    pub codec: Codec,
    /// The distinct dataset schemas, in first-seen order.
    pub schemas: Vec<DatasetSchema>,
    /// Dataset name to a position in `schemas`, tombstones included: their
    /// ordinals must be kept.
    pub datasets: Table<usize>,
    /// Ordinals of the tombstones.
    pub deleted: Vec<u32>,
    /// The counter that grows with every save.
    pub meta_epoch: u64,
    /// The merged schema of the live datasets. It is written for inspection
    /// and not read back.
    pub merged: MergedSchema,
}

/// What some schemas say.
pub open spec fn said_by(list: Seq<DatasetSchema>) -> Seq<DatasetModel> {
    Seq::new(list.len(), |i: int| list[i]@)
}

/// The distinct schemas of the first `n` datasets, in first-seen order.
pub open spec fn distinct_schemas(datasets: Seq<(Seq<char>, DatasetModel)>, n: int) -> Seq<
    DatasetModel,
>
    decreases n,
{
    if n <= 0 {
        Seq::empty()
    } else {
        pooled(distinct_schemas(datasets, n - 1), datasets[n - 1].1)
    }
}

/// A written form stands for a store's metadata.
pub open spec fn writes(wire: StoreMetaWire, m: StoreModel) -> bool {
    &&& wire.version == m.version
    &&& wire.codec == m.codec
    &&& wire.meta_epoch == m.meta_epoch
    &&& said_by(wire.schemas@) == distinct_schemas(m.datasets, m.datasets.len() as int)
    &&& wire.datasets@.len() == m.datasets.len()
    &&& forall|i: int|
        0 <= i < m.datasets.len() ==> {
            &&& (#[trigger] wire.datasets@[i]).0 == m.datasets[i].0
            &&& wire.datasets@[i].1 < wire.schemas@.len()
            &&& wire.schemas@[wire.datasets@[i].1 as int]@ == m.datasets[i].1
        }
    &&& wire.deleted@ == dead_rows(m.live, m.live.len() as int)
    &&& wire.merged@ == merged_of(
        schemas_of(live_entries(m.datasets, m.live, m.datasets.len() as int)),
    )
}

fn intern_schema(pool: &mut Vec<DatasetSchema>, schema: &DatasetSchema) -> (at: usize)
    ensures
        said_by(final(pool)@) == pooled(said_by(old(pool)@), schema@),
        at < final(pool)@.len(),
        final(pool)@[at as int]@ == schema@,
        old(pool)@.len() <= final(pool)@.len(),
        forall|i: int| 0 <= i < old(pool)@.len() ==> (#[trigger] final(pool)@[i]) == old(pool)@[i],
{
    let ghost before = said_by(pool@);
    let mut i: usize = 0;
    while i < pool.len()
        invariant
            i <= pool@.len(),
            pool@ == old(pool)@,
            before == said_by(pool@),
            forall|j: int| 0 <= j < i ==> before[j] != schema@,
        decreases pool@.len() - i,
    {
        if pool[i].same(schema) {
            assert(before[i as int] == schema@);
            return i;
        }
        i += 1;
    }
    pool.push(schema.clone());
    assert(!before.contains(schema@));
    assert(said_by(pool@) =~= before.push(schema@));
    i
}

/// Builds the written form. Tombstones are written too, so that every ordinal
/// is the same after a reload.
pub fn to_wire(meta: &StoreMeta) -> (wire: StoreMetaWire)
    requires
        meta@.datasets.len() <= 0x1_0000_0000,
    ensures
        writes(wire, meta@),
{
    let ghost m = meta@;
    let count: usize = meta.row_slots();
    let mut schemas: Vec<DatasetSchema> = Vec::new();
    let mut datasets: Table<usize> = Table::new();
    let mut i: usize = 0;
    assert(said_by(schemas@) =~= Seq::empty());
    while i < count
        invariant
            i <= count,
            m == meta@,
            sound(m),
            count == m.datasets.len(),
            said_by(schemas@) == distinct_schemas(m.datasets, i as int),
            datasets@.len() == i,
            forall|k: int|
                0 <= k < i ==> {
                    &&& (#[trigger] datasets@[k]).0 == m.datasets[k].0
                    &&& datasets@[k].1 < schemas@.len()
                    &&& schemas@[datasets@[k].1 as int]@ == m.datasets[k].1
                },
        decreases count - i,
    {
        let ghost before = datasets@;
        let at: usize = intern_schema(&mut schemas, meta.schema_at(i));
        let name = meta.name_at(i).to_owned();
        proof {
            if has_key(before, name@) {
                let k = crate::table::key_index(before, name@);
                assert(before[k].0 == name@);
                assert(m.datasets[k].0 != m.datasets[i as int].0);
            }
        }
        let ghost text = name@;
        datasets.insert(name, at);
        assert(datasets@ == before.push((text, at)));
        i += 1;
    }
    StoreMetaWire {
        version: meta.version(),
        codec: meta.codec(),
        schemas,
        datasets,
        deleted: meta.deleted_ordinals(),
        meta_epoch: meta.meta_epoch(),
        merged: meta.merged_schema(),
    }
}

/// What is wrong with a dataset of a written form.
pub open spec fn reference_fault(
    datasets: Seq<(Seq<char>, usize)>,
    schemas: nat,
    i: int,
) -> Option<Seq<char>> {
    if datasets[i].1 < schemas {
        None
    } else {
        Some(
            "dataset '"@ + datasets[i].0 + "' references schema index "@ + decimal(
                datasets[i].1 as nat,
            ) + " of "@ + decimal(schemas),
        )
    }
}

/// What is wrong with a tombstone of a written form.
pub open spec fn tombstone_fault(deleted: Seq<u32>, datasets: nat, i: int) -> Option<Seq<char>> {
    if deleted[i] < datasets {
        None
    } else {
        Some(
            "deleted ordinal "@ + decimal(deleted[i] as nat) + " of "@ + decimal(datasets)
                + " datasets"@,
        )
    }
}

/// What is wrong with a written form.
pub open spec fn wire_fault(wire: StoreMetaWire) -> Option<Seq<char>> {
    either(
        first(
            Seq::new(
                wire.datasets@.len(),
                |i: int| reference_fault(wire.datasets@, wire.schemas@.len(), i),
            ),
        ),
        first(
            Seq::new(
                wire.deleted@.len(),
                |i: int| tombstone_fault(wire.deleted@, wire.datasets@.len(), i),
            ),
        ),
    )
}

/// An ordinal is among the tombstones.
pub open spec fn marked(deleted: Seq<u32>, ordinal: int) -> bool {
    exists|j: int| 0 <= j < deleted.len() && #[trigger] deleted[j] == ordinal
}

/// Which datasets a written form has live.
pub open spec fn live_of(deleted: Seq<u32>, datasets: nat) -> Seq<bool> {
    Seq::new(datasets, |i: int| !marked(deleted, i))
}

/// What a written form without faults stands for.
pub open spec fn store_of(wire: StoreMetaWire) -> StoreModel {
    reindexed(
        StoreModel {
            version: wire.version,
            codec: wire.codec,
            meta_epoch: wire.meta_epoch,
            datasets: Seq::new(
                wire.datasets@.len(),
                |i: int| (wire.datasets@[i].0, wire.schemas@[wire.datasets@[i].1 as int]@),
            ),
            live: live_of(wire.deleted@, wire.datasets@.len()),
            index: no_index(),
        },
    )
}

fn check_references(wire: &StoreMetaWire) -> (verdict: Result<()>)
    ensures
        ({
            let fault = first(
                Seq::new(
                    wire.datasets@.len(),
                    |i: int| reference_fault(wire.datasets@, wire.schemas@.len(), i),
                ),
            );
            match verdict {
                Ok(_) => fault is None && forall|i: int|
                    0 <= i < wire.datasets@.len() ==> (#[trigger] wire.datasets@[i]).1
                        < wire.schemas@.len(),
                Err(e) => fault matches Some(text) && e@ == Error::CorruptMetadata(text),
            }
        }),
{
    let ghost list = Seq::new(
        wire.datasets@.len(),
        |i: int| reference_fault(wire.datasets@, wire.schemas@.len(), i),
    );
    let count: usize = wire.datasets.len();
    let total: usize = wire.schemas.len();
    let mut i: usize = 0;
    while i < count
        invariant
            i <= count,
            count == wire.datasets@.len(),
            total == wire.schemas@.len(),
            list == Seq::new(
                wire.datasets@.len(),
                |i: int| reference_fault(wire.datasets@, wire.schemas@.len(), i),
            ),
            forall|j: int| 0 <= j < i ==> list[j] is None,
            forall|j: int| 0 <= j < i ==> (#[trigger] wire.datasets@[j]).1 < total,
        decreases count - i,
    {
        let at: usize = *wire.datasets.value_at(i);
        if at >= total {
            let mut text: String = "dataset '".to_owned();
            text.append(wire.datasets.name_at(i));
            text.append("' references schema index ");
            text.append(decimal_text(at as u64).as_str());
            text.append(" of ");
            text.append(decimal_text(total as u64).as_str());
            proof {
                assert(list[i as int] == Some(text@));
                lemma_first(list, i as int);
            }
            return Err(Error::CorruptMetadata(text));
        }
        assert(list[i as int] is None);
        i += 1;
    }
    proof {
        lemma_first(list, i as int);
    }
    Ok(())
}

fn read_tombstones(deleted: &Vec<u32>, datasets: usize) -> (live: Result<Vec<bool>>)
    ensures
        ({
            let fault = first(
                Seq::new(
                    deleted@.len(),
                    |i: int| tombstone_fault(deleted@, datasets as nat, i),
                ),
            );
            match live {
                Ok(mask) => fault is None && mask@ == live_of(deleted@, datasets as nat),
                Err(e) => fault matches Some(text) && e@ == Error::CorruptMetadata(text),
            }
        }),
{
    let ghost list = Seq::new(
        deleted@.len(),
        |i: int| tombstone_fault(deleted@, datasets as nat, i),
    );
    let mut mask: Vec<bool> = Vec::new();
    let mut n: usize = 0;
    while n < datasets
        invariant
            n <= datasets,
            mask@.len() == n,
            forall|k: int| 0 <= k < n ==> #[trigger] mask@[k],
        decreases datasets - n,
    {
        mask.push(true);
        n += 1;
    }
    let mut i: usize = 0;
    while i < deleted.len()
        invariant
            i <= deleted@.len(),
            mask@.len() == datasets,
            list == Seq::new(
                deleted@.len(),
                |i: int| tombstone_fault(deleted@, datasets as nat, i),
            ),
            forall|j: int| 0 <= j < i ==> list[j] is None,
            forall|k: int|
                0 <= k < datasets ==> (#[trigger] mask@[k] <==> !(exists|j: int|
                    0 <= j < i && #[trigger] deleted@[j] == k)),
        decreases deleted@.len() - i,
    {
        let ordinal: u32 = deleted[i];
        if ordinal as u64 >= datasets as u64 {
            let mut text: String = "deleted ordinal ".to_owned();
            text.append(decimal_text(ordinal as u64).as_str());
            text.append(" of ");
            text.append(decimal_text(datasets as u64).as_str());
            text.append(" datasets");
            proof {
                assert(list[i as int] == Some(text@));
                lemma_first(list, i as int);
            }
            return Err(Error::CorruptMetadata(text));
        }
        let ghost before = mask@;
        mask.set(ordinal as usize, false);
        proof {
            assert(list[i as int] is None);
            assert forall|k: int| 0 <= k < datasets implies (#[trigger] mask@[k] <==> !(exists|
                j: int,
            |
                0 <= j < i + 1 && #[trigger] deleted@[j] == k)) by {
                assert(before[k] <==> !(exists|j: int| 0 <= j < i && #[trigger] deleted@[j] == k));
                if k == ordinal {
                    assert(deleted@[i as int] == k);
                } else if exists|j: int| 0 <= j < i + 1 && #[trigger] deleted@[j] == k {
                    let j = choose|j: int| 0 <= j < i + 1 && #[trigger] deleted@[j] == k;
                    assert(j != i);
                }
            }
        }
        i += 1;
    }
    proof {
        lemma_first(list, i as int);
        assert(mask@ =~= live_of(deleted@, datasets as nat));
    }
    Ok(mask)
}

/// Expands the written form. Datasets that name the same schema share it.
pub fn from_wire(wire: &StoreMetaWire) -> (meta: Result<StoreMeta>)
    ensures
        match meta {
            Ok(m) => {
                &&& wire_fault(*wire) is None
                &&& m@ == store_of(*wire)
                &&& m.is_shared_throughout()
            },
            Err(e) => wire_fault(*wire) matches Some(text) && e@ == Error::CorruptMetadata(text),
        },
{
    match check_references(wire) {
        Ok(_) => {},
        Err(e) => {
            return Err(e);
        },
    }
    match read_tombstones(&wire.deleted, wire.datasets.len()) {
        Ok(live) => Ok(
            StoreMeta::from_loaded(
                wire.version,
                wire.codec,
                wire.meta_epoch,
                &wire.datasets,
                &wire.schemas,
                live,
            ),
        ),
        Err(e) => Err(e),
    }
}

proof fn lemma_dead_rows(live: Seq<bool>, n: int, k: int)
    requires
        0 <= n <= live.len(),
        live.len() <= 0x1_0000_0000,
    ensures
        forall|j: int|
            0 <= j < dead_rows(live, n).len() ==> (#[trigger] dead_rows(live, n)[j]) < n,
        0 <= k < n ==> (marked(dead_rows(live, n), k) <==> !live[k]),
    decreases n,
{
    if n > 0 {
        lemma_dead_rows(live, n - 1, k);
        let front = dead_rows(live, n - 1);
        let all = dead_rows(live, n);
        if !live[n - 1] {
            assert(all == front.push((n - 1) as u32));
            assert(all[front.len() as int] == n - 1);
            if marked(front, k) {
                let j = choose|j: int| 0 <= j < front.len() && #[trigger] front[j] == k;
                assert(all[j] == k);
            }
            if marked(all, k) && k < n - 1 {
                let j = choose|j: int| 0 <= j < all.len() && #[trigger] all[j] == k;
                assert(front[j] == k);
            }
        }
    }
}

/// What is written reads back as it was: the same version, codec and counter,
/// every dataset at its ordinal with its schema, and every tombstone. The
/// arrays and attribute keys of a dataset keep the order in which they were
/// added. The type index is the one the live datasets give.
pub proof fn law_written_metadata_reads_back(wire: StoreMetaWire, m: StoreModel)
    requires
        writes(wire, m),
        m.live.len() == m.datasets.len(),
        m.datasets.len() <= 0x1_0000_0000,
    ensures
        wire_fault(wire) is None,
        store_of(wire) == reindexed(m),
{
    let refs = Seq::new(
        wire.datasets@.len(),
        |i: int| reference_fault(wire.datasets@, wire.schemas@.len(), i),
    );
    let dead = Seq::new(
        wire.deleted@.len(),
        |i: int| tombstone_fault(wire.deleted@, wire.datasets@.len(), i),
    );
    assert forall|i: int| 0 <= i < refs.len() implies refs[i] is None by {
        assert(wire.datasets@[i].1 < wire.schemas@.len());
    }
    lemma_dead_rows(m.live, m.live.len() as int, 0);
    assert forall|i: int| 0 <= i < dead.len() implies dead[i] is None by {
        assert(wire.deleted@[i] < m.live.len());
    }
    lemma_first(refs, refs.len() as int);
    lemma_first(dead, dead.len() as int);
    let live = live_of(wire.deleted@, wire.datasets@.len());
    assert forall|k: int| 0 <= k < live.len() implies live[k] == m.live[k] by {
        lemma_dead_rows(m.live, m.live.len() as int, k);
    }
    assert(live =~= m.live);
    let datasets = Seq::new(
        wire.datasets@.len(),
        |i: int| (wire.datasets@[i].0, wire.schemas@[wire.datasets@[i].1 as int]@),
    );
    assert forall|i: int| 0 <= i < datasets.len() implies datasets[i] == m.datasets[i] by {
        assert(wire.datasets@[i].0 == m.datasets[i].0);
    }
    assert(datasets =~= m.datasets);
}

/// Each distinct schema is written once.
pub proof fn law_equal_schemas_are_written_once(
    datasets: Seq<(Seq<char>, DatasetModel)>,
    n: int,
)
    ensures
        distinct_schemas(datasets, n).no_duplicates(),
    decreases n,
{
    if n > 0 {
        law_equal_schemas_are_written_once(datasets, n - 1);
        law_interning(distinct_schemas(datasets, n - 1), datasets[n - 1].1, datasets[n - 1].1);
    }
}

/// The metadata files that are there are found, by priority, and no other. The
/// first of them is the one a load takes.
pub proof fn law_present_files_are_found_by_priority(files: Seq<Seq<char>>)
    ensures
        present_variants(files, 6) == meta_variants().filter(
            |v: (MetaFormat, Codec)| files.contains(meta_file(v.0, v.1)),
        ),
{
    assert(meta_variants().take(6) =~= meta_variants());
    lemma_present_variants(files, 6);
}

proof fn lemma_present_variants(files: Seq<Seq<char>>, n: int)
    requires
        0 <= n <= 6,
    ensures
        present_variants(files, n) == meta_variants().take(n).filter(
            |v: (MetaFormat, Codec)| files.contains(meta_file(v.0, v.1)),
        ),
    decreases n,
{
    reveal(Seq::filter);
    if n > 0 {
        lemma_present_variants(files, n - 1);
        let all = meta_variants();
        assert(all.take(n).drop_last() =~= all.take(n - 1));
        assert(all.take(n).last() == all[n - 1]);
    }
}

/// A written form has no fault exactly where every dataset has a schema that is
/// there, and every tombstone names a dataset.
pub proof fn law_faultless_forms_resolve(wire: StoreMetaWire)
    ensures
        wire_fault(wire) is None <==> {
            &&& forall|i: int|
                0 <= i < wire.datasets@.len() ==> (#[trigger] wire.datasets@[i]).1
                    < wire.schemas@.len()
            &&& forall|j: int|
                0 <= j < wire.deleted@.len() ==> (#[trigger] wire.deleted@[j])
                    < wire.datasets@.len()
        },
{
    let refs = Seq::new(
        wire.datasets@.len(),
        |i: int| reference_fault(wire.datasets@, wire.schemas@.len(), i),
    );
    let dead = Seq::new(
        wire.deleted@.len(),
        |i: int| tombstone_fault(wire.deleted@, wire.datasets@.len(), i),
    );
    lemma_first_none(refs);
    lemma_first_none(dead);
    if wire_fault(wire) is None {
        assert forall|i: int| 0 <= i < wire.datasets@.len() implies (
        #[trigger] wire.datasets@[i]).1 < wire.schemas@.len() by {
            assert(refs[i] is None);
        }
        assert forall|j: int| 0 <= j < wire.deleted@.len() implies (#[trigger] wire.deleted@[j])
            < wire.datasets@.len() by {
            assert(dead[j] is None);
        }
    } else {
        if first(refs) is Some {
            let i = choose|i: int| 0 <= i < refs.len() && !(refs[i] is None);
            assert(wire.datasets@[i].1 >= wire.schemas@.len());
        } else {
            let j = choose|j: int| 0 <= j < dead.len() && !(dead[j] is None);
            assert(wire.deleted@[j] >= wire.datasets@.len());
        }
    }
}

/// A dataset of a form that was read has the name and the schema that stand at
/// its place, and is live unless a tombstone names it.
pub proof fn law_read_datasets_are_those_of_the_form(wire: StoreMetaWire, i: int)
    requires
        0 <= i < wire.datasets@.len(),
    ensures
        store_of(wire).datasets.len() == wire.datasets@.len(),
        store_of(wire).datasets[i] == (
            wire.datasets@[i].0,
            wire.schemas@[wire.datasets@[i].1 as int]@,
        ),
        store_of(wire).live[i] <==> forall|j: int|
            0 <= j < wire.deleted@.len() ==> #[trigger] wire.deleted@[j] != i,
        store_of(wire).version == wire.version,
        store_of(wire).codec == wire.codec,
        store_of(wire).meta_epoch == wire.meta_epoch,
{
}

} // verus!
